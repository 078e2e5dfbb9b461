//! Which links are found and where they lead, and on which lines references stand.

use vstd::prelude::*;

use crate::finding::below;
use crate::fs::FsView;
use crate::links::absolute;
use crate::links::by_path;
use crate::links::is_candidate;
use crate::links::is_candidate_for;
use crate::links::law_roots_are_apart;
use crate::links::lemma_outermost_of;
use crate::links::line_of;
use crate::links::link_dir;
use crate::links::normalized;
use crate::links::occurrences;
use crate::links::offered;
use crate::links::outermost_of;
use crate::links::path_text;
use crate::links::references;
use crate::links::registered;
use crate::links::relative;
use crate::links::resolved_text;
use crate::links::roots;
use crate::links::there;
use crate::links::walked;
use crate::links::LinkCandidate;
use crate::order::insert_sorted;
use crate::order::is_weak_order;
use crate::order::key_lt;
use crate::order::lemma_key_lt_total;
use crate::order::lemma_key_lt_transitive;
use crate::order::lemma_sorted;
use crate::order::sorted;
use crate::path::components;
use crate::path::is_plain;
use crate::path::join_text;
use crate::path::lemma_components_concat;
use crate::path::lemma_components_join;
use crate::path::lemma_components_join_name;
use crate::path::lemma_components_plain;
use crate::path::slash;
use crate::path::tail_components;
use crate::path::FilePath;
use crate::plan::all_references;
use crate::replacing::belongs;
use crate::replacing::belongs_best;
use crate::replacing::law_paths_move_with_what_they_lie_below;
use crate::replacing::lemma_belongs;
use crate::spelling::is_entry_name;
use crate::spelling::is_straight;
use crate::spelling::law_each_climb_of_a_link_takes_one_name;
use crate::spelling::law_parent_drops_the_last;
use crate::substitution::law_longest_prefix_wins;
use crate::substitution::lemma_match_path;
use crate::substitution::match_path;
use crate::substitution::matches_in;
use crate::substitution::Pairs;

verus! {

/// Sorting does not change the places of equals among themselves.
pub proof fn law_sorting_keeps_equals_in_place<T>(
    s: Seq<T>,
    lt: spec_fn(T, T) -> bool,
    f: spec_fn(T) -> bool,
)
    requires
        forall|a: T, b: T| f(a) && f(b) ==> !#[trigger] lt(a, b),
    ensures
        sorted(s, lt).filter(f) == s.filter(f),
    decreases s.len(),
{
    reveal(Seq::filter);
    if s.len() == 0 {
        assert(sorted(s, lt).filter(f) =~= s.filter(f));
    } else {
        let rest = s.drop_first();
        law_sorting_keeps_equals_in_place(rest, lt, f);
        lemma_insert_keeps(s[0], sorted(rest, lt), lt, f);
        assert(s =~= seq![s[0]] + rest);
        Seq::filter_distributes_over_add(seq![s[0]], rest, f);
    }
}

proof fn lemma_insert_keeps<T>(
    x: T,
    s: Seq<T>,
    lt: spec_fn(T, T) -> bool,
    f: spec_fn(T) -> bool,
)
    requires
        forall|a: T, b: T| f(a) && f(b) ==> !#[trigger] lt(a, b),
    ensures
        insert_sorted(x, s, lt).filter(f) == seq![x].filter(f) + s.filter(f),
    decreases s.len(),
{
    if s.len() > 0 && lt(s[0], x) {
        let rest = s.drop_first();
        lemma_insert_keeps(x, rest, lt, f);
        let more = insert_sorted(x, rest, lt);
        Seq::filter_distributes_over_add(seq![s[0]], more, f);
        assert(s =~= seq![s[0]] + rest);
        Seq::filter_distributes_over_add(seq![s[0]], rest, f);
        lemma_filter_one(x, f);
        lemma_filter_one(s[0], f);
        assert(insert_sorted(x, s, lt).filter(f) =~= seq![x].filter(f) + s.filter(f));
    } else {
        Seq::filter_distributes_over_add(seq![x], s, f);
    }
}

proof fn lemma_filter_one<T>(x: T, f: spec_fn(T) -> bool)
    ensures
        seq![x].filter(f) == if f(x) {
            seq![x]
        } else {
            Seq::empty()
        },
{
    reveal_with_fuel(Seq::filter, 2);
    assert(seq![x].drop_last() =~= Seq::empty());
    assert(seq![x].filter(f) =~= if f(x) {
        seq![x]
    } else {
        Seq::empty()
    });
}

pub(crate) proof fn lemma_rooted_components(s: Seq<char>)
    requires
        s.len() > 0 && s[0] == '/',
    ensures
        components(s).len() > 0,
        components(s)[0] == seq!['/'],
        forall|i: int|
            0 < i < components(s).len() ==> (#[trigger] components(s)[i]).len() > 0
                && !components(s)[i].contains('/'),
{
    assert(slash() =~= seq!['/']);
    let rest = s.skip(1);
    assert(s =~= Seq::<char>::empty().push('/') + rest);
    lemma_components_concat(Seq::empty(), rest);
    assert forall|i: int| 0 < i < components(s).len() implies (#[trigger] components(s)[i]).len()
        > 0 && !components(s)[i].contains('/') by {
        lemma_components_plain(s, i);
    }
}

/// Where a link leads is read from the directory that the link lies in, unless its
/// target is absolute: the names of the target follow those of the directory.
pub proof fn law_links_lead_from_their_directory(link: Seq<char>, target: Seq<char>)
    requires
        link.len() > 0 && link[0] == '/',
        components(link).len() > 1,
    ensures
        target.len() > 0 && target[0] == '/' ==> components(resolved_text(link, target))
            == normalized(components(target)),
        !(target.len() > 0 && target[0] == '/') ==> components(resolved_text(link, target))
            == normalized(components(link).drop_last() + tail_components(target)),
{
    law_parent_drops_the_last(link);
    let k = components(link);
    lemma_rooted_components(link);
    assert(k.last() != slash()) by {
        assert(slash()[0] == '/');
        let c = k[k.len() - 1];
        assert(c.contains(c[0]));
    }
    let dir = link_dir(link);
    assert(components(dir) == k.drop_last());
    assert(components(dir)[0] == seq!['/']);
    let joined = if target.len() > 0 && target[0] == '/' {
        target
    } else {
        join_text(dir, target)
    };
    crate::path::lemma_parent_text(link);
    if target.len() > 0 && target[0] == '/' {
        lemma_rooted_components(target);
    } else {
        lemma_components_join(dir, target);
        lemma_rooted_components(joined);
    }
    lemma_normalized_text(components(joined));
}

proof fn lemma_normalized_text(k: crate::path::Key)
    requires
        k.len() > 0 && k[0] == seq!['/'],
        forall|i: int| 0 < i < k.len() ==> (#[trigger] k[i]).len() > 0 && !k[i].contains('/'),
    ensures
        is_straight(normalized(k)),
        components(path_text(normalized(k))) == normalized(k),
{
    lemma_normalized_straight(k);
    crate::spelling::lemma_straight_text(normalized(k));
}

proof fn lemma_normalized_straight(k: crate::path::Key)
    requires
        k.len() > 0 && k[0] == seq!['/'],
        forall|i: int| 0 < i < k.len() ==> (#[trigger] k[i]).len() > 0 && !k[i].contains('/'),
    ensures
        is_straight(normalized(k)),
    decreases k.len(),
{
    let init = k.drop_last();
    let c = k.last();
    assert(init.push(c) =~= k);
    if k.len() == 1 {
        law_each_climb_of_a_link_takes_one_name(init, c);
        assert(normalized(k) =~= seq![c]);
    } else {
        assert forall|i: int| 0 < i < init.len() implies (#[trigger] init[i]).len() > 0
            && !init[i].contains('/') by {
            assert(init[i] == k[i]);
        }
        lemma_normalized_straight(init);
        let t = normalized(init);
        assert(k[k.len() - 1] == c);
        if is_entry_name(c) {
            law_each_climb_of_a_link_takes_one_name(init, c);
        } else {
            law_each_climb_of_a_link_takes_one_name(init, seq!['/']);
            assert(t.last() != seq!['.', '.']) by {
                assert(seq!['/'][0] == '/' && seq!['.', '.'][0] == '.');
                if t.len() > 1 {
                    assert(is_entry_name(t[t.len() - 1]));
                }
            }
            assert(t.len() == 1 ==> t.last() == seq!['/']);
            assert forall|i: int| 0 < i < normalized(k).len() implies is_entry_name(
                #[trigger] normalized(k)[i],
            ) by {
                assert(normalized(k)[i] == t[i]);
            }
        }
    }
}

/// The directories that are searched are the local directories of the registered
/// projects and those that were named, as far as they are there.
pub proof fn law_searched_directories_are_offered(
    v: FsView,
    claude_json: Option<FilePath>,
    explicit: Seq<Seq<char>>,
    local: Seq<char>,
    x: int,
)
    requires
        0 <= x < roots(v, claude_json, explicit, local).len(),
        is_plain(local),
    ensures
        v.present.contains(components(roots(v, claude_json, explicit, local)[x])),
        explicit.contains(roots(v, claude_json, explicit, local)[x]) || exists|i: int|
            0 <= i < registered(v, claude_json).len() && components(
                roots(v, claude_json, explicit, local)[x],
            ) == components(#[trigger] registered(v, claude_json)[i]).push(local),
{
    broadcast use vstd::seq_lib::group_to_multiset_ensures;

    let list = registered(v, claude_json);
    let all = offered(list, explicit, local);
    let kept = there(v, all);
    let ordered = sorted(kept, by_path());
    let r = roots(v, claude_json, explicit, local)[x];
    lemma_kept_of(ordered, ordered.len() as int, x);
    assert(ordered.contains(r));
    lemma_sorted(kept, by_path());
    assert(ordered.to_multiset().contains(r));
    assert(kept.contains(r));
    let f = |t: Seq<char>| v.present.contains(components(t));
    let j = choose|j: int| 0 <= j < kept.len() && kept[j] == r;
    all.lemma_filter_pred(f, j);
    all.lemma_filter_contains_rev(f, r);
    let i = choose|i: int| 0 <= i < all.len() && all[i] == r;
    if i < list.len() {
        lemma_components_join_name(list[i], local);
    } else {
        assert(explicit[i - list.len()] == r);
    }
}

proof fn lemma_kept_of(list: Seq<Seq<char>>, n: int, x: int)
    requires
        0 <= n <= list.len(),
        0 <= x < outermost_of(list, n).len(),
    ensures
        list.contains(outermost_of(list, n)[x]),
    decreases n,
{
    if x < outermost_of(list, n - 1).len() {
        lemma_kept_of(list, n - 1, x);
    } else {
        assert(list[n - 1] == outermost_of(list, n)[x]);
    }
}

/// The local directory of every registered project is offered for the search, and so is
/// every directory that was named.
pub proof fn law_every_local_directory_is_offered(
    list: Seq<Seq<char>>,
    explicit: Seq<Seq<char>>,
    local: Seq<char>,
    i: int,
)
    requires
        is_plain(local),
    ensures
        0 <= i < list.len() ==> exists|root: Seq<char>| #[trigger]
            offered(list, explicit, local).contains(root) && components(root) == components(
                list[i],
            ).push(local),
        0 <= i < explicit.len() ==> offered(list, explicit, local).contains(explicit[i]),
{
    let all = offered(list, explicit, local);
    if 0 <= i < list.len() {
        lemma_components_join_name(list[i], local);
        assert(all[i] == join_text(list[i], local));
        assert(all.contains(all[i]));
    }
    if 0 <= i < explicit.len() {
        assert(all[list.len() + i] == explicit[i]);
    }
}

/// The trees are walked one after the other, each as a whole.
pub proof fn law_trees_are_walked_in_turn(
    v: FsView,
    a: Seq<Seq<char>>,
    b: Seq<Seq<char>>,
    t: Seq<char>,
)
    ensures
        walked(v, a + b) == walked(v, a) + walked(v, b),
        walked(v, Seq::empty()) == Seq::<Seq<char>>::empty(),
        v.tree.contains_key(t) ==> walked(v, seq![t]) == v.tree[t],
        !v.tree.contains_key(t) ==> walked(v, seq![t]) == Seq::<Seq<char>>::empty(),
    decreases b.len(),
{
    reveal_with_fuel(walked, 2);
    assert(seq![t].drop_last() =~= Seq::empty());
    if v.tree.contains_key(t) {
        assert(walked(v, seq![t]) =~= v.tree[t]);
    } else {
        assert(walked(v, seq![t]) =~= Seq::empty());
    }
    if b.len() == 0 {
        assert(a + b =~= a);
        assert(walked(v, a + b) =~= walked(v, a) + walked(v, b));
    } else {
        assert((a + b).drop_last() =~= a + b.drop_last());
        law_trees_are_walked_in_turn(v, a, b.drop_last(), t);
        assert(walked(v, a + b) =~= walked(v, a) + walked(v, b));
    }
}

/// A link is repointed exactly where it leads to a path that moves, but for a relative
/// link that moves along with its target.
pub proof fn law_links_into_moved_projects_are_repointed(
    v: FsView,
    link: Seq<char>,
    raw: Seq<char>,
    subs: Pairs,
)
    requires
        v.links.contains_key(components(link)),
        v.links[components(link)] == raw,
    ensures
        is_candidate(v, link, subs) ==> exists|f: int|
            0 <= f < subs.len() && belongs(resolved_text(link, raw), #[trigger] subs[f].0),
        (exists|f: int|
            0 <= f < subs.len() && belongs(resolved_text(link, raw), #[trigger] subs[f].0)) && (
        absolute(raw) || forall|f: int|
            0 <= f < subs.len() ==> !belongs(link, #[trigger] subs[f].0)) ==> is_candidate(
            v,
            link,
            subs,
        ),
        forall|e: int|
            #![trigger subs[e]]
            subs.len() == 1 && e == 0 && !absolute(raw) && belongs(link, subs[e].0) && belongs(
                resolved_text(link, raw),
                subs[e].0,
            ) ==> !is_candidate(v, link, subs),
{
    let target = resolved_text(link, raw);
    law_paths_move_with_what_they_lie_below(subs, target, 0);
    law_paths_move_with_what_they_lie_below(subs, link, 0);
    lemma_match_path(subs, target);
    lemma_match_path(subs, link);
}

/// A repointed link is described by where it is, where it led, where it is to lead, how
/// it is written and whether it led anywhere.
pub proof fn law_repointed_links_follow_their_targets(
    c: LinkCandidate,
    v: FsView,
    link: Seq<char>,
    subs: Pairs,
)
    requires
        is_candidate_for(c, v, link, subs),
    ensures
        v.links.contains_key(components(link)),
        c.path@ == link,
        c.resolved_target@ == resolved_text(link, v.links[components(link)]),
        exists|e: int|
            0 <= e < subs.len() && {
                ||| c.resolved_target@ == (#[trigger] subs[e]).0 && c.new_target@ == subs[e].1
                ||| exists|rest: Seq<char>|
                    c.resolved_target@ == #[trigger] below(subs[e].0, rest) && c.new_target@
                        == below(subs[e].1, rest)
            },
        c.is_relative <==> !(v.links[components(link)].len() > 0 && v.links[components(link)][0]
            == '/'),
        c.alive <==> v.present.contains(components(c.resolved_target@)),
{
    let target = c.resolved_target@;
    lemma_match_path(subs, target);
    let e = match_path(subs, target)->0;
    let (old, new) = subs[e];
    if target == old {
        assert(new + target.skip(old.len() as int) =~= new);
    } else {
        let rest = target.skip(old.len() as int + 1);
        assert(target.subrange(0, old.len() as int) == old);
        assert(target =~= target.subrange(0, old.len() as int) + seq!['/'] + rest);
        assert(target == below(old, rest));
        assert(new + target.skip(old.len() as int) =~= below(new, rest));
    }
}

proof fn lemma_occurrences(a: Seq<char>, b: Seq<char>, c: char)
    ensures
        occurrences(a + b, c) == occurrences(a, c) + occurrences(b, c),
    decreases b.len(),
{
    if b.len() == 0 {
        assert(a + b =~= a);
    } else {
        assert((a + b).drop_last() =~= a + b.drop_last());
        lemma_occurrences(a, b.drop_last(), c);
    }
}

/// Lines are counted from one, and a line end starts the next line. What stands behind a
/// place does not count.
pub proof fn law_lines_are_counted(a: Seq<char>, b: Seq<char>, rest: Seq<char>)
    requires
        !b.contains('\n'),
    ensures
        line_of(rest, 0) == 1,
        line_of(b + rest, b.len() as int) == 1,
        line_of(a + seq!['\n'] + b + rest, (a.len() + 1 + b.len()) as int) == line_of(
            a + rest,
            a.len() as int,
        ) + 1,
{
    assert(rest.take(0) =~= Seq::empty());
    assert((b + rest).take(b.len() as int) =~= b);
    lemma_none(b);
    let s = a + seq!['\n'] + b;
    assert((s + rest).take(s.len() as int) =~= s);
    assert((a + rest).take(a.len() as int) =~= a);
    lemma_occurrences(a + seq!['\n'], b, '\n');
    lemma_occurrences(a, seq!['\n'], '\n');
    reveal_with_fuel(occurrences, 2);
    assert(seq!['\n'].drop_last() =~= Seq::empty());
}

proof fn lemma_none(b: Seq<char>)
    requires
        !b.contains('\n'),
    ensures
        occurrences(b, '\n') == 0,
    decreases b.len(),
{
    if b.len() > 0 {
        assert(b.contains(b.last()));
        let init = b.drop_last();
        assert(!init.contains('\n')) by {
            if init.contains('\n') {
                let i = choose|i: int| 0 <= i < init.len() && init[i] == '\n';
                assert(b[i] == '\n');
            }
        }
        lemma_none(init);
    }
}

/// A text is searched for references unless it lies in a `.git` directory or in a
/// project that moves, cannot be read or looks binary. Every match is found, on its line
/// and with both paths.
pub proof fn law_references_are_found(v: FsView, path: Seq<char>, subs: Pairs, i: int)
    ensures
        components(path).contains(".git"@) ==> references(v, path, subs).len() == 0,
        v.text(components(path)) is None ==> references(v, path, subs).len() == 0,
        v.text(components(path)) matches Some(s) && s.contains('\0') ==> references(
            v,
            path,
            subs,
        ).len() == 0,
        (exists|f: int| 0 <= f < subs.len() && belongs(path, #[trigger] subs[f].0)) ==> references(
            v,
            path,
            subs,
        ).len() == 0,
        v.text(components(path)) is Some && !v.text(components(path))->0.contains('\0')
            && !components(path).contains(".git"@) && (forall|f: int|
            0 <= f < subs.len() ==> !belongs(path, #[trigger] subs[f].0)) ==> {
            let s = v.text(components(path))->0;
            let found = matches_in(subs, s);
            &&& references(v, path, subs).len() == found.len()
            &&& 0 <= i < found.len() ==> references(v, path, subs)[i] == (
                line_of(s, found[i].0),
                subs[found[i].1].0,
                subs[found[i].1].1,
            )
        },
{
    law_paths_move_with_what_they_lie_below(subs, path, 0);
}

/// References are found file by file.
pub proof fn law_files_are_searched_in_turn(
    v: FsView,
    a: Seq<Seq<char>>,
    b: Seq<Seq<char>>,
    subs: Pairs,
    path: Seq<char>,
)
    ensures
        all_references(v, a + b, subs) == all_references(v, a, subs) + all_references(v, b, subs),
        all_references(v, seq![path], subs).len() == references(v, path, subs).len(),
        forall|i: int|
            0 <= i < references(v, path, subs).len() ==> #[trigger] all_references(
                v,
                seq![path],
                subs,
            )[i] == (path, references(v, path, subs)[i]),
    decreases b.len(),
{
    reveal_with_fuel(all_references, 2);
    assert(seq![path].drop_last() =~= Seq::empty());
    if b.len() == 0 {
        assert(a + b =~= a);
        assert(all_references(v, a + b, subs) =~= all_references(v, a, subs) + all_references(
            v,
            b,
            subs,
        ));
    } else {
        assert((a + b).drop_last() =~= a + b.drop_last());
        law_files_are_searched_in_turn(v, a, b.drop_last(), subs, path);
        assert(all_references(v, a + b, subs) =~= all_references(v, a, subs) + all_references(
            v,
            b,
            subs,
        ));
    }
}

/// A relative link that moves keeps what it says only where its target moves with it, in
/// the same project.
pub proof fn law_links_between_moved_projects_are_repointed(
    v: FsView,
    link: Seq<char>,
    raw: Seq<char>,
    subs: Pairs,
    e: int,
    f: int,
)
    requires
        v.links.contains_key(components(link)),
        v.links[components(link)] == raw,
        belongs_best(subs, resolved_text(link, raw), e),
        belongs_best(subs, link, f),
    ensures
        is_candidate(v, link, subs) <==> absolute(raw) || subs[e].0 != subs[f].0,
{
    let target = resolved_text(link, raw);
    lemma_best(subs, target, e);
    lemma_best(subs, link, f);
}

proof fn lemma_best(subs: Pairs, p: Seq<char>, e: int)
    requires
        belongs_best(subs, p, e),
    ensures
        match_path(subs, p) == Some(e),
{
    lemma_belongs(p, subs[e].0);
    law_longest_prefix_wins(subs, p, e);
    lemma_match_path(subs, p);
    let g = match_path(subs, p)->0;
    lemma_belongs(p, subs[g].0);
}

/// The directories are searched in the order of their paths.
pub proof fn law_directories_are_searched_in_order(
    v: FsView,
    claude_json: Option<FilePath>,
    explicit: Seq<Seq<char>>,
    local: Seq<char>,
    x: int,
    y: int,
)
    requires
        0 <= x < y < roots(v, claude_json, explicit, local).len(),
    ensures
        key_lt(
            components(roots(v, claude_json, explicit, local)[x]),
            components(roots(v, claude_json, explicit, local)[y]),
        ),
{
    let list = sorted(there(v, offered(registered(v, claude_json), explicit, local)), by_path());
    let n = list.len() as int;
    let i = lemma_outermost_of(list, n, x);
    let j = lemma_outermost_of(list, n, y);
    if i >= j {
        lemma_fewer(list, j + 1, i + 1);
        if i > j {
            lemma_fewer(list, j + 1, i);
        }
    }
    lemma_path_order();
    lemma_sorted(there(v, offered(registered(v, claude_json), explicit, local)), by_path());
    assert(!by_path()(list[j], list[i]));
    law_roots_are_apart(v, claude_json, explicit, local, x, y);
    let a = components(list[i]);
    let b = components(list[j]);
    lemma_key_lt_total(a, b);
    if a == b {
        assert(a.subrange(0, a.len() as int) =~= a);
    }
}

proof fn lemma_fewer(list: Seq<Seq<char>>, m: int, n: int)
    requires
        m <= n,
    ensures
        outermost_of(list, m).len() <= outermost_of(list, n).len(),
    decreases n - m,
{
    if m < n {
        lemma_fewer(list, m, n - 1);
    }
}

proof fn lemma_path_order()
    ensures
        is_weak_order(by_path()),
{
    let lt = by_path();
    assert forall|a: Seq<char>, b: Seq<char>| #[trigger] lt(a, b) implies !lt(b, a) by {
        lemma_key_lt_total(components(a), components(b));
    }
    assert forall|a: Seq<char>, b: Seq<char>, c: Seq<char>|
        !#[trigger] lt(a, b) && !#[trigger] lt(b, c) implies !lt(a, c) by {
        let x = components(a);
        let y = components(b);
        let z = components(c);
        lemma_key_lt_total(x, y);
        lemma_key_lt_total(y, z);
        lemma_key_lt_total(x, z);
        if key_lt(x, z) {
            if key_lt(y, x) {
                lemma_key_lt_transitive(y, x, z);
            }
        }
    }
}

} // verus!
