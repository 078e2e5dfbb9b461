//! Finds the links and the texts that point into a moving project. Nothing in
//! this module writes.

use vstd::prelude::*;
use vstd::string::*;

use crate::error::Error;
use crate::fs::apart;
use crate::fs::texts;
use crate::fs::Fs;
use crate::fs::FsView;
use crate::json::key_list;
use crate::json::lemma_lists_keys;
use crate::json::parse_json;
use crate::json::parsed;
use crate::json::project_keys;
use crate::json::projects;
use crate::order::key_lt;
use crate::order::lemma_sorted;
use crate::order::path_before;
use crate::order::sorted;
use crate::order::stable_sort;
use crate::path::components;
use crate::path::dot;
use crate::path::dot_dot;
use crate::path::has_parent;
use crate::path::is_plain;
use crate::path::join_text;
use crate::path::lemma_components_join;
use crate::path::lemma_components_join_name;
use crate::path::lemma_components_plain;
use crate::path::parent_text;
use crate::path::same_chars;
use crate::path::slash;
use crate::path::under;
use crate::path::FilePath;
use crate::path::Key;
use crate::substitution::found;
use crate::substitution::match_path;
use crate::substitution::matches_in;
use crate::substitution::rebased;
use crate::substitution::scan_matches;
use crate::substitution::Pairs;
use crate::substitution::Substitutions;
use crate::text::chars_of;
use crate::text::string_of;

verus! {

/// One more component read: `.` says nothing, `..` goes back up where it can.
pub open spec fn step(stack: Key, c: Seq<char>) -> Key {
    if c == dot() {
        stack
    } else if c == dot_dot() && stack.len() > 0 && stack.last() == slash() {
        stack
    } else if c == dot_dot() && stack.len() > 0 && stack.last() != dot_dot() {
        stack.drop_last()
    } else {
        stack.push(c)
    }
}

/// The components `k` without `.` and without each `..` that has something to
/// go back from. At the root there is nowhere higher to go.
pub open spec fn normalized(k: Key) -> Key
    decreases k.len(),
{
    if k.len() == 0 {
        Seq::empty()
    } else {
        step(normalized(k.drop_last()), k.last())
    }
}

/// The text of a path with the components `k`.
pub open spec fn path_text(k: Key) -> Seq<char>
    decreases k.len(),
{
    if k.len() == 0 {
        Seq::empty()
    } else {
        join_text(path_text(k.drop_last()), k.last())
    }
}

/// The directory that the link at `link` lies in.
pub open spec fn link_dir(link: Seq<char>) -> Seq<char> {
    if has_parent(components(link)) {
        parent_text(link)
    } else {
        link
    }
}

/// Where the link at `link` leads when its target is written `target`.
pub open spec fn resolved_text(link: Seq<char>, target: Seq<char>) -> Seq<char> {
    let joined = if target.len() > 0 && target[0] == '/' {
        target
    } else {
        join_text(link_dir(link), target)
    };
    path_text(normalized(components(joined)))
}

/// How many leading components both have in common.
pub open spec fn common(a: Key, b: Key) -> nat
    decreases a.len(),
{
    if a.len() == 0 || b.len() == 0 || a[0] != b[0] {
        0
    } else {
        1 + common(a.drop_first(), b.drop_first())
    }
}

/// `n` times one directory up.
pub open spec fn ups(n: nat) -> Key {
    Seq::new(n, |i: int| dot_dot())
}

/// The components that lead from the directory `dir` to `target`.
pub open spec fn relative(dir: Key, target: Key) -> Key {
    let n = common(dir, target);
    ups((dir.len() - n) as nat) + target.skip(n as int)
}

/// Pushes the components one after the other.
pub fn push_components(start: FilePath, parts: &Vec<Vec<char>>, from: usize) -> (r: FilePath)
    requires
        from <= parts@.len(),
    ensures
        r@ == pushed(start@, keys_of(parts@).skip(from as int)),
{
    let ghost ks = keys_of(parts@).skip(from as int);
    let mut r = start;
    let mut i: usize = from;
    assert(ks.take(0) =~= Seq::empty());
    while i < parts.len()
        invariant
            from <= i <= parts@.len(),
            ks == keys_of(parts@).skip(from as int),
            r@ == pushed(start@, ks.take(i - from)),
        decreases parts@.len() - i,
    {
        let part = string_of(&parts[i], 0, parts[i].len());
        r = r.join(part.as_str());
        i = i + 1;
        proof {
            let now = ks.take(i - from);
            assert(now.drop_last() =~= ks.take(i - 1 - from));
            assert(part@ =~= parts@[i - 1]@);
            assert(now.last() == keys_of(parts@)[i - 1]);
        }
    }
    assert(ks.take(i - from) =~= ks);
    r
}

/// The components that the texts are.
pub open spec fn keys_of(parts: Seq<Vec<char>>) -> Key {
    parts.map_values(|p: Vec<char>| p@)
}

/// `start` followed by the components `k`, one after the other.
pub open spec fn pushed(start: Seq<char>, k: Key) -> Seq<char>
    decreases k.len(),
{
    if k.len() == 0 {
        start
    } else {
        join_text(pushed(start, k.drop_last()), k.last())
    }
}

pub proof fn lemma_pushed_empty(k: Key)
    ensures
        pushed(Seq::empty(), k) == path_text(k),
    decreases k.len(),
{
    if k.len() > 0 {
        lemma_pushed_empty(k.drop_last());
    }
}

proof fn lemma_pushed_concat(start: Seq<char>, a: Key, b: Key)
    ensures
        pushed(start, a + b) == pushed(pushed(start, a), b),
    decreases b.len(),
{
    if b.len() == 0 {
        assert(a + b =~= a);
    } else {
        lemma_pushed_concat(start, a, b.drop_last());
        assert((a + b).drop_last() =~= a + b.drop_last());
        assert((a + b).last() == b.last());
    }
}

/// Takes out `.` and each `..` that has something to go back from, without
/// looking at the file system.
pub fn lexically_normalize(path: &FilePath) -> (r: FilePath)
    ensures
        r@ == path_text(normalized(path.key())),
{
    let parts = path.components();
    let mut stack: Vec<Vec<char>> = Vec::new();
    let ghost k = path.key();
    let mut i: usize = 0;
    assert(k.take(0) =~= Seq::empty());
    assert(keys_of(stack@) =~= normalized(k.take(0)));
    while i < parts.len()
        invariant
            k == path.key(),
            parts@.len() == k.len(),
            forall|x: int| 0 <= x < parts@.len() ==> (#[trigger] parts@[x])@ == k[x],
            i <= parts@.len(),
            keys_of(stack@) == normalized(k.take(i as int)),
        decreases parts@.len() - i,
    {
        let c = &parts[i];
        let ghost before = keys_of(stack@);
        if is_text(c, '.', 1) {
        } else if is_text(c, '.', 2) && stack.len() > 0 {
            let n: usize = stack.len();
            assert(before.last() == stack@[n - 1]@);
            if is_text(&stack[n - 1], '/', 1) {
            } else if !is_text(&stack[n - 1], '.', 2) {
                let top = stack.pop();
                assert(keys_of(stack@) =~= before.drop_last());
            } else {
                let copy = crate::path::copy_range(c, 0, c.len());
                assert(copy@ =~= c@);
                stack.push(copy);
                assert(keys_of(stack@) =~= before.push(c@));
            }
        } else {
            let copy = crate::path::copy_range(c, 0, c.len());
            assert(copy@ =~= c@);
            stack.push(copy);
            assert(keys_of(stack@) =~= before.push(c@));
        }
        i = i + 1;
        proof {
            assert(k.take(i as int).drop_last() =~= k.take(i - 1));
            assert(k.take(i as int).last() == k[i - 1]);
            assert(keys_of(stack@) == step(before, c@));
        }
    }
    assert(k.take(i as int) =~= k);
    let r = push_components(FilePath::new(""), &stack, 0);
    proof {
        reveal_strlit("");
        assert(""@ =~= Seq::empty());
        lemma_pushed_empty(keys_of(stack@));
        assert(keys_of(stack@).skip(0) =~= keys_of(stack@));
    }
    r
}

/// Whether the component is `n` times the character `c`.
pub fn is_text(part: &Vec<char>, c: char, n: usize) -> (r: bool)
    requires
        n == 1 || n == 2,
    ensures
        r == (part@ == Seq::new(n as nat, |i: int| c)),
        c == '.' && n == 1 ==> r == (part@ == dot()),
        c == '.' && n == 2 ==> r == (part@ == dot_dot()),
        c == '/' && n == 1 ==> r == (part@ == slash()),
{
    let r = part.len() == n && part[0] == c && (n == 1 || part[1] == c);
    proof {
        let all = Seq::new(n as nat, |i: int| c);
        if r {
            assert(part@ =~= all);
        } else if part@.len() == n {
            assert(all[0] == c && (n == 2 ==> all[1] == c));
        }
        assert(c == '.' && n == 1 ==> all =~= dot());
        assert(c == '.' && n == 2 ==> all =~= dot_dot());
        assert(c == '/' && n == 1 ==> all =~= slash());
    }
    r
}

/// Makes the target of a link absolute, from the directory of the link and by
/// the text alone: after a move the target may be gone.
pub fn resolve_link_target(link_path: &FilePath, target: &FilePath) -> (r: FilePath)
    ensures
        r@ == resolved_text(link_path@, target@),
{
    let joined = if target.is_absolute() {
        target.clone()
    } else {
        let dir = match link_path.parent() {
            Some(parent) => parent,
            None => link_path.clone(),
        };
        dir.join(target.as_str())
    };
    lexically_normalize(&joined)
}

/// The other way round: `target` as it is written from the directory of
/// `link_path`, by the text alone.
pub fn relative_target(link_path: &FilePath, target: &FilePath) -> (r: FilePath)
    ensures
        r@ == path_text(relative(components(link_dir(link_path@)), target.key())),
{
    let dir = match link_path.parent() {
        Some(parent) => parent,
        None => link_path.clone(),
    };
    let here = dir.components();
    let there = target.components();
    let ghost a = dir.key();
    let ghost b = target.key();
    let mut n: usize = 0;
    assert(a.skip(0) =~= a);
    assert(b.skip(0) =~= b);
    while n < here.len() && n < there.len() && same_chars(&here[n], &there[n])
        invariant
            a == dir.key(),
            b == target.key(),
            here@.len() == a.len(),
            there@.len() == b.len(),
            forall|x: int| 0 <= x < here@.len() ==> (#[trigger] here@[x])@ == a[x],
            forall|x: int| 0 <= x < there@.len() ==> (#[trigger] there@[x])@ == b[x],
            n <= here@.len(),
            n <= there@.len(),
            common(a, b) == n + common(a.skip(n as int), b.skip(n as int)),
        ensures
            common(a, b) == n,
            n <= here@.len(),
            n <= there@.len(),
        decreases here@.len() - n,
    {
        proof {
            assert(a.skip(n as int).drop_first() =~= a.skip(n + 1));
            assert(b.skip(n as int).drop_first() =~= b.skip(n + 1));
            assert(a.skip(n as int)[0] == b.skip(n as int)[0]);
        }
        n = n + 1;
    }
    let mut r = FilePath::new("");
    let mut i: usize = n;
    proof {
        reveal_strlit("");
        assert(""@ =~= Seq::empty());
        assert(ups(0) =~= Seq::empty());
    }
    while i < here.len()
        invariant
            n <= i <= here@.len(),
            r@ == pushed(Seq::empty(), ups((i - n) as nat)),
        decreases here@.len() - i,
    {
        r = r.join("..");
        i = i + 1;
        proof {
            reveal_strlit("..");
            assert(".."@ =~= dot_dot());
            assert(ups((i - n) as nat).drop_last() =~= ups((i - 1 - n) as nat));
            assert(ups((i - n) as nat).last() == dot_dot());
        }
    }
    let r = push_components(r, &there, n);
    proof {
        assert(keys_of(there@) =~= b);
        lemma_pushed_concat(Seq::empty(), ups((a.len() - n) as nat), b.skip(n as int));
        lemma_pushed_empty(relative(a, b));
    }
    r
}

/// Every component can be appended to a path.
pub open spec fn all_plain(k: Key) -> bool {
    forall|i: int| 0 <= i < k.len() ==> is_plain(#[trigger] k[i])
}

/// No component goes up.
pub open spec fn never_up(k: Key) -> bool {
    forall|i: int| 0 <= i < k.len() ==> #[trigger] k[i] != dot_dot()
}

proof fn lemma_pushed_components(start: Seq<char>, k: Key)
    requires
        all_plain(k),
    ensures
        components(pushed(start, k)) == components(start) + k,
    decreases k.len(),
{
    if k.len() == 0 {
        assert(components(start) + k =~= components(start));
    } else {
        let init = k.drop_last();
        assert forall|i: int| 0 <= i < init.len() implies is_plain(#[trigger] init[i]) by {
            assert(init[i] == k[i]);
        }
        lemma_pushed_components(start, init);
        lemma_components_join_name(pushed(start, init), k.last());
        assert((components(start) + init).push(k.last()) =~= components(start) + k);
    }
}

pub(crate) proof fn lemma_path_text_plain(k: Key)
    requires
        all_plain(k),
    ensures
        k.len() > 0 ==> path_text(k).len() > 0 && path_text(k)[0] != '/' && path_text(k).last()
            != '/',
    decreases k.len(),
{
    if k.len() > 0 {
        let init = k.drop_last();
        let c = k.last();
        assert(is_plain(k[k.len() - 1]));
        assert(c.contains(c[0]));
        assert(c.contains(c.last()));
        assert forall|i: int| 0 <= i < init.len() implies is_plain(#[trigger] init[i]) by {
            assert(init[i] == k[i]);
        }
        lemma_path_text_plain(init);
        let t = path_text(init);
        assert(path_text(k) == join_text(t, c));
        if init.len() == 0 {
            assert(t + c =~= c);
        } else {
            assert((t.push('/') + c).last() == c.last());
            assert((t.push('/') + c)[0] == t[0]);
        }
    }
}

/// Joining a path and joining its components one by one is the same.
proof fn lemma_join_is_pushed(d: Seq<char>, k: Key)
    requires
        all_plain(k),
        k.len() > 0,
        d.len() > 0,
    ensures
        join_text(d, path_text(k)) == pushed(d, k),
    decreases k.len(),
{
    let init = k.drop_last();
    let c = k.last();
    assert(is_plain(k[k.len() - 1]));
    assert(c.contains(c[0]));
    assert forall|i: int| 0 <= i < init.len() implies is_plain(#[trigger] init[i]) by {
        assert(init[i] == k[i]);
    }
    lemma_path_text_plain(init);
    lemma_path_text_plain(k);
    if init.len() == 0 {
        assert(path_text(k) =~= c);
        assert(pushed(d, init) == d);
    } else {
        lemma_join_is_pushed(d, init);
        let t = path_text(init);
        assert(path_text(k) == t.push('/') + c);
        assert(join_text(d, path_text(k)) =~= join_text(d, t).push('/') + c);
        assert(join_text(d, t).last() == t.last());
    }
}

/// A path that never goes up is as short as it gets.
proof fn lemma_normalized_plain(k: Key, j: Key)
    requires
        never_up(j),
        all_plain(j),
    ensures
        normalized(k + j) == normalized(k) + j,
    decreases j.len(),
{
    if j.len() == 0 {
        assert(k + j =~= k);
        assert(normalized(k) + j =~= normalized(k));
    } else {
        let init = j.drop_last();
        assert forall|i: int| 0 <= i < init.len() implies is_plain(#[trigger] init[i]) by {
            assert(init[i] == j[i]);
        }
        assert forall|i: int| 0 <= i < init.len() implies #[trigger] init[i] != dot_dot() by {
            assert(init[i] == j[i]);
        }
        lemma_normalized_plain(k, init);
        assert((k + j).drop_last() =~= k + init);
        assert((k + j).last() == j.last());
        assert(is_plain(j[j.len() - 1]) && j[j.len() - 1] != dot_dot());
        assert((normalized(k) + init).push(j.last()) =~= normalized(k) + j);
    }
}

/// Going up takes the last components away.
proof fn lemma_normalized_ups(k: Key, n: nat)
    requires
        never_up(k),
        n < k.len(),
        forall|i: int| 0 < i < k.len() ==> #[trigger] k[i] != slash(),
        normalized(k) == k,
    ensures
        normalized(k + ups(n)) == k.take(k.len() - n),
    decreases n,
{
    if n == 0 {
        assert(k + ups(0) =~= k);
        assert(k.take(k.len() as int) =~= k);
    } else {
        let m = (n - 1) as nat;
        lemma_normalized_ups(k, m);
        assert((k + ups(n)).drop_last() =~= k + ups(m));
        assert((k + ups(n)).last() == dot_dot());
        let t = k.take(k.len() - m);
        assert(t.last() == k[k.len() - m - 1]);
        assert(dot_dot()[0] == '.' && slash()[0] == '/' && dot()[0] == '.');
        assert(dot_dot().len() == 2 && dot().len() == 1);
        assert(t.drop_last() =~= k.take(k.len() - n));
    }
}

pub(crate) proof fn lemma_common(a: Key, b: Key)
    ensures
        common(a, b) <= a.len(),
        common(a, b) <= b.len(),
        a.take(common(a, b) as int) == b.take(common(a, b) as int),
        a.len() > 0 && b.len() > 0 && a[0] == b[0] ==> common(a, b) > 0,
    decreases a.len(),
{
    if a.len() == 0 || b.len() == 0 || a[0] != b[0] {
        assert(a.take(0) =~= b.take(0));
    } else {
        let n = common(a.drop_first(), b.drop_first());
        lemma_common(a.drop_first(), b.drop_first());
        assert(a.take(n as int + 1) =~= seq![a[0]] + a.drop_first().take(n as int));
        assert(b.take(n as int + 1) =~= seq![b[0]] + b.drop_first().take(n as int));
    }
}

/// The components of an absolute path: the root, and plain ones behind it.
proof fn lemma_absolute(s: Seq<char>)
    requires
        s.len() > 0,
        s[0] == '/',
    ensures
        components(s).len() > 0,
        components(s)[0] == slash(),
        all_plain(components(s).drop_first()),
        forall|i: int| 0 < i < components(s).len() ==> #[trigger] components(s)[i] != slash(),
{
    let k = components(s);
    lemma_components_plain(s, 0);
    assert(slash()[0] == '/');
    assert forall|i: int| 0 < i < k.len() implies #[trigger] k[i] != slash() by {
        lemma_components_plain(s, i);
        if k[i] == slash() {
            assert(k[i].contains('/'));
        }
    }
    assert forall|i: int| 0 <= i < k.drop_first().len() implies is_plain(
        #[trigger] k.drop_first()[i],
    ) by {
        lemma_components_plain(s, i + 1);
    }
}

/// One more component adds at most one to what is in common.
proof fn lemma_common_push(a: Key, b: Key, c: Seq<char>)
    ensures
        common(a, b) <= common(a, b.push(c)) <= common(a, b) + 1,
    decreases a.len(),
{
    if a.len() > 0 && b.len() > 0 && a[0] == b[0] {
        lemma_common_push(a.drop_first(), b.drop_first(), c);
        assert(b.push(c).drop_first() =~= b.drop_first().push(c));
    } else if a.len() > 0 && b.len() == 0 {
        assert(b.push(c).drop_first() =~= Seq::empty());
        assert(common(a.drop_first(), b.push(c).drop_first()) == 0);
    } else if a.len() > 0 && b.len() > 0 {
        assert(b.push(c)[0] == b[0]);
    }
}

proof fn lemma_common_self(a: Key)
    ensures
        common(a, a) == a.len(),
    decreases a.len(),
{
    if a.len() > 0 {
        lemma_common_self(a.drop_first());
    }
}

/// No other way to write a target from a directory is shorter: whatever components
/// lead from there to the target are at least as many.
pub proof fn law_relative_target_is_shortest(dir: Key, target: Key, way: Key)
    requires
        normalized(dir) == dir,
        normalized(dir + way) == target,
    ensures
        relative(dir, target).len() <= way.len(),
    decreases way.len(),
{
    lemma_common(dir, target);
    if way.len() == 0 {
        assert(dir + way =~= dir);
        lemma_common_self(dir);
    } else {
        let before = way.drop_last();
        let s = normalized(dir + before);
        assert((dir + way).drop_last() =~= dir + before);
        assert((dir + way).last() == way.last());
        law_relative_target_is_shortest(dir, s, before);
        lemma_common(dir, s);
        assert(target == step(s, way.last()));
        if target.len() < s.len() {
            assert(s =~= target.push(s.last()));
            lemma_common_push(dir, target, s.last());
        } else if target.len() > s.len() {
            lemma_common_push(dir, s, way.last());
        }
    }
}

/// Writing a target down from a link's directory and resolving it from there
/// gives the target back, where neither path goes up on its way.
pub proof fn law_relative_target_resolves(link: Seq<char>, target: Seq<char>)
    requires
        link.len() > 0 && link[0] == '/',
        target.len() > 0 && target[0] == '/',
        never_up(components(link_dir(link))),
        never_up(components(target)),
    ensures
        components(
            resolved_text(
                link,
                path_text(relative(components(link_dir(link)), components(target))),
            ),
        ) == components(target),
{
    let dir = link_dir(link);
    let a = components(dir);
    let b = components(target);
    lemma_absolute(target);
    lemma_absolute(link);
    lemma_link_dir(link);
    lemma_absolute(dir);
    lemma_common(a, b);
    let n = common(a, b) as int;
    let m = (a.len() - n) as nat;
    let r = relative(a, b);
    let rest = b.skip(n);
    assert(all_plain(rest)) by {
        assert forall|i: int| 0 <= i < rest.len() implies is_plain(#[trigger] rest[i]) by {
            assert(rest[i] == b.drop_first()[n + i - 1]);
        }
    }
    assert(all_plain(r)) by {
        assert(dot_dot()[0] == '.' && dot_dot()[1] == '.' && dot_dot().len() == 2);
        assert(dot().len() == 1);
        assert forall|i: int| 0 <= i < r.len() implies is_plain(#[trigger] r[i]) by {
            if i < m {
                assert(r[i] == dot_dot());
                assert(!dot_dot().contains('/'));
            } else {
                assert(r[i] == rest[i - m]);
            }
        }
    }
    let rel = path_text(r);
    lemma_path_text_plain(r);
    let joined = join_text(dir, rel);
    if r.len() == 0 {
        assert(rel =~= Seq::empty());
        lemma_components_join(dir, rel);
        crate::path::lemma_tail_empty();
        assert(components(joined) =~= a + r);
    } else {
        lemma_join_is_pushed(dir, r);
        lemma_pushed_components(dir, r);
    }
    assert(components(joined) == a + r);
    // The directory itself has nothing to take out.
    let root = seq![slash()];
    assert(a =~= root + a.drop_first());
    assert(normalized(root) =~= root) by {
        assert(root.drop_last() =~= Seq::empty());
        assert(slash()[0] == '/' && dot()[0] == '.' && dot_dot()[0] == '.');
        assert(normalized(root) == step(normalized(root.drop_last()), slash()));
        assert(Seq::<Seq<char>>::empty().push(slash()) =~= root);
    }
    assert(never_up(a.drop_first())) by {
        assert forall|i: int| 0 <= i < a.drop_first().len() implies #[trigger] a.drop_first()[i]
            != dot_dot() by {
            assert(a.drop_first()[i] == a[i + 1]);
        }
    }
    lemma_normalized_plain(root, a.drop_first());
    assert(normalized(a) == a);
    lemma_normalized_ups(a, m);
    assert(never_up(rest)) by {
        assert forall|i: int| 0 <= i < rest.len() implies #[trigger] rest[i] != dot_dot() by {
            assert(rest[i] == b[n + i]);
        }
    }
    lemma_normalized_plain(a + ups(m), rest);
    assert(a + r =~= (a + ups(m)) + rest);
    assert(a.take(n) + rest =~= b);
    assert(normalized(components(joined)) == b);
    lemma_rooted(b);
}

/// The components of an absolute path that has nothing to take out.
pub open spec fn rooted(k: Key) -> bool {
    k.len() > 0 && k[0] == slash() && all_plain(k.drop_first()) && never_up(k)
}

/// A path with nothing to take out stays as it is, and its text has its
/// components.
proof fn lemma_rooted(k: Key)
    requires
        rooted(k),
    ensures
        normalized(k) == k,
        components(path_text(k)) == k,
        path_text(k).len() > 0 && path_text(k)[0] == '/',
{
    let root = seq![slash()];
    let rest = k.drop_first();
    assert(k =~= root + rest);
    assert(slash()[0] == '/' && dot()[0] == '.' && dot_dot()[0] == '.');
    assert(root.drop_last() =~= Seq::empty());
    assert(normalized(root) =~= root) by {
        assert(normalized(root) == step(normalized(root.drop_last()), slash()));
        assert(Seq::<Seq<char>>::empty().push(slash()) =~= root);
    }
    assert(never_up(rest)) by {
        assert forall|i: int| 0 <= i < rest.len() implies #[trigger] rest[i] != dot_dot() by {
            assert(rest[i] == k[i + 1]);
        }
    }
    lemma_normalized_plain(root, rest);
    lemma_pushed_empty(k);
    lemma_pushed_concat(Seq::empty(), root, rest);
    assert(pushed(Seq::empty(), root) =~= slash());
    crate::path::lemma_components_root();
    lemma_pushed_components(slash(), rest);
    lemma_components_plain(path_text(k), 0);
    if path_text(k).len() == 0 {
        assert(path_text(k) =~= Seq::empty());
    }
}

/// Taking everything out of an absolute path leaves nothing to take out.
proof fn lemma_normalized_rooted(k: Key)
    requires
        k.len() > 0,
        k[0] == slash(),
        all_plain(k.drop_first()),
    ensures
        rooted(normalized(k)),
    decreases k.len(),
{
    assert(slash()[0] == '/' && dot()[0] == '.' && dot_dot()[0] == '.');
    assert(dot_dot().len() == 2 && dot().len() == 1);
    let init = k.drop_last();
    let c = k.last();
    if init.len() == 0 {
        assert(normalized(k) == step(normalized(init), c));
        assert(normalized(k) =~= seq![slash()]);
        assert(normalized(k).drop_first() =~= Seq::empty());
    } else {
        assert forall|i: int| 0 <= i < init.drop_first().len() implies is_plain(
            #[trigger] init.drop_first()[i],
        ) by {
            assert(init.drop_first()[i] == k.drop_first()[i]);
        }
        lemma_normalized_rooted(init);
        let s = normalized(init);
        assert(is_plain(k.drop_first()[k.len() - 2]));
        assert(c == k.drop_first()[k.len() - 2]);
        let n = normalized(k);
        assert(n == step(s, c));
        assert forall|i: int| 0 <= i < n.drop_first().len() implies is_plain(
            #[trigger] n.drop_first()[i],
        ) by {
            if i < s.drop_first().len() {
                assert(n.drop_first()[i] == s.drop_first()[i]);
            }
        }
        assert forall|i: int| 0 <= i < n.len() implies #[trigger] n[i] != dot_dot() by {
            if i < s.len() {
                assert(n[i] == s[i]);
            }
        }
        if s.len() == 1 {
            assert(s.last() == slash());
        }
    }
}

/// Once the target of a link in an absolute place is resolved, it leads to the
/// same place from wherever it is read.
pub proof fn law_resolved_target_is_final(link: Seq<char>, target: Seq<char>, place: Seq<char>)
    requires
        link.len() > 0 && link[0] == '/',
    ensures
        absolute(resolved_text(link, target)),
        resolved_text(place, resolved_text(link, target)) == resolved_text(link, target),
{
    let joined = if target.len() > 0 && target[0] == '/' {
        target
    } else {
        join_text(link_dir(link), target)
    };
    lemma_link_dir(link);
    lemma_absolute(joined);
    lemma_normalized_rooted(components(joined));
    lemma_rooted(normalized(components(joined)));
}

/// An absolute target that never goes up is what it resolves to.
pub proof fn lemma_resolved_plain(place: Seq<char>, target: Seq<char>)
    requires
        target.len() > 0 && target[0] == '/',
        never_up(components(target)),
    ensures
        components(resolved_text(place, target)) == components(target),
{
    lemma_absolute(target);
    lemma_rooted(components(target));
}

/// The directory of an absolute link is absolute.
pub(crate) proof fn lemma_link_dir(link: Seq<char>)
    requires
        link.len() > 0 && link[0] == '/',
    ensures
        link_dir(link).len() > 0 && link_dir(link)[0] == '/',
{
    if has_parent(components(link)) {
        crate::path::lemma_parent_text(link);
    }
}

/// Whether there is a list of project paths that cannot be read.
pub open spec fn list_unreadable(v: FsView, path: Option<FilePath>) -> bool {
    path matches Some(p) && v.present.contains(p.key()) && (v.text(p.key()) is None || parsed(
        v.text(p.key())->0,
    ) is None)
}

/// `e` reports the list at `path` that cannot be read.
pub open spec fn is_list_error(e: Error, v: FsView, path: Option<FilePath>) -> bool {
    &&& list_unreadable(v, path)
    &&& e matches Error::Context(what, cause) && what@ == "reading project list from "@ + path->0@
        && (if v.text(path->0.key()) is None {
        *cause is Fs
    } else {
        *cause is Json
    })
}

/// The project paths that the registry file at `path` registers.
pub open spec fn registered(v: FsView, path: Option<FilePath>) -> Seq<Seq<char>> {
    match path {
        Some(p) => if v.present.contains(p.key()) {
            match projects(parsed(v.text(p.key())->0)->0) {
                Some(m) => key_list(m),
                None => Seq::empty(),
            }
        } else {
            Seq::empty()
        },
        None => Seq::empty(),
    }
}

/// Every project path that `claude_json` registers. Without the file there are
/// none; a file that cannot be read is an error, for a search that looks
/// nowhere would report success.
fn project_paths<F: Fs>(fs: &F, claude_json: &Option<FilePath>) -> (r: Result<Vec<FilePath>, Error>)
    ensures
        match r {
            Ok(paths) => !list_unreadable(fs.view(), *claude_json) && texts(paths@) == registered(
                fs.view(),
                *claude_json,
            ),
            Err(e) => is_list_error(e, fs.view(), *claude_json),
        },
{
    let mut paths: Vec<FilePath> = Vec::new();
    assert(texts(paths@) =~= Seq::empty());
    let path = match claude_json {
        Some(path) => path,
        None => {
            return Ok(paths);
        },
    };
    if !fs.path_exists(path) {
        return Ok(paths);
    }
    let mut what = "reading project list from ".to_owned();
    what.append(path.as_str());
    let content = match fs.read_to_string(path) {
        Ok(content) => content,
        Err(e) => {
            return Err(Error::Context(what, Box::new(Error::Fs(e))));
        },
    };
    let root = match parse_json(content.as_str()) {
        Ok(root) => root,
        Err(message) => {
            return Err(Error::Context(what, Box::new(Error::Json(message))));
        },
    };
    let keys = match project_keys(&root) {
        Some(keys) => keys,
        None => {
            return Ok(paths);
        },
    };
    let mut i: usize = 0;
    while i < keys.len()
        invariant
            i <= keys@.len(),
            paths@.len() == i,
            forall|x: int| 0 <= x < i ==> (#[trigger] paths@[x])@ == keys@[x]@,
        decreases keys@.len() - i,
    {
        paths.push(FilePath::new(keys[i].as_str()));
        i = i + 1;
    }
    proof {
        lemma_lists_keys(keys@, projects(root)->0);
        assert(texts(paths@) =~= keys@.map_values(|k: String| k@));
    }
    Ok(paths)
}

/// The order of paths by their components.
pub open spec fn by_path() -> spec_fn(Seq<char>, Seq<char>) -> bool {
    |a: Seq<char>, b: Seq<char>| key_lt(components(a), components(b))
}

/// The local directories of the registered projects, then the directories that
/// were named.
pub open spec fn offered(
    list: Seq<Seq<char>>,
    explicit: Seq<Seq<char>>,
    local: Seq<char>,
) -> Seq<Seq<char>> {
    list.map_values(|p: Seq<char>| join_text(p, local)) + explicit
}

/// Those of the paths where something is.
pub open spec fn there(v: FsView, list: Seq<Seq<char>>) -> Seq<Seq<char>> {
    list.filter(|t: Seq<char>| v.present.contains(components(t)))
}

/// Whether path `i` stays in the list: it lies below no other, and is the
/// first that names its place.
pub open spec fn outermost(list: Seq<Seq<char>>, i: int) -> bool {
    forall|j: int|
        0 <= j < list.len() && j != i && under(components(list[i]), components(#[trigger] list[j]))
            ==> components(list[i]) == components(list[j]) && i < j
}

/// Those of the first `n` paths that stay in the list.
pub open spec fn outermost_of(list: Seq<Seq<char>>, n: int) -> Seq<Seq<char>>
    decreases n,
{
    if n <= 0 {
        Seq::empty()
    } else if outermost(list, n - 1) {
        outermost_of(list, n - 1).push(list[n - 1])
    } else {
        outermost_of(list, n - 1)
    }
}

/// The directories to search: those offered that are there, in order, without
/// any that lies below another.
pub open spec fn roots(
    v: FsView,
    claude_json: Option<FilePath>,
    explicit: Seq<Seq<char>>,
    local: Seq<char>,
) -> Seq<Seq<char>> {
    let list = sorted(there(v, offered(registered(v, claude_json), explicit, local)), by_path());
    outermost_of(list, list.len() as int)
}

/// Appends those of `list` where something is.
fn push_present<F: Fs>(fs: &F, list: Vec<FilePath>, out: &mut Vec<FilePath>)
    ensures
        texts(final(out)@) == texts(old(out)@) + there(fs.view(), texts(list@)),
{
    let ghost v = fs.view();
    let ghost f = |t: Seq<char>| v.present.contains(components(t));
    let ghost all = texts(list@);
    let mut i: usize = 0;
    proof {
        assert(all.take(0) =~= Seq::empty());
        reveal(Seq::filter);
        assert(texts(out@) =~= texts(old(out)@) + all.take(0).filter(f));
    }
    while i < list.len()
        invariant
            v == fs.view(),
            f == (|t: Seq<char>| v.present.contains(components(t))),
            all == texts(list@),
            all.len() == list@.len(),
            i <= list@.len(),
            texts(out@) == texts(old(out)@) + all.take(i as int).filter(f),
        decreases list@.len() - i,
    {
        let ghost before = out@;
        let found = fs.path_exists(&list[i]);
        if found {
            out.push(list[i].clone());
        }
        i = i + 1;
        proof {
            reveal(Seq::filter);
            assert(all.take(i as int).drop_last() =~= all.take(i - 1));
            assert(all.take(i as int).last() == list@[i - 1]@);
            if found {
                assert(texts(before.push(list@[i - 1])) =~= texts(before).push(list@[i - 1]@));
            }
            assert(texts(out@) =~= texts(old(out)@) + all.take(i as int).filter(f));
        }
    }
    assert(all.take(i as int) =~= all);
}

/// Whether path `i` stays in the list.
fn is_outermost(list: &Vec<FilePath>, i: usize) -> (r: bool)
    requires
        i < list@.len(),
    ensures
        r == outermost(texts(list@), i as int),
{
    let ghost all = texts(list@);
    let mut j: usize = 0;
    while j < list.len()
        invariant
            all == texts(list@),
            all.len() == list@.len(),
            i < list@.len(),
            j <= list@.len(),
            forall|x: int|
                0 <= x < j && x != i && under(components(all[i as int]), components(#[trigger] all[x]))
                    ==> components(all[i as int]) == components(all[x]) && i < x,
        decreases list@.len() - j,
    {
        assert(all[j as int] == list@[j as int]@);
        assert(all[i as int] == list@[i as int]@);
        if j != i && list[i].starts_with(&list[j]) && !(list[i].same(&list[j]) && i < j) {
            return false;
        }
        j = j + 1;
    }
    true
}

/// The directories to search for links: the local directory of every
/// registered project, and every directory that was named. What is not there is
/// left out, and so is what lies below another: their trees share nothing.
pub fn scan_roots<F: Fs>(
    fs: &F,
    claude_json: &Option<FilePath>,
    explicit_roots: &Vec<FilePath>,
    local_dir: &str,
) -> (r: Result<Vec<FilePath>, Error>)
    ensures
        match r {
            Ok(found) => {
                &&& !list_unreadable(fs.view(), *claude_json)
                &&& texts(found@) == roots(
                    fs.view(),
                    *claude_json,
                    texts(explicit_roots@),
                    local_dir@,
                )
            },
            Err(e) => is_list_error(e, fs.view(), *claude_json),
        },
{
    let projects = match project_paths(fs, claude_json) {
        Ok(projects) => projects,
        Err(e) => {
            return Err(e);
        },
    };
    let ghost v = fs.view();
    let ghost list = registered(v, *claude_json);
    let ghost explicit = texts(explicit_roots@);
    let ghost local = local_dir@;
    let mut offers: Vec<FilePath> = Vec::new();
    let mut i: usize = 0;
    while i < projects.len()
        invariant
            i <= projects@.len(),
            offers@.len() == i,
            forall|x: int|
                0 <= x < i ==> (#[trigger] offers@[x])@ == join_text(projects@[x]@, local_dir@),
        decreases projects@.len() - i,
    {
        offers.push(projects[i].join(local_dir));
        i = i + 1;
    }
    let count: usize = offers.len();
    i = 0;
    while i < explicit_roots.len()
        invariant
            i <= explicit_roots@.len(),
            count == projects@.len(),
            offers@.len() == count + i,
            forall|x: int|
                0 <= x < count ==> (#[trigger] offers@[x])@ == join_text(
                    projects@[x]@,
                    local_dir@,
                ),
            forall|x: int|
                count <= x < count + i ==> (#[trigger] offers@[x])@ == explicit_roots@[x - count]@,
        decreases explicit_roots@.len() - i,
    {
        offers.push(explicit_roots[i].clone());
        i = i + 1;
    }
    proof {
        assert(texts(offers@) =~= offered(list, explicit, local)) by {
            assert(list.len() == projects@.len());
            assert forall|x: int| 0 <= x < offers@.len() implies texts(offers@)[x]
                == #[trigger] offered(list, explicit, local)[x] by {
                assert(texts(offers@)[x] == offers@[x]@);
                if x < count {
                    assert(list[x] == projects@[x]@);
                }
            }
        }
    }
    let mut present: Vec<FilePath> = Vec::new();
    assert(texts(present@) =~= Seq::empty());
    push_present(fs, offers, &mut present);
    assert(texts(present@) =~= there(v, offered(list, explicit, local)));
    let ghost lt = |a: FilePath, b: FilePath| key_lt(a.key(), b.key());
    let before = |a: &FilePath, b: &FilePath| -> (r: bool)
        ensures
            r == lt(*a, *b),
        { path_before(a, b) };
    let ghost unsorted = present@;
    let ordered = stable_sort(present, before, Ghost(lt));
    let ghost all = texts(ordered@);
    proof {
        crate::order::lemma_sorted_map(unsorted, |p: FilePath| p@, lt, by_path());
        assert(all == sorted(there(v, offered(list, explicit, local)), by_path()));
    }
    let mut found: Vec<FilePath> = Vec::new();
    i = 0;
    assert(texts(found@) =~= outermost_of(all, 0));
    while i < ordered.len()
        invariant
            all == texts(ordered@),
            all.len() == ordered@.len(),
            i <= ordered@.len(),
            texts(found@) == outermost_of(all, i as int),
        decreases ordered@.len() - i,
    {
        if is_outermost(&ordered, i) {
            let ghost before = found@;
            found.push(ordered[i].clone());
            assert(texts(found@) =~= texts(before).push(all[i as int]));
        }
        i = i + 1;
    }
    Ok(found)
}

/// Every one of the outermost is one of the list, and stays in it.
pub(crate) proof fn lemma_outermost_of(list: Seq<Seq<char>>, n: int, x: int) -> (i: int)
    requires
        0 <= n <= list.len(),
        0 <= x < outermost_of(list, n).len(),
    ensures
        0 <= i < n,
        outermost_of(list, n)[x] == list[i],
        outermost(list, i),
        x >= outermost_of(list, i).len(),
        x < outermost_of(list, i + 1).len(),
    decreases n,
{
    if outermost(list, n - 1) && x == outermost_of(list, n - 1).len() {
        n - 1
    } else {
        lemma_outermost_of(list, n - 1, x)
    }
}

/// Every path of the list lies at or below an outermost one.
proof fn lemma_covered(list: Seq<Seq<char>>, i: int) -> (j: int)
    requires
        0 <= i < list.len(),
    ensures
        0 <= j < list.len(),
        outermost(list, j),
        under(components(list[i]), components(list[j])),
    decreases components(list[i]).len(), i,
{
    let k = components(list[i]);
    if outermost(list, i) {
        assert(k.subrange(0, k.len() as int) =~= k);
        i
    } else {
        let x = choose|x: int|
            0 <= x < list.len() && x != i && under(k, components(#[trigger] list[x])) && !(k
                == components(list[x]) && i < x);
        let c = components(list[x]);
        if c.len() == k.len() {
            assert(c =~= k);
        }
        let j = lemma_covered(list, x);
        let d = components(list[j]);
        assert(k.subrange(0, d.len() as int) =~= d);
        j
    }
}

proof fn lemma_kept(list: Seq<Seq<char>>, n: int, i: int) -> (x: int)
    requires
        0 <= i < n <= list.len(),
        outermost(list, i),
    ensures
        0 <= x < outermost_of(list, n).len(),
        outermost_of(list, n)[x] == list[i],
    decreases n,
{
    if i == n - 1 {
        outermost_of(list, n - 1).len() as int
    } else {
        lemma_kept(list, n - 1, i)
    }
}

/// The trees of two different roots share nothing: no root is another or lies
/// below it.
pub proof fn law_roots_are_apart(
    v: FsView,
    claude_json: Option<FilePath>,
    explicit: Seq<Seq<char>>,
    local: Seq<char>,
    x: int,
    y: int,
)
    requires
        0 <= x < roots(v, claude_json, explicit, local).len(),
        0 <= y < roots(v, claude_json, explicit, local).len(),
        x != y,
    ensures
        apart(
            components(roots(v, claude_json, explicit, local)[x]),
            components(roots(v, claude_json, explicit, local)[y]),
        ),
{
    let list = sorted(there(v, offered(registered(v, claude_json), explicit, local)), by_path());
    let i = lemma_outermost_of(list, list.len() as int, x);
    let j = lemma_outermost_of(list, list.len() as int, y);
    if i == j {
        assert(outermost_of(list, i + 1).len() <= outermost_of(list, i).len() + 1);
    }
    let a = components(list[i]);
    let b = components(list[j]);
    if a == b {
        assert(a.subrange(0, a.len() as int) =~= a);
    }
}

/// Leaving nested roots out loses nothing: whatever was offered and is there
/// lies at or below a root.
pub proof fn law_roots_cover(
    v: FsView,
    claude_json: Option<FilePath>,
    explicit: Seq<Seq<char>>,
    local: Seq<char>,
    root: Seq<char>,
)
    requires
        offered(registered(v, claude_json), explicit, local).contains(root),
        v.present.contains(components(root)),
    ensures
        exists|x: int|
            0 <= x < roots(v, claude_json, explicit, local).len() && under(
                components(root),
                components(#[trigger] roots(v, claude_json, explicit, local)[x]),
            ),
{
    broadcast use vstd::seq_lib::group_to_multiset_ensures;

    let all = offered(registered(v, claude_json), explicit, local);
    let f = |t: Seq<char>| v.present.contains(components(t));
    let at = choose|i: int| 0 <= i < all.len() && all[i] == root;
    all.lemma_filter_contains(f, at);
    let here = there(v, all);
    assert(here.contains(root));
    let list = sorted(here, by_path());
    lemma_sorted(here, by_path());
    assert(here.to_multiset().contains(root));
    assert(list.to_multiset().contains(root));
    assert(list.contains(root));
    let i = choose|i: int| 0 <= i < list.len() && list[i] == root;
    let j = lemma_covered(list, i);
    let x = lemma_kept(list, list.len() as int, j);
    assert(roots(v, claude_json, explicit, local)[x] == list[j]);
}

/// What lies in the trees of the roots, one tree after the other. A tree that
/// cannot be searched counts as empty.
pub open spec fn walked(v: FsView, list: Seq<Seq<char>>) -> Seq<Seq<char>>
    decreases list.len(),
{
    if list.len() == 0 {
        Seq::empty()
    } else {
        walked(v, list.drop_last()) + (if v.tree.contains_key(list.last()) {
            v.tree[list.last()]
        } else {
            Seq::empty()
        })
    }
}

/// Every path found in the trees of the roots.
pub fn walk_scan_roots<F: Fs>(fs: &F, roots: &Vec<FilePath>) -> (r: Vec<FilePath>)
    ensures
        texts(r@) == walked(fs.view(), texts(roots@)),
{
    let ghost v = fs.view();
    let ghost all = texts(roots@);
    let mut r: Vec<FilePath> = Vec::new();
    let mut i: usize = 0;
    assert(all.take(0) =~= Seq::empty());
    assert(texts(r@) =~= walked(v, all.take(0)));
    while i < roots.len()
        invariant
            v == fs.view(),
            all == texts(roots@),
            all.len() == roots@.len(),
            i <= roots@.len(),
            texts(r@) == walked(v, all.take(i as int)),
        decreases roots@.len() - i,
    {
        let ghost before = r@;
        if let Ok(mut entries) = fs.list_dir_recursive(&roots[i]) {
            let ghost more = entries@;
            r.append(&mut entries);
            assert(texts(r@) =~= texts(before) + texts(more));
        }
        i = i + 1;
        proof {
            assert(all.take(i as int).drop_last() =~= all.take(i - 1));
            assert(all.take(i as int).last() == roots@[i - 1]@);
            assert(texts(r@) =~= walked(v, all.take(i as int)));
        }
    }
    assert(all.take(i as int) =~= all);
    r
}

/// A link whose target lies in a moving project.
#[derive(Debug)]
pub struct LinkCandidate {
    pub path: FilePath,
    /// Where the link leads before the move, always absolute where the link is.
    pub resolved_target: FilePath,
    /// Where it leads after the move.
    pub new_target: FilePath,
    pub is_relative: bool,
    /// Whether there was anything at the target before the move.
    pub alive: bool,
}

/// Whether the text is an absolute path.
pub open spec fn absolute(t: Seq<char>) -> bool {
    t.len() > 0 && t[0] == '/'
}

/// Whether the link at `link` is to be repointed: its target lies in a moving
/// project, and it is not a relative link that moves along with its target.
pub open spec fn is_candidate(v: FsView, link: Seq<char>, subs: Pairs) -> bool {
    &&& v.links.contains_key(components(link))
    &&& {
        let raw = v.links[components(link)];
        let target = match_path(subs, resolved_text(link, raw));
        &&& target is Some
        &&& !(!absolute(raw) && match_path(subs, link) is Some && subs[match_path(subs, link)->0].0
            == subs[target->0].0)
    }
}

/// `c` describes the link at `link`.
pub open spec fn is_candidate_for(
    c: LinkCandidate,
    v: FsView,
    link: Seq<char>,
    subs: Pairs,
) -> bool {
    let raw = v.links[components(link)];
    let target = resolved_text(link, raw);
    &&& is_candidate(v, link, subs)
    &&& c.path@ == link
    &&& c.resolved_target@ == target
    &&& rebased(subs, target) == Some(c.new_target@)
    &&& c.is_relative == !absolute(raw)
    &&& c.alive == v.present.contains(components(target))
}

/// Looks at the link at `link_path`: none when it is no link, when its target
/// lies in no moving project, or when both its ends move together.
pub fn relink_candidate<F: Fs>(fs: &F, link_path: &FilePath, subs: &Substitutions) -> (r: Option<
    LinkCandidate,
>)
    ensures
        match r {
            Some(c) => is_candidate_for(c, fs.view(), link_path@, subs@),
            None => !is_candidate(fs.view(), link_path@, subs@),
        },
{
    let raw_target = match fs.read_link(link_path) {
        Ok(target) => target,
        Err(_) => {
            return None;
        },
    };
    let is_relative = !raw_target.is_absolute();
    let resolved_target = resolve_link_target(link_path, &raw_target);
    let target_entry: usize = match subs.match_path(&resolved_target) {
        Some(e) => e,
        None => {
            return None;
        },
    };
    let new_target = match subs.rebase(&resolved_target) {
        Some(path) => path,
        None => {
            return None;
        },
    };
    if is_relative {
        if let Some(link_entry) = subs.match_path(link_path) {
            let a = subs.old_text(link_entry);
            let b = subs.old_text(target_entry);
            if crate::path::same_text(a.as_str(), b.as_str()) {
                return None;
            }
        }
    }
    let alive = fs.path_exists(&resolved_target);
    Some(
        LinkCandidate {
            path: link_path.clone(),
            resolved_target,
            new_target,
            is_relative,
            alive,
        },
    )
}

/// An absolute path of a moving project in the contents of a file.
#[derive(Debug)]
pub struct TextReference {
    pub file: FilePath,
    /// Counted from 1, as an editor counts.
    pub line: usize,
    pub old: String,
    pub new: String,
}

/// How often `c` occurs in `s`.
pub open spec fn occurrences(s: Seq<char>, c: char) -> nat
    decreases s.len(),
{
    if s.len() == 0 {
        0
    } else {
        occurrences(s.drop_last(), c) + (if s.last() == c {
            1nat
        } else {
            0
        })
    }
}

/// The line of the text that the place `at` is on.
pub open spec fn line_of(s: Seq<char>, at: int) -> nat {
    1 + occurrences(s.take(at), '\n')
}

/// What a reference says: its line, the old path and the new one.
pub type Finding = (nat, Seq<char>, Seq<char>);

/// The references in a text: one for each match that a replacement would make.
pub open spec fn findings(subs: Pairs, s: Seq<char>) -> Seq<Finding> {
    matches_in(subs, s).map_values(
        |m: (int, int)| (line_of(s, m.0), subs[m.1].0, subs[m.1].1),
    )
}

/// Whether a text looks like that of a binary file: it holds a NUL character.
pub open spec fn binary(s: Seq<char>) -> bool {
    s.contains('\0')
}

/// Whether the path leads through a `.git` directory.
pub open spec fn in_git(k: Key) -> bool {
    k.contains(".git"@)
}

/// The references in the file at `path`: none in a `.git` directory, in a
/// moving project itself, and in what cannot be read as text.
pub open spec fn references(v: FsView, path: Seq<char>, subs: Pairs) -> Seq<Finding> {
    let text = v.text(components(path));
    if in_git(components(path)) || match_path(subs, path) is Some || text is None || binary(
        text->0,
    ) {
        Seq::empty()
    } else {
        findings(subs, text->0)
    }
}

pub open spec fn finding(t: TextReference) -> Finding {
    (t.line as nat, t.old@, t.new@)
}

/// The references all lie in the file `path` and say `list`.
pub open spec fn are_references(
    r: Seq<TextReference>,
    path: Seq<char>,
    list: Seq<Finding>,
) -> bool {
    &&& r.map_values(|t: TextReference| finding(t)) == list
    &&& forall|i: int| 0 <= i < r.len() ==> (#[trigger] r[i]).file@ == path
}

/// Whether the text holds a NUL character.
fn looks_binary(content: &Vec<char>) -> (r: bool)
    ensures
        r == binary(content@),
{
    let mut i: usize = 0;
    while i < content.len()
        invariant
            i <= content@.len(),
            forall|x: int| 0 <= x < i ==> content@[x] != '\0',
        decreases content@.len() - i,
    {
        if content[i] == '\0' {
            assert(content@.contains(content@[i as int]));
            return true;
        }
        i = i + 1;
    }
    false
}

/// Every reference in a text, with the line it is on.
pub fn text_references_in_content(content: &Vec<char>, subs: &Substitutions) -> (r: Vec<
    (usize, String, String),
>)
    ensures
        r@.map_values(|f: (usize, String, String)| (f.0 as nat, f.1@, f.2@)) == findings(
            subs@,
            content@,
        ),
{
    let n: usize = content.len();
    let hits = scan_matches(content, subs);
    let ghost g = |f: (usize, String, String)| (f.0 as nat, f.1@, f.2@);
    let ghost all = findings(subs@, content@);
    let ghost ms = matches_in(subs@, content@);
    let mut r: Vec<(usize, String, String)> = Vec::new();
    let mut line: usize = 1;
    let mut at: usize = 0;
    let mut i: usize = 0;
    assert(content@.take(0) =~= Seq::empty());
    while i < hits.len()
        invariant
            n == content@.len(),
            g == (|f: (usize, String, String)| (f.0 as nat, f.1@, f.2@)),
            all == findings(subs@, content@),
            ms == matches_in(subs@, content@),
            found(hits@) == ms,
            hits@.len() == ms.len(),
            i <= hits@.len(),
            at <= content@.len(),
            line == line_of(content@, at as int),
            line <= at + 1,
            r@.len() == i,
            i < ms.len() ==> at <= ms[i as int].0,
            forall|x: int| 0 <= x < i ==> g(#[trigger] r@[x]) == all[x],
        decreases hits@.len() - i,
    {
        let (hit, e) = hits[i];
        proof {
            assert(ms[i as int] == (hit as int, e as int));
            crate::substitution::law_matches_are_hits(subs@, content@, i as int);
        }
        while at < hit
            invariant
                n == content@.len(),
                at <= hit < n,
                line == line_of(content@, at as int),
                line <= at + 1,
            decreases hit - at,
        {
            if content[at] == '\n' {
                line = line + 1;
            }
            at = at + 1;
            proof {
                assert(content@.take(at as int).drop_last() =~= content@.take(at - 1));
                assert(content@.take(at as int).last() == content@[at - 1]);
            }
        }
        r.push((line, subs.old_text(e), subs.new_text(e)));
        i = i + 1;
    }
    assert(r@.map_values(g) =~= all);
    r
}

/// Looks for references in one file.
pub fn text_references<F: Fs>(fs: &F, path: &FilePath, subs: &Substitutions) -> (r: Vec<
    TextReference,
>)
    ensures
        are_references(r@, path@, references(fs.view(), path@, subs@)),
{
    let mut r: Vec<TextReference> = Vec::new();
    assert(r@.map_values(|t: TextReference| finding(t)) =~= Seq::empty());
    if leads_through_git(path) || subs.match_path(path).is_some() {
        return r;
    }
    let content = match fs.read_to_string(path) {
        Ok(content) => chars_of(content.as_str()),
        Err(_) => {
            return r;
        },
    };
    if looks_binary(&content) {
        return r;
    }
    let list = text_references_in_content(&content, subs);
    let ghost all = references(fs.view(), path@, subs@);
    let ghost g = |f: (usize, String, String)| (f.0 as nat, f.1@, f.2@);
    let mut i: usize = 0;
    while i < list.len()
        invariant
            i <= list@.len(),
            r@.len() == i,
            forall|x: int|
                0 <= x < i ==> finding(#[trigger] r@[x]) == g(list@[x]) && r@[x].file@ == path@,
            g == (|f: (usize, String, String)| (f.0 as nat, f.1@, f.2@)),
        decreases list@.len() - i,
    {
        let (line, old, new) = &list[i];
        r.push(
            TextReference { file: path.clone(), line: *line, old: old.clone(), new: new.clone() },
        );
        i = i + 1;
    }
    proof {
        assert(r@.map_values(|t: TextReference| finding(t)) =~= list@.map_values(g));
    }
    r
}

/// Whether the path leads through a `.git` directory.
fn leads_through_git(path: &FilePath) -> (r: bool)
    ensures
        r == in_git(path.key()),
{
    let parts = path.components();
    let git = chars_of(".git");
    let mut i: usize = 0;
    while i < parts.len()
        invariant
            git@ == ".git"@,
            parts@.len() == path.key().len(),
            forall|x: int| 0 <= x < parts@.len() ==> (#[trigger] parts@[x])@ == path.key()[x],
            i <= parts@.len(),
            forall|x: int| 0 <= x < i ==> path.key()[x] != ".git"@,
        decreases parts@.len() - i,
    {
        if same_chars(&parts[i], &git) {
            assert(path.key().contains(path.key()[i as int]));
            return true;
        }
        i = i + 1;
    }
    false
}

} // verus!
