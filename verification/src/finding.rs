//! What is found of a project, by the names that things have.

use vstd::prelude::*;

use crate::encoder::encoded;
use crate::fs::texts;
use crate::fs::FsView;
use crate::home::HomeView;
use crate::path::components;
use crate::path::dot;
use crate::path::dot_dot;
use crate::path::is_plain;
use crate::path::lemma_components_concat;
use crate::path::lemma_components_join_name;
use crate::path::slash;
use crate::path::under;
use crate::path::FilePath;
use crate::places::lemma_global_place;
use crate::scanner::describes;
use crate::scanner::has_subagents;
use crate::scanner::index_of;
use crate::scanner::is_index;
use crate::scanner::is_session;
use crate::scanner::name_of;
use crate::scanner::session_name;
use crate::scanner::sessions_among;
use crate::scanner::sessions_at;
use crate::scanner::sessions_of;
use crate::scanner::subagents_dir;
use crate::scanner::ProjectState;
use crate::spelling::law_components_are_the_names;
use crate::unit::are_subprojects;
use crate::unit::is_subproject;
use crate::unit::subproject_keys;

verus! {

/// The path of the entry `rest` below the directory `dir`.
pub open spec fn below(dir: Seq<char>, rest: Seq<char>) -> Seq<char> {
    dir + seq!['/'] + rest
}

proof fn lemma_in_filter(
    list: Seq<Seq<char>>,
    f: spec_fn(Seq<char>) -> bool,
    x: Seq<char>,
)
    ensures
        list.filter(f).contains(x) <==> list.contains(x) && f(x),
{
    if list.filter(f).contains(x) {
        let i = choose|i: int| 0 <= i < list.filter(f).len() && list.filter(f)[i] == x;
        list.lemma_filter_pred(f, i);
        list.lemma_filter_contains_rev(f, x);
    }
    if list.contains(x) && f(x) {
        let i = choose|i: int| 0 <= i < list.len() && list[i] == x;
        list.lemma_filter_contains(f, i);
    }
}

proof fn lemma_below(key: Seq<char>, source: Seq<char>)
    ensures
        is_subproject(key, source) <==> exists|rest: Seq<char>| key == #[trigger] below(
            source,
            rest,
        ),
        is_subproject(key, source) ==> key == below(source, key.skip(source.len() as int + 1)),
{
    let start = source.push('/');
    if is_subproject(key, source) {
        let rest = key.skip(source.len() as int + 1);
        assert(key.subrange(0, start.len() as int) == start);
        assert(key =~= start + rest);
        assert(key =~= below(source, rest));
    }
    if exists|rest: Seq<char>| key == #[trigger] below(source, rest) {
        let rest = choose|rest: Seq<char>| key == #[trigger] below(source, rest);
        assert(key.subrange(0, start.len() as int) =~= start);
    }
}

/// Of the registered projects, those below a directory are found, however deep below it
/// they lie, and no others.
pub proof fn law_projects_below_are_found(
    keys: Seq<Seq<char>>,
    source: Seq<char>,
    key: Seq<char>,
)
    ensures
        subproject_keys(keys, source).contains(key) <==> keys.contains(key) && exists|
            rest: Seq<char>,
        | key == #[trigger] below(source, rest),
        source.len() > 0 && subproject_keys(keys, source).contains(key) ==> under(
            components(key),
            components(source),
        ),
{
    let f = |k: Seq<char>| is_subproject(k, source);
    lemma_below(key, source);
    lemma_in_filter(keys, f, key);
    if subproject_keys(keys, source).contains(key) {
        if source.len() > 0 {
            let rest = key.skip(source.len() as int + 1);
            assert(below(source, rest) =~= source.push('/') + rest);
            lemma_components_concat(source, rest);
            assert(components(key).subrange(0, components(source).len() as int) =~= components(
                source,
            ));
        }
    }
}

/// The projects below a directory are found one by one, in the order in which they are
/// registered.
pub proof fn law_projects_are_found_in_order(
    a: Seq<Seq<char>>,
    b: Seq<Seq<char>>,
    source: Seq<char>,
    rest: Seq<char>,
)
    ensures
        subproject_keys(a + b, source) == subproject_keys(a, source) + subproject_keys(b, source),
        subproject_keys(seq![below(source, rest)], source) == seq![below(source, rest)],
{
    let f = |k: Seq<char>| is_subproject(k, source);
    Seq::filter_distributes_over_add(a, b, f);
    let key = below(source, rest);
    lemma_below(key, source);
    assert(is_subproject(key, source));
    reveal_with_fuel(Seq::filter, 2);
    assert(seq![key].drop_last() =~= Seq::empty());
    assert(seq![key].filter(f) =~= seq![key]);
}

/// A project below a directory that moves is found, and keeps its place below it: what
/// was at `source/rest` goes to `target/rest`.
pub proof fn law_projects_below_come_along(
    subs: Seq<(ProjectState, FilePath)>,
    v: FsView,
    keys: Seq<Seq<char>>,
    source: Seq<char>,
    target: Seq<char>,
    home: HomeView,
    rest: Seq<char>,
)
    requires
        are_subprojects(subs, v, subproject_keys(keys, source), source, target, home),
        keys.contains(below(source, rest)),
    ensures
        exists|i: int|
            0 <= i < subs.len() && (#[trigger] subs[i]).0.project_path@ == below(source, rest)
                && subs[i].1@ == below(target, rest),
        forall|i: int|
            0 <= i < subs.len() ==> exists|r: Seq<char>|
                (#[trigger] subs[i]).0.project_path@ == #[trigger] below(source, r)
                    && subs[i].1@ == below(target, r),
{
    let list = subproject_keys(keys, source);
    let key = below(source, rest);
    law_projects_below_are_found(keys, source, key);
    assert(list.contains(key));
    let i = choose|i: int| 0 <= i < list.len() && list[i] == key;
    assert(describes(subs[i].0, v, list[i], home));
    assert(subs[i].1@ =~= below(target, rest));
    assert forall|i: int| 0 <= i < subs.len() implies exists|r: Seq<char>|
        (#[trigger] subs[i]).0.project_path@ == #[trigger] below(source, r) && subs[i].1@ == below(
            target,
            r,
        ) by {
        assert(describes(subs[i].0, v, list[i], home));
        assert(list.contains(list[i]));
        law_projects_below_are_found(keys, source, list[i]);
        let r = choose|r: Seq<char>| list[i] == #[trigger] below(source, r);
        assert(subs[i].1@ =~= below(target, r));
        assert(subs[i].0.project_path@ == below(source, r));
    }
}

/// The letters of `jsonl` behind a dot, each in either case.
pub open spec fn is_session_ending(end: Seq<char>) -> bool {
    &&& end.len() == 6
    &&& end[0] == '.'
    &&& seq!['j', 'J'].contains(end[1])
    &&& seq!['s', 'S'].contains(end[2])
    &&& seq!['o', 'O'].contains(end[3])
    &&& seq!['n', 'N'].contains(end[4])
    &&& seq!['l', 'L'].contains(end[5])
}

proof fn lemma_named(e: Seq<char>, dir: Seq<char>, n: Seq<char>)
    requires
        dir.len() > 0,
        n.len() > 2 && !n.contains('/'),
        e == below(dir, n),
    ensures
        name_of(e) == Some(n),
        components(e).last() == n,
{
    assert(e =~= dir.push('/') + n);
    assert(n != seq!['.']);
    law_components_are_the_names(dir, n);
    assert(n != slash() && n != dot() && n != dot_dot());
}

proof fn lemma_either(a: char, b: char, c: char)
    ensures
        seq![a, b].contains(c) <==> c == a || c == b,
{
    let s = seq![a, b];
    assert(s[0] == a && s[1] == b);
}

proof fn lemma_session_name(stem: Seq<char>, end: Seq<char>)
    ensures
        stem.len() > 0 && is_session_ending(end) ==> session_name(stem + end),
        end.len() == 6 && session_name(stem + end) ==> stem.len() > 0 && is_session_ending(end),
{
    lemma_either('j', 'J', end[1]);
    lemma_either('s', 'S', end[2]);
    lemma_either('o', 'O', end[3]);
    lemma_either('n', 'N', end[4]);
    lemma_either('l', 'L', end[5]);
    let n = stem + end;
    if end.len() == 6 {
        assert forall|i: int| 0 <= i < 6 implies n[n.len() - 6 + i] == #[trigger] end[i] by {}
    }
}

proof fn lemma_sessions_concat(v: FsView, a: Seq<Seq<char>>, b: Seq<Seq<char>>)
    ensures
        sessions_of(v, a + b) == sessions_of(v, a) + sessions_of(v, b),
    decreases b.len(),
{
    if b.len() == 0 {
        assert(a + b =~= a);
    } else {
        assert((a + b).drop_last() =~= a + b.drop_last());
        lemma_sessions_concat(v, a, b.drop_last());
    }
    assert(sessions_of(v, a + b) =~= sessions_of(v, a) + sessions_of(v, b));
}

proof fn lemma_session_in(v: FsView, entries: Seq<Seq<char>>, i: int, e: Seq<char>)
    requires
        0 <= i < entries.len(),
        sessions_at(v, entries[i]).contains(e),
    ensures
        sessions_of(v, entries).contains(e),
    decreases entries.len(),
{
    let init = sessions_of(v, entries.drop_last());
    let last = sessions_at(v, entries.last());
    if i == entries.len() - 1 {
        let j = choose|j: int| 0 <= j < last.len() && last[j] == e;
        assert((init + last)[init.len() + j] == e);
    } else {
        lemma_session_in(v, entries.drop_last(), i, e);
        let j = choose|j: int| 0 <= j < init.len() && init[j] == e;
        assert((init + last)[j] == e);
    }
}

/// Every file of the project's data directory whose name ends in `.jsonl`, in whatever
/// case, with anything before it, is one of the project's session files.
pub proof fn law_sessions_are_found_by_their_ending(
    state: ProjectState,
    v: FsView,
    p: Seq<char>,
    home: HomeView,
    dir: Seq<char>,
    stem: Seq<char>,
    end: Seq<char>,
)
    requires
        describes(state, v, p, home),
        state.global_project_dir is Some,
        v.listing[state.global_project_dir->0@].contains(below(dir, stem + end)),
        dir.len() > 0,
        stem.len() > 0 && !stem.contains('/'),
        is_session_ending(end),
    ensures
        texts(state.session_files@).contains(below(dir, stem + end)),
{
    let e = below(dir, stem + end);
    lemma_plain_ending(stem, end);
    lemma_named(e, dir, stem + end);
    lemma_session_name(stem, end);
    let entries = v.listing[state.global_project_dir->0@];
    let i = choose|i: int| 0 <= i < entries.len() && entries[i] == e;
    assert(is_session(e));
    assert(sessions_at(v, e)[0] == e);
    lemma_session_in(v, entries, i, e);
}

proof fn lemma_plain_ending(stem: Seq<char>, end: Seq<char>)
    requires
        !stem.contains('/'),
        is_session_ending(end),
    ensures
        !(stem + end).contains('/'),
{
    lemma_either('j', 'J', end[1]);
    lemma_either('s', 'S', end[2]);
    lemma_either('o', 'O', end[3]);
    lemma_either('n', 'N', end[4]);
    lemma_either('l', 'L', end[5]);
    let n = stem + end;
    assert forall|i: int| 0 <= i < n.len() implies n[i] != '/' by {
        if i < stem.len() {
            assert(stem.contains(n[i]));
        } else {
            let j = i - stem.len();
            assert(n[i] == end[j]);
            assert(j == 0 || j == 1 || j == 2 || j == 3 || j == 4 || j == 5);
        }
    }
}

/// So is every such file in the directory `subagents` below a directory of the
/// project's data directory.
pub proof fn law_sessions_of_subagents_are_found(
    state: ProjectState,
    v: FsView,
    p: Seq<char>,
    home: HomeView,
    session: Seq<char>,
    dir: Seq<char>,
    stem: Seq<char>,
    end: Seq<char>,
)
    requires
        describes(state, v, p, home),
        state.global_project_dir is Some,
        v.listing[state.global_project_dir->0@].contains(session),
        session.len() > 0 && session.last() != '/',
        v.dirs.contains(components(session)),
        v.dirs.contains(components(session).push("subagents"@)),
        v.listing[below(session, "subagents"@)].contains(below(dir, stem + end)),
        dir.len() > 0,
        stem.len() > 0 && !stem.contains('/'),
        is_session_ending(end),
    ensures
        texts(state.session_files@).contains(below(dir, stem + end)),
{
    let e = below(dir, stem + end);
    lemma_plain_ending(stem, end);
    lemma_named(e, dir, stem + end);
    lemma_session_name(stem, end);
    assert(is_session(e));
    let entries = v.listing[state.global_project_dir->0@];
    let i = choose|i: int| 0 <= i < entries.len() && entries[i] == session;
    lemma_subagents(session);
    let inner = v.listing[subagents_dir(session)];
    let f = |e: Seq<char>| is_session(e);
    assert(f(e));
    lemma_in_filter(inner, f, e);
    assert(sessions_among(inner).contains(e));
    let j = choose|j: int| 0 <= j < sessions_among(inner).len() && sessions_among(inner)[j] == e;
    let at = sessions_at(v, session);
    assert(has_subagents(v, session));
    let k = at.len() - sessions_among(inner).len() + j;
    assert(at[k] == e);
    lemma_session_in(v, entries, i, e);
}

proof fn lemma_subagents(session: Seq<char>)
    requires
        session.len() > 0 && session.last() != '/',
    ensures
        subagents_dir(session) == below(session, "subagents"@),
        components(subagents_dir(session)) == components(session).push("subagents"@),
{
    reveal_strlit("subagents");
    let c = "subagents"@;
    assert(c[0] == 's');
    assert(subagents_dir(session) =~= below(session, c));
    assert(is_plain(c)) by {
        assert(dot()[0] == '.');
        assert forall|i: int| 0 <= i < c.len() implies c[i] != '/' by {}
    }
    lemma_components_join_name(session, c);
}

/// Nothing else is a session file: each has such a name, and is an entry of the
/// project's data directory or of a directory of subagents.
pub proof fn law_session_files_have_the_ending(
    state: ProjectState,
    v: FsView,
    p: Seq<char>,
    home: HomeView,
    e: Seq<char>,
)
    requires
        describes(state, v, p, home),
        texts(state.session_files@).contains(e),
    ensures
        state.global_project_dir is Some,
        components(e).len() > 0,
        components(e).last().len() > 6,
        is_session_ending(components(e).last().skip(components(e).last().len() - 6)),
        v.listing[state.global_project_dir->0@].contains(e) || exists|session: Seq<char>|
            #[trigger] v.listing[state.global_project_dir->0@].contains(session) && v.dirs.contains(
                components(session),
            ) && v.listing[subagents_dir(session)].contains(e),
{
    let entries = crate::scanner::global_entries(v, p, home);
    lemma_session_comes_from(v, entries, e);
    let n = components(e).last();
    lemma_session_name(n.take(n.len() - 6), n.skip(n.len() - 6));
    assert(n.take(n.len() - 6) + n.skip(n.len() - 6) =~= n);
}

proof fn lemma_session_comes_from(v: FsView, entries: Seq<Seq<char>>, e: Seq<char>)
    requires
        sessions_of(v, entries).contains(e),
    ensures
        entries.len() > 0,
        is_session(e),
        entries.contains(e) || exists|session: Seq<char>| #[trigger]
            entries.contains(session) && v.dirs.contains(components(session))
                && v.listing[subagents_dir(session)].contains(e),
    decreases entries.len(),
{
    let all = sessions_of(v, entries);
    let j = choose|j: int| 0 <= j < all.len() && all[j] == e;
    let init = sessions_of(v, entries.drop_last());
    let session = entries.last();
    if j < init.len() {
        assert(init[j] == e);
        let before = entries.drop_last();
        lemma_session_comes_from(v, before, e);
        assert forall|x: Seq<char>| #[trigger] before.contains(x) implies entries.contains(x) by {
            let i = choose|i: int| 0 <= i < before.len() && before[i] == x;
            assert(entries[i] == x);
        }
    } else {
        assert(entries.contains(session)) by {
            assert(entries[entries.len() - 1] == session);
        }
        let at = sessions_at(v, session);
        assert(at[j - init.len()] == e);
        if !(is_session(session) && e == session) {
            let inner = v.listing[subagents_dir(session)];
            let f = |e: Seq<char>| is_session(e);
            let k = if is_session(session) {
                j - init.len() - 1
            } else {
                j - init.len()
            };
            assert(inner.filter(f)[k] == e);
            lemma_in_filter(inner, f, e);
        }
    }
}

/// Session files are found entry by entry, in the order of the entries.
pub proof fn law_sessions_are_found_in_order(v: FsView, a: Seq<Seq<char>>, b: Seq<Seq<char>>)
    ensures
        sessions_of(v, a + b) == sessions_of(v, a) + sessions_of(v, b),
{
    lemma_sessions_concat(v, a, b);
}

/// The session index is the entry of the data directory that is called
/// `sessions-index.json`, and there is one exactly where such an entry is.
pub proof fn law_index_is_found_by_its_name(
    state: ProjectState,
    v: FsView,
    p: Seq<char>,
    home: HomeView,
    dir: Seq<char>,
)
    requires
        describes(state, v, p, home),
    ensures
        state.sessions_index matches Some(f) ==> {
            &&& state.global_project_dir is Some
            &&& v.listing[state.global_project_dir->0@].contains(f@)
            &&& components(f@).last() == "sessions-index.json"@
        },
        dir.len() > 0 && state.global_project_dir is Some
            && v.listing[state.global_project_dir->0@].contains(below(dir, "sessions-index.json"@))
            ==> state.sessions_index is Some,
{
    let entries = crate::scanner::global_entries(v, p, home);
    lemma_index(entries);
    let e = below(dir, "sessions-index.json"@);
    if dir.len() > 0 && entries.contains(e) {
        reveal_strlit("sessions-index.json");
        let n = "sessions-index.json"@;
        assert forall|i: int| 0 <= i < n.len() implies n[i] != '/' by {}
        lemma_named(e, dir, n);
        assert(is_index(e));
    }
}

proof fn lemma_index(entries: Seq<Seq<char>>)
    ensures
        index_of(entries) matches Some(f) ==> entries.contains(f) && is_index(f),
        forall|e: Seq<char>| entries.contains(e) && #[trigger] is_index(e) ==> index_of(entries)
            is Some,
    decreases entries.len(),
{
    if entries.len() > 0 {
        let before = entries.drop_last();
        lemma_index(before);
        assert(entries[entries.len() - 1] == entries.last());
        assert forall|x: Seq<char>| #[trigger] before.contains(x) implies entries.contains(x) by {
            let i = choose|i: int| 0 <= i < before.len() && before[i] == x;
            assert(entries[i] == x);
        }
        assert forall|e: Seq<char>| entries.contains(e) && #[trigger] is_index(e) implies index_of(
            entries,
        ) is Some by {
            let i = choose|i: int| 0 <= i < entries.len() && entries[i] == e;
            if i < before.len() {
                assert(before[i] == e);
            }
        }
    }
}

/// Where the other files of a project are looked for: its settings in the local
/// directory, its servers beside that, the history in the data directory, and the
/// project's own data in the directory with its encoded name.
pub proof fn law_places_of_a_project(state: ProjectState, v: FsView, p: Seq<char>, home: HomeView)
    requires
        describes(state, v, p, home),
        p.len() > 0 && p[0] == '/',
        is_plain(home.local_dir),
    ensures
        state.project_dir_exists == v.dirs.contains(components(p)),
        state.local_claude_dir is Some <==> v.dirs.contains(components(p).push(home.local_dir)),
        state.local_claude_dir matches Some(f) ==> f.key() == components(p).push(home.local_dir),
        state.settings_json is Some <==> v.present.contains(
            components(p).push(home.local_dir).push("settings.json"@),
        ),
        state.settings_json matches Some(f) ==> f.key() == components(p).push(home.local_dir).push(
            "settings.json"@,
        ),
        state.mcp_json is Some <==> v.present.contains(components(p).push(".mcp.json"@)),
        state.mcp_json matches Some(f) ==> f.key() == components(p).push(".mcp.json"@),
        state.history_jsonl is Some <==> v.present.contains(
            components(home.path).push("history.jsonl"@),
        ),
        state.history_jsonl matches Some(f) ==> f.key() == components(home.path).push(
            "history.jsonl"@,
        ),
        state.global_project_dir is Some <==> v.dirs.contains(
            components(home.path).push("projects"@).push(encoded(p)),
        ),
        state.global_project_dir matches Some(f) ==> f.key() == components(home.path).push(
            "projects"@,
        ).push(encoded(p)),
{
    reveal_strlit("settings.json");
    reveal_strlit(".mcp.json");
    reveal_strlit("history.jsonl");
    let local = crate::path::join_text(p, home.local_dir);
    lemma_components_join_name(p, home.local_dir);
    assert(dot().len() == 1);
    assert(is_plain("settings.json"@)) by {
        let n = "settings.json"@;
        assert forall|i: int| 0 <= i < n.len() implies n[i] != '/' by {}
    }
    assert(is_plain(".mcp.json"@)) by {
        assert forall|i: int| 0 <= i < ".mcp.json"@.len() implies ".mcp.json"@[i] != '/' by {}
    }
    assert(is_plain("history.jsonl"@)) by {
        let n = "history.jsonl"@;
        assert forall|i: int| 0 <= i < n.len() implies n[i] != '/' by {}
    }
    lemma_components_join_name(local, "settings.json"@);
    lemma_components_join_name(p, ".mcp.json"@);
    lemma_components_join_name(home.path, "history.jsonl"@);
    lemma_global_place(p, home.path);
}

/// The registered projects are looked up beside the data directory.
pub proof fn law_registry_lies_beside_the_data(
    state: ProjectState,
    v: FsView,
    p: Seq<char>,
    home: HomeView,
)
    requires
        describes(state, v, p, home),
        home.path.len() > 0 && home.path[0] == '/',
        components(home.path).len() > 1,
        is_plain(home.registry),
    ensures
        state.claude_json is Some <==> v.present.contains(
            components(home.path).drop_last().push(home.registry),
        ),
        state.claude_json matches Some(f) ==> f.key() == components(home.path).drop_last().push(
            home.registry,
        ),
{
    crate::spelling::law_parent_drops_the_last(home.path);
    lemma_components_join_name(crate::path::parent_text(home.path), home.registry);
    let k = components(home.path);
    crate::path::lemma_components_plain(home.path, k.len() - 1);
    assert(k.last() != slash()) by {
        assert(slash()[0] == '/');
        if k[k.len() - 1] == slash() {
            assert(k.last().contains(k.last()[0]));
        }
    }
}

/// A project is there where its directory is, or its data.
pub proof fn law_which_projects_have_data(
    state: ProjectState,
    v: FsView,
    p: Seq<char>,
    home: HomeView,
)
    requires
        describes(state, v, p, home),
        p.len() > 0 && p[0] == '/',
    ensures
        state.has_data() <==> v.dirs.contains(components(p)) || v.dirs.contains(
            components(home.path).push("projects"@).push(encoded(p)),
        ),
{
    lemma_global_place(p, home.path);
}

} // verus!
