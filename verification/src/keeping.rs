//! What a backup keeps and where it goes back to, and how two data directories become
//! one.

use vstd::prelude::*;
use vstd::utf8::decode_utf8;
use vstd::utf8::valid_utf8;

use crate::apply::all_reports;
use crate::apply::followed;
use crate::apply::rename_for;
use crate::apply::session_list;
use crate::apply::Outcome;
use crate::archive::Entries;
use crate::backup::backup_dir;
use crate::backup::backup_files;
use crate::backup::backup_path;
use crate::backup::behind;
use crate::backup::dir_entries;
use crate::backup::dir_part;
use crate::backup::file_part;
use crate::backup::is_astray;
use crate::backup::is_manifest;
use crate::backup::lists;
use crate::backup::manifest_at;
use crate::backup::manifest_fault;
use crate::backup::manifest_in;
use crate::backup::manifest_of;
use crate::backup::name_in;
use crate::backup::passed_over;
use crate::backup::restorable;
use crate::backup::says;
use crate::backup::target_of;
use crate::backup::ManifestView;
use crate::backup::Sources;
use crate::encoder::encoded;
use crate::error::Error;
use crate::fs::origin;
use crate::fs::FsView;
use crate::home::HomeView;
use crate::json::items;
use crate::json::members;
use crate::json::null;
use crate::json::parsed;
use crate::json::string_text;
use crate::logging::lemma_backup_place;
use crate::merge::index_step;
use crate::merge::is_merged_index;
use crate::merge::place;
use crate::merge::takes_entries;
use crate::path::components;
use crate::path::dot;
use crate::path::is_plain;
use crate::path::lemma_components_join;
use crate::path::lemma_components_join_name;
use crate::path::lemma_strip_components;
use crate::path::strip_text;
use crate::path::tail_components;
use crate::path::under;
use crate::path::Key;
use crate::places::lemma_global_place;
use crate::registry::law_index_lies_in_its_directory;
use crate::scanner::ProjectState;
use crate::substitution::text_at;

verus! {

/// A backup lies in the directory of the backups and is called after its project and
/// the time.
pub proof fn law_backups_are_named_after_their_projects(s: Sources)
    requires
        s.project.len() > 0 && s.project[0] == '/',
        !s.timestamp.contains('/'),
    ensures
        components(backup_path(s)) == components(s.home.path).push("backups"@).push("ccmv"@).push(
            encoded(s.project) + seq!['-'] + s.timestamp + ".tar.gz"@,
        ),
{
    reveal_strlit("-");
    reveal_strlit(".tar.gz");
    let e = encoded(s.project);
    let name = e + "-"@ + s.timestamp + ".tar.gz"@;
    assert(name =~= e + seq!['-'] + s.timestamp + ".tar.gz"@);
    assert(is_plain(name)) by {
        assert(dot().len() == 1);
        assert forall|i: int| 0 <= i < name.len() implies name[i] != '/' by {
            if e.len() < i < e.len() + 1 + s.timestamp.len() {
                assert(name[i] == s.timestamp[i - e.len() - 1]);
                assert(s.timestamp.contains(name[i]));
            }
        }
    }
    lemma_backup_place(s.home.path);
    lemma_components_join_name(backup_dir(s.home.path), name);
}

/// The manifest of a backup says which project it is of, where the data lay and when
/// the backup was made.
pub proof fn law_manifest_tells_of_its_backup(s: Sources)
    ensures
        manifest_of(s).source == s.project,
        manifest_of(s).home == s.home.path,
        manifest_of(s).timestamp == s.timestamp,
{
}

/// An object that holds the four texts of a manifest under their names is read as that
/// manifest.
pub proof fn law_manifest_is_read_by_its_names(data: Seq<u8>, m: ManifestView)
    requires
        valid_utf8(data),
        parsed(decode_utf8(data)) is Some,
        ({
            let v = parsed(decode_utf8(data))->0;
            &&& members(v) is Some
            &&& members(v)->0.contains_key("source_path"@) && string_text(
                members(v)->0["source_path"@],
            ) == Some(m.source)
            &&& members(v)->0.contains_key("claude_home"@) && string_text(
                members(v)->0["claude_home"@],
            ) == Some(m.home)
            &&& members(v)->0.contains_key("timestamp"@) && string_text(
                members(v)->0["timestamp"@],
            ) == Some(m.timestamp)
            &&& members(v)->0.contains_key("version"@) && string_text(members(v)->0["version"@])
                == Some(m.version)
        }),
    ensures
        manifest_in(data) == Some(m),
{
    let v = parsed(decode_utf8(data))->0;
    assert(says(v, m));
    assert(is_manifest(data, m));
    let n = choose|n: ManifestView| is_manifest(data, n);
    assert(says(v, n));
    assert(n == m);
}

/// Each entry of an archive goes by the last manifest before it, and none can be
/// restored before the first.
pub proof fn law_entries_go_by_the_manifest_before(e: Entries, j: int, n: int, man: Seq<char>)
    requires
        0 <= j < n <= e.len(),
        e[j].0 == man,
        forall|i: int| j < i < n ==> (#[trigger] e[i]).0 != man,
    ensures
        manifest_at(e, n, man) == manifest_in(e[j].1),
        forall|i: int|
            0 <= i < e.len() && (forall|x: int| 0 <= x <= i ==> (#[trigger] e[x]).0 != man)
                ==> !#[trigger] restorable(e, i, man),
    decreases n,
{
    if n - 1 > j {
        assert(e[n - 1].0 != man);
        law_entries_go_by_the_manifest_before(e, j, n - 1, man);
    }
    assert forall|i: int|
        0 <= i < e.len() && (forall|x: int| 0 <= x <= i ==> (#[trigger] e[x]).0 != man) implies
        !#[trigger] restorable(e, i, man) by {
        lemma_no_manifest(e, i, man);
        assert(e[i].0 != man);
    }
}

proof fn lemma_no_manifest(e: Entries, n: int, man: Seq<char>)
    requires
        n <= e.len(),
        forall|x: int| 0 <= x < n ==> (#[trigger] e[x]).0 != man,
    ensures
        manifest_at(e, n, man) is None,
    decreases n,
{
    if n > 0 {
        assert(e[n - 1].0 != man);
        lemma_no_manifest(e, n - 1, man);
    }
}

/// A file is passed over only where it is a link that leads nowhere or to something that
/// cannot be read.
pub proof fn law_only_dead_links_are_passed_over(v: FsView, e: Seq<char>)
    ensures
        !v.links.contains_key(components(e)) ==> !passed_over(v, e),
        v.present.contains(components(e)) && v.files.contains_key(components(e)) ==> !passed_over(
            v,
            e,
        ),
        v.links.contains_key(components(e)) && !v.present.contains(components(e)) ==> passed_over(
            v,
            e,
        ),
        v.links.contains_key(components(e)) && !v.files.contains_key(components(e))
            ==> passed_over(v, e),
{
}

/// The files of a directory go into the archive one after the other, each under its
/// place in the directory and with all it holds.
pub proof fn law_directories_are_kept_file_by_file(
    v: FsView,
    dir: Seq<char>,
    prefix: Seq<char>,
    a: Seq<Seq<char>>,
    b: Seq<Seq<char>>,
    e: Seq<char>,
)
    requires
        dir.len() > 0 && prefix.len() > 0,
        under(components(e), components(dir)),
    ensures
        dir_entries(v, dir, prefix, a + b) == dir_entries(v, dir, prefix, a) + dir_entries(
            v,
            dir,
            prefix,
            b,
        ),
        passed_over(v, e) ==> dir_entries(v, dir, prefix, seq![e]).len() == 0,
        !passed_over(v, e) ==> {
            let kept = dir_entries(v, dir, prefix, seq![e]);
            &&& kept.len() == 1
            &&& kept[0].1 == v.files[components(e)]
            &&& components(kept[0].0) == components(prefix) + components(e).skip(
                components(dir).len() as int,
            )
        },
    decreases b.len(),
{
    reveal_with_fuel(dir_entries, 2);
    assert(seq![e].drop_last() =~= Seq::empty());
    lemma_name_in(prefix, dir, e);
    if b.len() == 0 {
        assert(a + b =~= a);
        assert(dir_entries(v, dir, prefix, a + b) =~= dir_entries(v, dir, prefix, a) + dir_entries(
            v,
            dir,
            prefix,
            b,
        ));
    } else {
        assert((a + b).drop_last() =~= a + b.drop_last());
        law_directories_are_kept_file_by_file(v, dir, prefix, a, b.drop_last(), e);
        assert(dir_entries(v, dir, prefix, a + b) =~= dir_entries(v, dir, prefix, a) + dir_entries(
            v,
            dir,
            prefix,
            b,
        ));
    }
}

proof fn lemma_name_in(prefix: Seq<char>, dir: Seq<char>, e: Seq<char>)
    requires
        dir.len() > 0 && prefix.len() > 0,
        under(components(e), components(dir)),
    ensures
        components(name_in(prefix, dir, e)) == components(prefix) + components(e).skip(
            components(dir).len() as int,
        ),
{
    let n = components(dir).len() as int;
    crate::text::lemma_split_nonempty(dir, '/');
    assert(n > 0);
    lemma_strip_components(e, n);
    lemma_components_join(prefix, strip_text(e, n));
}

proof fn lemma_kept_in(v: FsView, dir: Seq<char>, prefix: Seq<char>, list: Seq<Seq<char>>, i: int)
    requires
        0 <= i < list.len(),
        !passed_over(v, list[i]),
    ensures
        dir_entries(v, dir, prefix, list).contains(
            (name_in(prefix, dir, list[i]), v.files[components(list[i])]),
        ),
    decreases list.len(),
{
    let x = (name_in(prefix, dir, list[i]), v.files[components(list[i])]);
    let all = dir_entries(v, dir, prefix, list);
    if i == list.len() - 1 {
        assert(all[all.len() - 1] == x);
    } else {
        let init = list.drop_last();
        lemma_kept_in(v, dir, prefix, init, i);
        let before = dir_entries(v, dir, prefix, init);
        let j = choose|j: int| 0 <= j < before.len() && before[j] == x;
        assert(all[j] == x);
    }
}

proof fn lemma_entry_in_sum(a: Entries, b: Entries, x: (Seq<char>, Seq<u8>))
    ensures
        a.contains(x) || b.contains(x) ==> (a + b).contains(x),
{
    if a.contains(x) {
        let i = choose|i: int| 0 <= i < a.len() && a[i] == x;
        assert((a + b)[i] == x);
    } else if b.contains(x) {
        let i = choose|i: int| 0 <= i < b.len() && b[i] == x;
        assert((a + b)[a.len() + i] == x);
    }
}

proof fn lemma_in_backup(v: FsView, s: Sources, x: (Seq<char>, Seq<u8>))
    requires
        ({
            ||| dir_part(v, Some(s.global), "global"@).contains(x)
            ||| dir_part(v, s.local, "local/"@ + s.home.local_dir).contains(x)
            ||| file_part(v, s.mcp, "local/.mcp.json"@).contains(x)
            ||| file_part(v, s.claude_json, s.home.archived_registry).contains(x)
        }),
    ensures
        backup_files(v, s).contains(x),
{
    let a = dir_part(v, Some(s.global), "global"@);
    let b = dir_part(v, s.local, "local/"@ + s.home.local_dir);
    let c = file_part(v, s.mcp, "local/.mcp.json"@);
    let d = file_part(v, s.claude_json, s.home.archived_registry);
    lemma_entry_in_sum(a, b, x);
    lemma_entry_in_sum(a + b, c, x);
    lemma_entry_in_sum(a + b + c, d, x);
}

/// A backup keeps every file of the project's data directory and of its local directory,
/// but for dead links, and the file beside that with the servers, and the registry.
pub proof fn law_backups_keep_every_file(v: FsView, s: Sources, e: Seq<char>)
    ensures
        v.dirs.contains(components(s.global)) && v.walk[s.global].contains(e) && !passed_over(v, e)
            ==> backup_files(v, s).contains(
            (name_in("global"@, s.global, e), v.files[components(e)]),
        ),
        s.local is Some && v.dirs.contains(components(s.local->0)) && v.walk[s.local->0].contains(e)
            && !passed_over(v, e) ==> backup_files(v, s).contains(
            (name_in("local/"@ + s.home.local_dir, s.local->0, e), v.files[components(e)]),
        ),
        s.mcp == Some(e) && v.regular.contains(components(e)) ==> backup_files(v, s).contains(
            ("local/.mcp.json"@, v.files[components(e)]),
        ),
        s.claude_json == Some(e) && v.regular.contains(components(e)) ==> backup_files(
            v,
            s,
        ).contains((s.home.archived_registry, v.files[components(e)])),
{
    let data = v.files[components(e)];
    if v.dirs.contains(components(s.global)) && v.walk[s.global].contains(e) && !passed_over(v, e) {
        let list = v.walk[s.global];
        let i = choose|i: int| 0 <= i < list.len() && list[i] == e;
        lemma_kept_in(v, s.global, "global"@, list, i);
        lemma_in_backup(v, s, (name_in("global"@, s.global, e), data));
    }
    if s.local is Some && v.dirs.contains(components(s.local->0)) && v.walk[s.local->0].contains(e)
        && !passed_over(v, e) {
        let list = v.walk[s.local->0];
        let i = choose|i: int| 0 <= i < list.len() && list[i] == e;
        lemma_kept_in(v, s.local->0, "local/"@ + s.home.local_dir, list, i);
        lemma_in_backup(v, s, (name_in("local/"@ + s.home.local_dir, s.local->0, e), data));
    }
    if s.mcp == Some(e) && v.regular.contains(components(e)) {
        assert(file_part(v, s.mcp, "local/.mcp.json"@)[0] == ("local/.mcp.json"@, data));
        lemma_in_backup(v, s, ("local/.mcp.json"@, data));
    }
    if s.claude_json == Some(e) && v.regular.contains(components(e)) {
        assert(file_part(v, s.claude_json, s.home.archived_registry)[0] == (
            s.home.archived_registry,
            data,
        ));
        lemma_in_backup(v, s, (s.home.archived_registry, data));
    }
}

/// Where the files of an archive go back to: those under `global/` to the data directory
/// of the project, those under `local/` to the project, and no others anywhere.
pub proof fn law_files_go_back_by_their_names(m: ManifestView, rest: Seq<char>, name: Seq<char>)
    requires
        m.source.len() > 0 && m.source[0] == '/',
        rest.len() > 0 && rest[0] != '/',
    ensures
        target_of(m, "global/"@ + rest) matches Some(t) && components(t) == components(m.home).push(
            "projects"@,
        ).push(encoded(m.source)) + tail_components(rest),
        target_of(m, "local/"@ + rest) matches Some(t) && components(t) == components(m.source)
            + tail_components(rest),
        target_of(m, name) is Some ==> exists|r: Seq<char>|
            name == #[trigger] ("global/"@ + r) || name == "local/"@ + r,
{
    reveal_strlit("global/");
    reveal_strlit("local/");
    let g = "global/"@;
    let l = "local/"@;
    let a = g + rest;
    let b = l + rest;
    assert(a.subrange(0, g.len() as int) =~= g);
    assert(a.skip(g.len() as int) =~= rest);
    assert(b.subrange(0, l.len() as int) =~= l);
    assert(b.skip(l.len() as int) =~= rest);
    assert(!text_at(b, 0, g)) by {
        if text_at(b, 0, g) {
            assert(b.subrange(0, g.len() as int)[0] == g[0]);
            assert(b[0] == l[0]);
        }
    }
    let dir = crate::scanner::global_dir_in(m.source, m.home);
    lemma_global_place(m.source, m.home);
    lemma_components_join(dir, rest);
    lemma_components_join(m.source, rest);
    if behind(name, g) is Some {
        let r = name.skip(g.len() as int);
        assert(name =~= g + r) by {
            assert(name.subrange(0, g.len() as int) == g);
            assert(name =~= name.subrange(0, g.len() as int) + r);
        }
    } else if behind(name, l) is Some {
        let r = name.skip(l.len() as int);
        assert(name =~= l + r) by {
            assert(name.subrange(0, l.len() as int) == l);
            assert(name =~= name.subrange(0, l.len() as int) + r);
        }
        assert(g + r == g + r);
    }
}

/// Two session indexes become one: the entries of the index that was there, then those
/// that come to it. Whatever else was there stays, and nothing else comes to it.
pub proof fn law_indexes_are_put_one_behind_the_other(
    src: serde_json::Value,
    dst: serde_json::Value,
    w: serde_json::Value,
    k: Seq<char>,
)
    requires
        is_merged_index(src, dst, w),
        members(src) is Some && members(src)->0.contains_key("entries"@) && items(
            members(src)->0["entries"@],
        ) is Some,
        members(dst) is Some,
    ensures
        members(w) is Some && members(w)->0.contains_key("entries"@),
        members(dst)->0.contains_key("entries"@) && items(members(dst)->0["entries"@]) is Some
            ==> items(members(w)->0["entries"@]) == Some(
            items(members(dst)->0["entries"@])->0 + items(members(src)->0["entries"@])->0,
        ),
        !members(dst)->0.contains_key("entries"@) ==> items(members(w)->0["entries"@]) == items(
            members(src)->0["entries"@],
        ),
        k != "entries"@ ==> members(w)->0.contains_key(k) == members(dst)->0.contains_key(k),
        k != "entries"@ && members(dst)->0.contains_key(k) ==> members(w)->0[k]
            == members(dst)->0[k],
{
    let e = items(members(src)->0["entries"@])->0;
    assert(Seq::<serde_json::Value>::empty() + e =~= e);
}

/// What lies below a directory that goes elsewhere keeps its place below it.
pub proof fn law_entries_keep_their_places(src: Key, dst: Key, rest: Key)
    ensures
        place(src + rest, src, dst) == dst + rest,
        origin(dst + rest, src, dst) == src + rest,
{
    assert((src + rest).skip(src.len() as int) =~= rest);
    assert((dst + rest).skip(dst.len() as int) =~= rest);
}

/// A session file is looked for where it has gone: at the same place in the new data
/// directory.
pub proof fn law_sessions_are_followed(f: Seq<char>, old: Seq<char>, new: Seq<char>)
    requires
        old.len() > 0 && new.len() > 0,
        under(components(f), components(old)),
    ensures
        components(followed(f, old, new)) == components(new) + components(f).skip(
            components(old).len() as int,
        ),
{
    lemma_name_in(new, old, f);
}

/// A project's data directory is renamed to the encoded name of where the project goes,
/// unless it is called so already.
pub proof fn law_data_follows_the_project(state: ProjectState, target: Seq<char>, home: HomeView)
    requires
        target.len() > 0 && target[0] == '/',
    ensures
        ({
            let there = components(home.path).push("projects"@).push(encoded(target));
            let rename = rename_for(state, target, home);
            &&& state.global_project_dir is None ==> rename is None
            &&& state.global_project_dir matches Some(old) ==> {
                &&& rename is None <==> old.key() == there
                &&& rename is Some ==> (rename->0).0 == old@ && components((rename->0).1) == there
            }
        }),
{
    lemma_global_place(target, home.path);
}

/// The sessions of a project are its session files and its index.
pub proof fn law_sessions_are_files_and_index(state: ProjectState, i: int)
    ensures
        0 <= i < state.session_files@.len() ==> session_list(state).contains(
            state.session_files@[i]@,
        ),
        state.sessions_index matches Some(f) ==> session_list(state).contains(f@),
        session_list(state).len() == state.session_files@.len() + if state.sessions_index is Some {
            1int
        } else {
            0int
        },
{
    let list = session_list(state);
    if 0 <= i < state.session_files@.len() {
        assert(list[i] == state.session_files@[i]@);
    }
    if state.sessions_index is Some {
        assert(list[state.session_files@.len() as int] == state.sessions_index->0@);
    }
}

/// Reports are gathered step by step.
pub proof fn law_reports_are_gathered_in_turn(a: Seq<Outcome>, b: Seq<Outcome>, o: Outcome)
    ensures
        all_reports(a + b) == all_reports(a) + all_reports(b),
        all_reports(seq![o]) == o.1,
    decreases b.len(),
{
    reveal_with_fuel(all_reports, 2);
    assert(seq![o].drop_last() =~= Seq::empty());
    assert(all_reports(seq![o]) =~= o.1);
    if b.len() == 0 {
        assert(a + b =~= a);
        assert(all_reports(a + b) =~= all_reports(a) + all_reports(b));
    } else {
        assert((a + b).drop_last() =~= a + b.drop_last());
        law_reports_are_gathered_in_turn(a, b.drop_last(), o);
        assert(all_reports(a + b) =~= all_reports(a) + all_reports(b));
    }
}

/// An array that holds the four texts of a manifest in their order is read as that
/// manifest too.
pub proof fn law_manifest_is_read_by_its_order(data: Seq<u8>, m: ManifestView)
    requires
        valid_utf8(data),
        parsed(decode_utf8(data)) is Some,
        ({
            let v = parsed(decode_utf8(data))->0;
            &&& members(v) is None
            &&& items(v) is Some && items(v)->0.len() == 4
            &&& string_text(items(v)->0[0]) == Some(m.source)
            &&& string_text(items(v)->0[1]) == Some(m.home)
            &&& string_text(items(v)->0[2]) == Some(m.timestamp)
            &&& string_text(items(v)->0[3]) == Some(m.version)
        }),
    ensures
        manifest_in(data) == Some(m),
{
    let v = parsed(decode_utf8(data))->0;
    assert(lists(v, m));
    assert(is_manifest(data, m));
    let n = choose|n: ManifestView| is_manifest(data, n);
    assert(lists(v, n));
    assert(n == m);
}

/// What is no JSON text is no manifest, and what is wrong with it is said.
pub proof fn law_broken_manifest_is_explained(data: Seq<u8>, name: Seq<char>)
    ensures
        !valid_utf8(data) ==> manifest_in(data) is None && manifest_fault(data, name) == "reading "@
            + name,
        valid_utf8(data) ==> manifest_fault(data, name) == "parsing "@ + name,
        valid_utf8(data) && parsed(decode_utf8(data)) is None ==> manifest_in(data) is None,
{
}

/// A file goes nowhere only where it belongs to the data of a project without an
/// absolute path.
pub proof fn law_which_files_go_astray(m: ManifestView, rest: Seq<char>, name: Seq<char>)
    ensures
        is_astray(m, "global/"@ + rest) <==> !(m.source.len() > 0 && m.source[0] == '/'),
        !is_astray(m, "local/"@ + rest),
        m.source.len() > 0 && m.source[0] == '/' ==> !is_astray(m, name),
{
    reveal_strlit("global/");
    reveal_strlit("local/");
    let a = "global/"@ + rest;
    let b = "local/"@ + rest;
    assert(a.subrange(0, 7) =~= "global/"@);
    if text_at(b, 0, "global/"@) {
        assert(b.subrange(0, 7)[0] == "global/"@[0]);
        assert(b[0] == "local/"@[0]);
    }
}

/// Session entries can be put into an object and into `null`, and into nothing else.
pub proof fn law_what_takes_session_entries(v: serde_json::Value)
    ensures
        members(v) is Some ==> takes_entries(v),
        null(v) ==> takes_entries(v),
        members(v) is None && !null(v) ==> !takes_entries(v),
{
}

/// Where one of the two directories has no session index, no index is touched.
pub proof fn law_single_index_is_left_alone(
    a: FsView,
    b: FsView,
    src: Seq<char>,
    dst: Seq<char>,
    r: Result<(), Error>,
)
    requires
        index_step(a, b, src, dst, r),
        !a.present.contains(components(src).push("sessions-index.json"@)) || !a.present.contains(
            components(dst).push("sessions-index.json"@),
        ),
    ensures
        b == a,
        r is Ok,
{
    law_index_lies_in_its_directory(src);
    law_index_lies_in_its_directory(dst);
}

} // verus!
