//! Which projects are registered, what their data says of them, and whether a directory
//! can be moved.

use vstd::prelude::*;

use crate::error::Error;
use crate::fs::renamable;
use crate::fs::rename_error;
use crate::fs::FsView;
use crate::home::HomeView;
use crate::json::is_key_list;
use crate::json::key_list;
use crate::json::lemma_key_list;
use crate::json::members;
use crate::json::parsed;
use crate::json::projects;
use crate::links::list_unreadable;
use crate::links::registered;
use crate::merge::index_path;
use crate::order::lemma_text_lt_total;
use crate::order::lemma_text_lt_transitive;
use crate::order::text_lt;
use crate::path::components;
use crate::path::dot;
use crate::path::is_plain;
use crate::path::lemma_components_join_name;
use crate::path::FilePath;
use crate::path::Key;
use crate::path_map::relocated;
use crate::scanner::consistent;
use crate::scanner::fault_of;
use crate::scanner::mentions;
use crate::spelling::is_entry_name;
use crate::text::split;
use crate::unit::first_fault;
use crate::unit::keys_of_file;

verus! {

/// The texts come in ascending order, none twice.
pub open spec fn is_ascending(list: Seq<Seq<char>>) -> bool {
    forall|i: int, j: int|
        0 <= i < j < list.len() ==> text_lt(#[trigger] list[i], #[trigger] list[j])
}

proof fn lemma_insert_ascending(x: Seq<char>, s: Seq<Seq<char>>) -> (r: Seq<Seq<char>>)
    requires
        is_ascending(s),
        !s.contains(x),
    ensures
        is_ascending(r),
        forall|k: Seq<char>| #[trigger] r.contains(k) <==> k == x || s.contains(k),
    decreases s.len(),
{
    if s.len() > 0 && text_lt(s[0], x) {
        let rest = s.drop_first();
        assert(is_ascending(rest)) by {
            assert forall|i: int, j: int| 0 <= i < j < rest.len() implies text_lt(
                #[trigger] rest[i],
                #[trigger] rest[j],
            ) by {
                assert(text_lt(s[i + 1], s[j + 1]));
            }
        }
        assert(!rest.contains(x)) by {
            if rest.contains(x) {
                let i = choose|i: int| 0 <= i < rest.len() && rest[i] == x;
                assert(s[i + 1] == x);
            }
        }
        let tail = lemma_insert_ascending(x, rest);
        let r = seq![s[0]] + tail;
        assert forall|i: int, j: int| 0 <= i < j < r.len() implies text_lt(
            #[trigger] r[i],
            #[trigger] r[j],
        ) by {
            assert(r[j] == tail[j - 1]);
            if i == 0 {
                assert(tail.contains(tail[j - 1]));
                if tail[j - 1] != x {
                    assert(rest.contains(tail[j - 1]));
                    let m = choose|m: int| 0 <= m < rest.len() && rest[m] == tail[j - 1];
                    assert(text_lt(s[0], s[m + 1]));
                }
            } else {
                assert(r[i] == tail[i - 1]);
            }
        }
        assert forall|k: Seq<char>| #[trigger] r.contains(k) <==> k == x || s.contains(k) by {
            if r.contains(k) {
                let i = choose|i: int| 0 <= i < r.len() && r[i] == k;
                if i > 0 {
                    assert(tail[i - 1] == k);
                    assert(tail.contains(k));
                    if k != x {
                        let m = choose|m: int| 0 <= m < rest.len() && rest[m] == k;
                        assert(s[m + 1] == k);
                    }
                } else {
                    assert(s[0] == k);
                }
            }
            if k == x || s.contains(k) {
                if k == s[0] {
                    assert(r[0] == k);
                } else {
                    if k != x {
                        let m = choose|m: int| 0 <= m < s.len() && s[m] == k;
                        assert(rest[m - 1] == k);
                    }
                    assert(tail.contains(k));
                    let i = choose|i: int| 0 <= i < tail.len() && tail[i] == k;
                    assert(r[i + 1] == k);
                }
            }
        }
        r
    } else {
        let r = seq![x] + s;
        assert forall|i: int, j: int| 0 <= i < j < r.len() implies text_lt(
            #[trigger] r[i],
            #[trigger] r[j],
        ) by {
            assert(r[j] == s[j - 1]);
            if i == 0 {
                assert(s.contains(s[0]));
                lemma_text_lt_total(s[0], x);
                if j > 1 {
                    assert(text_lt(s[0], s[j - 1]));
                    lemma_text_lt_transitive(x, s[0], s[j - 1]);
                }
            } else {
                assert(text_lt(s[i - 1], s[j - 1]));
            }
        }
        assert forall|k: Seq<char>| #[trigger] r.contains(k) <==> k == x || s.contains(k) by {
            if r.contains(k) {
                let i = choose|i: int| 0 <= i < r.len() && r[i] == k;
                if i > 0 {
                    assert(s[i - 1] == k);
                }
            }
            if k == x {
                assert(r[0] == k);
            } else if s.contains(k) {
                let m = choose|m: int| 0 <= m < s.len() && s[m] == k;
                assert(r[m + 1] == k);
            }
        }
        r
    }
}

proof fn lemma_list_of(keys: Set<Seq<char>>) -> (list: Seq<Seq<char>>)
    requires
        keys.finite(),
    ensures
        is_ascending(list),
        forall|k: Seq<char>| #[trigger] list.contains(k) <==> keys.contains(k),
    decreases keys.len(),
{
    if keys.len() == 0 {
        assert(keys =~= Set::empty());
        Seq::empty()
    } else {
        let x = keys.choose();
        let before = lemma_list_of(keys.remove(x));
        assert(!before.contains(x));
        lemma_insert_ascending(x, before)
    }
}

/// The keys of an object are listed in ascending order, all of them and each once.
pub proof fn law_keys_are_listed(m: Map<Seq<char>, serde_json::Value>, k: Seq<char>)
    requires
        m.dom().finite(),
    ensures
        key_list(m).contains(k) <==> m.contains_key(k),
        is_ascending(key_list(m)),
{
    let list = lemma_list_of(m.dom());
    assert(is_key_list(list, m)) by {
        assert forall|k: Seq<char>| #[trigger] m.contains_key(k) <==> list.contains(k) by {
            assert(list.contains(k) <==> m.dom().contains(k));
        }
    }
    lemma_key_list(list, m);
    assert(is_key_list(key_list(m), m));
}

/// The registered projects are the keys of the member `projects` of the registry where
/// that is an object, and else the keys of the registry itself.
pub proof fn law_registered_projects_are_read(
    v: FsView,
    p: FilePath,
    root: serde_json::Value,
    k: Seq<char>,
)
    requires
        v.text(p.key()) is Some,
        parsed(v.text(p.key())->0) == Some(root),
        members(root) is Some ==> members(root)->0.dom().finite(),
        members(root) is Some && members(root)->0.contains_key("projects"@) && members(
            members(root)->0["projects"@],
        ) is Some ==> members(members(root)->0["projects"@])->0.dom().finite(),
    ensures
        ({
            let keys = keys_of_file(v, Some(p));
            &&& keys is Some
            &&& members(root) is None ==> keys->0.len() == 0
            &&& members(root) matches Some(all) ==> {
                if all.contains_key("projects"@) && members(all["projects"@]) is Some {
                    keys->0.contains(k) <==> members(all["projects"@])->0.contains_key(k)
                } else {
                    keys->0.contains(k) <==> all.contains_key(k)
                }
            }
            &&& v.present.contains(p.key()) ==> registered(v, Some(p)) == keys->0
        }),
{
    if projects(root) is Some {
        law_keys_are_listed(projects(root)->0, k);
    }
}

/// Without a registry no project is registered, and one that cannot be read is an error.
pub proof fn law_missing_registry_registers_nothing(v: FsView, p: FilePath)
    ensures
        keys_of_file(v, None) == Some(Seq::<Seq<char>>::empty()),
        v.text(p.key()) is None ==> keys_of_file(v, Some(p)) is None,
        v.text(p.key()) is Some && parsed(v.text(p.key())->0) is None ==> keys_of_file(v, Some(p))
            is None,
        registered(v, None).len() == 0,
        !v.present.contains(p.key()) ==> registered(v, Some(p)).len() == 0,
{
}

/// A run that looks for links is stopped by a registry that is there and cannot be read.
pub proof fn law_unreadable_registry_stops_the_search(v: FsView, p: FilePath)
    ensures
        !list_unreadable(v, None),
        !v.present.contains(p.key()) ==> !list_unreadable(v, Some(p)),
        v.present.contains(p.key()) && v.text(p.key()) is None ==> list_unreadable(v, Some(p)),
        v.present.contains(p.key()) && v.text(p.key()) is Some ==> (list_unreadable(v, Some(p))
            <==> parsed(v.text(p.key())->0) is None),
{
}

/// The data of a project is consistent where its first session names the project, or,
/// with no session to read, its index does. Without either there is nothing to object to.
pub proof fn law_data_has_to_name_its_project(
    v: FsView,
    p: Seq<char>,
    first: Seq<char>,
    more: Seq<Seq<char>>,
    index: Seq<char>,
    sessions: Seq<Seq<char>>,
)
    requires
        sessions.len() == 0 || v.text(components(sessions[0])) is None,
    ensures
        v.text(components(first)) matches Some(text) ==> (consistent(
            v,
            p,
            seq![first] + more,
            None,
        ) <==> mentions(text, p)),
        v.text(components(first)) matches Some(text) ==> (consistent(
            v,
            p,
            seq![first] + more,
            Some(index),
        ) <==> mentions(text, p)),
        v.text(components(index)) matches Some(text) ==> (consistent(
            v,
            p,
            sessions,
            Some(index),
        ) <==> mentions(text, p)),
        v.text(components(index)) is None ==> consistent(v, p, sessions, Some(index)),
        consistent(v, p, sessions, None),
{
    assert((seq![first] + more)[0] == first);
}

/// Of several projects, the first that cannot be scanned is reported, and none where all
/// of them can.
pub proof fn law_first_fault_is_reported(
    v: FsView,
    good: Seq<Seq<char>>,
    bad: Seq<char>,
    more: Seq<Seq<char>>,
    home: HomeView,
)
    requires
        forall|i: int| 0 <= i < good.len() ==> fault_of(v, #[trigger] good[i], home) is None,
        fault_of(v, bad, home) is Some,
    ensures
        first_fault(v, good, home) is None,
        first_fault(v, good + seq![bad] + more, home) == fault_of(v, bad, home),
    decreases good.len() + more.len(),
{
    if more.len() > 0 {
        let init = more.drop_last();
        law_first_fault_is_reported(v, good, bad, init, home);
        assert((good + seq![bad] + more).drop_last() =~= good + seq![bad] + init);
    } else {
        assert(good + seq![bad] + more =~= good.push(bad));
        assert(good.push(bad).drop_last() =~= good);
        if good.len() > 0 {
            let init = good.drop_last();
            assert forall|i: int| 0 <= i < init.len() implies fault_of(
                v,
                #[trigger] init[i],
                home,
            ) is None by {
                assert(init[i] == good[i]);
            }
            law_first_fault_is_reported(v, init, bad, more, home);
            assert(fault_of(v, good[good.len() - 1], home) is None);
        }
    }
}

/// A directory can be moved to a place in another directory exactly where that directory
/// is there, on the same device, and can be written to.
pub proof fn law_what_can_be_renamed(v: FsView, from: Key, dir: Key, n: Seq<char>)
    requires
        is_entry_name(n),
    ensures
        renamable(v, from, dir.push(n)) <==> {
            &&& v.dirs.contains(dir)
            &&& v.device.contains_key(from) && v.device.contains_key(dir)
            &&& v.device[from] == v.device[dir]
            &&& v.writable.contains(dir)
        },
{
    assert(dir.push(n).drop_last() =~= dir);
    assert(n != crate::path::slash()) by {
        assert(crate::path::slash()[0] == '/');
        assert(n.contains(n[0]));
    }
}

/// What is said of a move that cannot be made: that the directory it goes to is missing,
/// or that it lies on another file system.
pub proof fn law_failed_renames_are_explained(v: FsView, from: FilePath, to: FilePath, e: Error)
    requires
        rename_error(e, v, from, to),
        to.key().len() > 0 && is_entry_name(to.key().last()),
    ensures
        !v.dirs.contains(to.key().drop_last()) ==> e is MissingDirectory,
        v.dirs.contains(to.key().drop_last()) && v.device.contains_key(from.key())
            && v.device.contains_key(to.key().drop_last()) && v.device[from.key()]
            != v.device[to.key().drop_last()] ==> (e matches Error::CrossFilesystem(a, _) && a
            == from),
        e is MissingDirectory ==> !v.dirs.contains(to.key().drop_last()),
        e is CrossFilesystem ==> v.device[from.key()] != v.device[to.key().drop_last()],
{
    let n = to.key().last();
    assert(n != crate::path::slash()) by {
        assert(crate::path::slash()[0] == '/');
        assert(n.contains(n[0]));
    }
}

/// The pieces of a text hold no separator, and put together again with separators
/// between them they are the text.
pub proof fn law_pieces_make_up_the_text(a: Seq<char>, sep: char, b: Seq<char>)
    requires
        !a.contains(sep),
    ensures
        split(a, sep) == seq![a],
        split(a + seq![sep] + b, sep) == seq![a] + split(b, sep),
{
    crate::text::lemma_split_single(a, sep);
    crate::text::lemma_split_concat(a, sep, b);
    assert(a.push(sep) + b =~= a + seq![sep] + b);
}

/// What is kept by path moves with its directory: below the new place is what was below
/// the old one, nothing is left there, and nothing else changes.
pub proof fn law_entries_are_relocated<V>(
    m: Map<Key, V>,
    from: Key,
    to: Key,
    rest: Key,
    q: Key,
)
    requires
        !crate::path::under(from, to) && !crate::path::under(to, from),
        !crate::path::under(q, from) && !crate::path::under(q, to),
    ensures
        m.contains_key(from + rest) ==> relocated(m, from, to).contains_key(to + rest)
            && relocated(m, from, to)[to + rest] == m[from + rest],
        !relocated(m, from, to).contains_key(from + rest),
        relocated(m, from, to).contains_key(q) == m.contains_key(q),
        m.contains_key(q) ==> relocated(m, from, to)[q] == m[q],
{
    assert((to + rest).skip(to.len() as int) =~= rest);
    assert((to + rest).subrange(0, to.len() as int) =~= to);
    assert((from + rest).subrange(0, from.len() as int) =~= from);
    if crate::path::under(from + rest, to) {
        assert((from + rest).subrange(0, to.len() as int) == to);
        if to.len() <= from.len() {
            assert(from.subrange(0, to.len() as int) =~= to);
        } else {
            assert(to.subrange(0, from.len() as int) =~= from);
        }
    }
}

/// The session index of a data directory is the file in it with that name.
pub proof fn law_index_lies_in_its_directory(dir: Seq<char>)
    ensures
        components(index_path(dir)) == components(dir).push("sessions-index.json"@),
{
    reveal_strlit("sessions-index.json");
    let n = "sessions-index.json"@;
    assert(is_plain(n)) by {
        assert(dot().len() == 1);
        assert forall|i: int| 0 <= i < n.len() implies n[i] != '/' by {}
    }
    lemma_components_join_name(dir, n);
}

} // verus!
