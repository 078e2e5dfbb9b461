//! What the single steps of a run do, each by itself.

use vstd::prelude::*;

use crate::apply::dir_step;
use crate::apply::optional_step;
use crate::apply::rename_step;
use crate::apply::session_list;
use crate::apply::session_step;
use crate::apply::sessions_inside;
use crate::error::Error;
use crate::fs::apart;
use crate::fs::origin;
use crate::fs::FsView;
use crate::json::parsed;
use crate::keeping::law_sessions_are_followed;
use crate::migration::claude_json_step;
use crate::path::components;
use crate::path::under;
use crate::path::FilePath;
use crate::path::Key;
use crate::plan::Migration;
use crate::running::law_every_file_is_reported;
use crate::scanner::ProjectState;
use crate::substitution::matches_in;
use crate::substitution::replaced;
use crate::unit::Unit;
use crate::updater::file_step;
use crate::updater::keys_step;
use crate::updater::UpdateReport;

verus! {

/// A file that may not be there is rewritten and reported where it is, and is no concern
/// where it is not.
pub proof fn law_optional_files_are_reported(
    a: FsView,
    b: FsView,
    p: FilePath,
    m: Migration,
    reports: Seq<UpdateReport>,
)
    requires
        a.text(p.key()) is Some,
        m.dry_run || a.accepts.contains(p.key()),
        m.subs@.len() > 0,
        a.present.contains(p.key()),
    ensures
        optional_step(a, b, Some(p), m, reports) ==> {
            &&& reports.len() == 1
            &&& reports[0].file@ == p@
            &&& reports[0].replacements == matches_in(m.subs@, a.text(p.key())->0).len()
            &&& m.dry_run ==> b == a
            &&& !m.dry_run ==> b.text(p.key()) == Some(replaced(m.subs@, a.text(p.key())->0))
        },
        optional_step(a, b, None, m, reports) ==> b == a && reports.len() == 0,
{
    if optional_step(a, b, Some(p), m, reports) {
        let text = a.text(p.key())->0;
        let r = choose|r: Result<UpdateReport, Error>| #[trigger]
            file_step(a, b, p, m.subs@, m.dry_run, r) && reports == crate::apply::ok_reports(r);
        assert(r is Ok);
        let new = replaced(m.subs@, text);
        vstd::utf8::encode_utf8_valid_utf8(new);
        vstd::utf8::encode_utf8_decode_utf8(new);
        if matches_in(m.subs@, text).len() == 0 {
            lemma_nothing_to_replace(m.subs@, text);
        }
    }
}

proof fn lemma_nothing_to_replace(set: crate::substitution::Pairs, s: Seq<char>)
    requires
        matches_in(set, s).len() == 0,
    ensures
        replaced(set, s) == s,
{
    crate::substitution::law_replacement_is_one_pass(set, s);
    assert(s.subrange(0, s.len() as int) =~= s);
}

/// The registry is reported where it can be read.
pub proof fn law_registry_is_reported(
    a: FsView,
    b: FsView,
    p: FilePath,
    m: Migration,
    reports: Seq<UpdateReport>,
)
    requires
        claude_json_step(a, b, m, reports),
        m.claude_json == Some(p),
        a.text(p.key()) is Some,
        parsed(a.text(p.key())->0) is Some,
        m.dry_run || a.accepts.contains(p.key()),
    ensures
        reports.len() == 1,
        reports[0].file@ == p@,
        m.dry_run ==> b == a,
{
    let r = choose|r: Result<UpdateReport, Error>| #[trigger]
        keys_step(a, b, p, m.subs@, m.dry_run, r) && reports == crate::apply::ok_reports(r);
    assert(r is Ok);
}

/// Every session of a project is reported, in a dry run where it is, in any other where
/// it has gone with the data directory.
pub proof fn law_every_session_is_reported(
    a: FsView,
    b: FsView,
    m: Migration,
    state: ProjectState,
    dir: FilePath,
    new: Seq<char>,
    reports: Vec<UpdateReport>,
    i: int,
)
    requires
        state.global_project_dir == Some(dir),
        session_step(a, b, m, state, Some((dir@, new)), Ok::<Vec<UpdateReport>, Error>(reports)),
        dir@.len() > 0 && new.len() > 0,
        0 <= i < session_list(state).len(),
    ensures
        reports@.len() == session_list(state).len(),
        m.dry_run ==> reports@[i].file@ == session_list(state)[i],
        !m.dry_run ==> components(reports@[i].file@) == components(new) + components(
            session_list(state)[i],
        ).skip(dir.key().len() as int),
{
    let places = crate::apply::session_places(state, dir@, new, m.dry_run);
    let files = choose|files: Seq<FilePath>| #[trigger]
        crate::apply::files_at_step(
            a,
            b,
            files,
            places,
            m.subs@,
            m.dry_run,
            Ok::<Vec<UpdateReport>, Error>(reports),
        );
    assert(crate::fs::texts(files).len() == files.len());
    assert(places.len() == session_list(state).len());
    law_every_file_is_reported(a, b, files, m.subs@, m.dry_run, reports, i);
    assert(crate::fs::texts(files)[i] == places[i]);
    if !m.dry_run {
        assert(sessions_inside(state, dir@));
        let f = session_list(state)[i];
        assert(under(components(f), components(dir@)));
        law_sessions_are_followed(f, dir@, new);
    }
}

/// A data directory moves as a whole to where none is yet, and in a dry run it stays.
pub proof fn law_data_moves_as_a_whole(
    a: FsView,
    b: FsView,
    dry_run: bool,
    old: Seq<char>,
    new: Seq<char>,
    rest: Key,
)
    requires
        rename_step(a, b, dry_run, Some((old, new)), Ok::<(), Error>(())),
        a.dirs.contains(components(old)),
        !a.links.contains_key(components(old)),
        !a.dirs.contains(components(new)),
        apart(components(old), components(new)),
    ensures
        dry_run ==> b == a,
        !dry_run && a.file(components(old) + rest) is Some ==> {
            &&& b.file(components(new) + rest) == a.file(components(old) + rest)
            &&& b.file(components(old) + rest) is None
        },
{
    if !dry_run {
        lemma_moves(a, b, components(old), components(new), rest);
    }
}

/// So does a project directory; one that stays where it is or is not there is left
/// alone.
pub proof fn law_project_moves_as_a_whole(a: FsView, b: FsView, dry_run: bool, u: Unit, rest: Key)
    requires
        dir_step(a, b, dry_run, u, Ok::<(), Error>(())),
        !a.links.contains_key(u.source.key()),
        !a.dirs.contains(u.target.key()) || u.source.key() == u.target.key(),
        u.source.key() != u.target.key() ==> apart(u.source.key(), u.target.key()),
    ensures
        dry_run || u.source.key() == u.target.key() || !a.dirs.contains(u.source.key()) ==> b == a,
        !dry_run && u.source.key() != u.target.key() && a.dirs.contains(u.source.key()) && a.file(
            u.source.key() + rest,
        ) is Some ==> {
            &&& b.file(u.target.key() + rest) == a.file(u.source.key() + rest)
            &&& b.file(u.source.key() + rest) is None
        },
{
    if !dry_run && u.source.key() != u.target.key() && a.dirs.contains(u.source.key()) {
        lemma_moves(a, b, u.source.key(), u.target.key(), rest);
    }
}

proof fn lemma_moves(a: FsView, b: FsView, from: Key, to: Key, rest: Key)
    requires
        crate::fs::moved(a, b, from, to),
        a.dirs.contains(from),
        !a.links.contains_key(from),
        apart(from, to),
    ensures
        a.file(from + rest) is Some ==> b.file(to + rest) == a.file(from + rest) && b.file(
            from + rest,
        ) is None,
{
    let o = from + rest;
    let p = to + rest;
    assert(p.skip(to.len() as int) =~= rest);
    assert(p.subrange(0, to.len() as int) =~= to);
    assert(o.subrange(0, from.len() as int) =~= from);
    assert(origin(p, from, to) == o);
}

/// Where both directories are there, everything of the source comes to the target, a
/// file of the source in the place of one of the target, and what only the target has
/// stays.
pub proof fn law_projects_are_put_together(a: FsView, b: FsView, u: Unit, rest: Key)
    requires
        dir_step(a, b, false, u, Ok::<(), Error>(())),
        a.dirs.contains(u.source.key()) && a.dirs.contains(u.target.key()),
        apart(u.source.key(), u.target.key()),
        !crate::merge::is_behind(a, u.source.key(), u.source.key() + rest),
    ensures
        a.file(u.source.key() + rest) is Some ==> b.file(u.target.key() + rest) == a.file(
            u.source.key() + rest,
        ),
        a.file(u.source.key() + rest) is None ==> b.file(u.target.key() + rest) == a.file(
            u.target.key() + rest,
        ),
        b.file(u.source.key() + rest) is None,
{
    let src = u.source.key();
    let dst = u.target.key();
    assert(src != dst) by {
        assert(dst.is_prefix_of(dst));
    }
    crate::merge::law_merge_loses_nothing(a, b, src, dst);
    crate::keeping::law_entries_keep_their_places(src, dst, rest);
    assert((src + rest).subrange(0, src.len() as int) =~= src);
    assert((dst + rest).subrange(0, dst.len() as int) =~= dst);
}

/// A session outside the data directory stops the project before its sessions are
/// touched, but not in a dry run.
pub proof fn law_sessions_have_to_lie_inside(
    a: FsView,
    b: FsView,
    m: Migration,
    state: ProjectState,
    dir: FilePath,
    new: Seq<char>,
    r: Result<Vec<UpdateReport>, Error>,
    i: int,
)
    requires
        state.global_project_dir == Some(dir),
        session_step(a, b, m, state, Some((dir@, new)), r),
        !m.dry_run,
        0 <= i < session_list(state).len(),
        !under(components(session_list(state)[i]), dir.key()),
    ensures
        b == a,
        r matches Err(e) && e is SessionOutside,
{
    assert(!sessions_inside(state, dir@));
}

} // verus!
