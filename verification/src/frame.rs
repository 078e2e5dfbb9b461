//! What a run leaves alone.

use vstd::prelude::*;
use vstd::string::*;

use crate::apply::active;
use crate::apply::all_reports;
use crate::apply::below_cut;
use crate::apply::dir_cut;
use crate::apply::dir_step;
use crate::apply::optional_step;
use crate::apply::project_step;
use crate::apply::project_trace;
use crate::apply::references_trace;
use crate::apply::sessions_fail;
use crate::apply::sessions_step;
use crate::apply::sessions_trace;
use crate::apply::subprojects_cut;
use crate::apply::subprojects_fail;
use crate::apply::subprojects_trace;
use crate::apply::unit_fail;
use crate::apply::unit_step;
use crate::apply::unit_trace;
use crate::apply::units_trace;
use crate::apply::work_cut;
use crate::apply::work_fail;
use crate::apply::work_step;
use crate::apply::ChainTrace;
use crate::apply::GlobalRename;
use crate::apply::Outcome;
use crate::apply::ProjectTrace;
use crate::apply::UnitTrace;
use crate::backup::backup_dir;
use crate::backup::made_room;
use crate::error::Error;
use crate::fs::kept_at;
use crate::fs::replaced_file;
use crate::fs::same_entry;
use crate::fs::texts;
use crate::fs::unchanged_at;
use crate::fs::FsView;
use crate::home::HomeView;
use crate::laws::law_dry_run_changes_nothing;
use crate::laws::lemma_all_backups_quiet;
use crate::laws::lemma_joined_under;
use crate::laws::lemma_sessions_quiet;
use crate::laws::lemma_shared_quiet;
use crate::laws::lemma_stopped_backups_quiet;
use crate::laws::lemma_stopped_sessions_quiet;
use crate::laws::lemma_under_under;
use crate::laws::off_data;
use crate::links::is_candidate;
use crate::links::LinkCandidate;
use crate::migration::all_settled;
use crate::migration::backups_fail;
use crate::migration::check_stops;
use crate::migration::goes_through;
use crate::migration::is_prepared;
use crate::migration::optional_log;
use crate::migration::ran;
use crate::migration::run_trace;
use crate::migration::run_work;
use crate::migration::stops;
use crate::migration::work_stops;
use crate::migration::MigrationReport;
use crate::migration::RunTrace;
use crate::path::components;
use crate::path::is_plain;
use crate::path::join_text;
use crate::path::lemma_components_concat;
use crate::path::under;
use crate::path::FilePath;
use crate::path::Key;
use crate::plan::all_absolute;
use crate::plan::are_candidates;
use crate::plan::same_move;
use crate::plan::searched;
use crate::plan::Migration;
use crate::relink::alive;
use crate::relink::artifact_path;
use crate::relink::lemma_artifact_place;
use crate::relink::link_place;
use crate::relink::link_step;
use crate::relink::link_text;
use crate::relink::log_written;
use crate::relink::relink_trace;
use crate::relink::repoint_step;
use crate::relink::RelinkFailure;
use crate::relink::RelinkLogEntry;
use crate::relink::RelinkTrace;
use crate::scanner::describes;
use crate::scanner::ProjectState;
use crate::substitution::rebased;
use crate::substitution::Pairs;
use crate::unit::is_subproject;
use crate::unit::keys_of_file;
use crate::unit::subproject_keys;
use crate::unit::Unit;
use crate::updater::UpdateReport;

verus! {

/// Where a link at `link` is after the moves.
pub open spec fn moved_place(subs: Pairs, link: Seq<char>) -> Seq<char> {
    match rebased(subs, link) {
        Some(p) => p,
        None => link,
    }
}

/// The path `q` lies in no place that the run works on: neither among the global
/// directories or the backups nor in a project that moves, before or after, nor
/// behind a link that is repointed.
pub open spec fn lies_apart(q: Key, m: Migration, v: FsView) -> bool {
    &&& off_data(q, m.claude_home@.path)
    &&& in_no_project(q, m)
    &&& behind_no_link(q, m, v)
}

/// The path `q` lies in no project that moves, before or after.
pub open spec fn in_no_project(q: Key, m: Migration) -> bool {
    forall|i: int|
        0 <= i < m.units@.len() ==> !under(q, (#[trigger] m.units@[i]).source.key()) && !under(
            q,
            m.units@[i].target.key(),
        )
}

/// The path `q` lies in no place that the run works on, and it is no file that
/// all projects share.
pub open spec fn lies_elsewhere(q: Key, m: Migration, v: FsView) -> bool {
    &&& lies_apart(q, m, v)
    &&& (m.history_jsonl matches Some(p) ==> p.key() != q)
    &&& (m.claude_json matches Some(p) ==> p.key() != q)
}

/// The path `q` does not lie behind a link that is repointed.
pub open spec fn behind_no_link(q: Key, m: Migration, v: FsView) -> bool {
    m.relink ==> forall|link: Seq<char>| #[trigger]
        is_candidate(v, link, m.subs@) ==> !under(q, components(moved_place(m.subs@, link)))
}

/// The state of each unit is what was found at its source, or at its target
/// where nothing is left at the source.
pub open spec fn units_found(m: Migration, v: FsView) -> bool {
    forall|i: int|
        0 <= i < m.units@.len() ==> describes(
            (#[trigger] m.units@[i]).state,
            v,
            m.units@[i].source@,
            m.claude_home@,
        ) || describes(m.units@[i].state, v, m.units@[i].target@, m.claude_home@)
}

/// The state was found somewhere, and `q` is neither of the files in the project
/// that are rewritten.
pub(crate) open spec fn away(state: ProjectState, v: FsView, home: HomeView, q: Key) -> bool {
    &&& exists|p: Seq<char>| #[trigger] describes(state, v, p, home)
    &&& state.settings_json matches Some(p) ==> p.key() != q
    &&& state.mcp_json matches Some(p) ==> p.key() != q
}

/// What lies outside of a project is none of its files.
pub(crate) proof fn lemma_away(state: ProjectState, v: FsView, p: Seq<char>, home: HomeView, q: Key)
    requires
        describes(state, v, p, home),
        p.len() > 0,
        is_plain(home.local_dir),
        !under(q, components(p)),
    ensures
        away(state, v, home, q),
{
    let local = join_text(p, home.local_dir);
    let settings = join_text(local, "settings.json"@);
    let mcp = join_text(p, ".mcp.json"@);
    reveal_strlit("settings.json");
    reveal_strlit(".mcp.json");
    assert(home.local_dir.contains(home.local_dir[0]));
    lemma_joined_under(p, home.local_dir);
    lemma_joined_under(local, "settings.json"@);
    lemma_joined_under(p, ".mcp.json"@);
    lemma_under_under(components(settings), components(local), components(p));
}

/// Nothing that a run does to the data directory reaches `q`.
pub(crate) open spec fn outside(q: Key, m: Migration) -> bool {
    &&& !m.dry_run
    &&& m.claude_home@.path.len() > 0
    &&& off_data(q, m.claude_home@.path)
}

pub(crate) proof fn lemma_optional_quiet(
    a: FsView,
    b: FsView,
    path: Option<FilePath>,
    m: Migration,
    reports: Seq<UpdateReport>,
    q: Key,
)
    requires
        optional_step(a, b, path, m, reports),
        path matches Some(p) ==> p.key() != q,
    ensures
        unchanged_at(a, b, q),
{
}

/// Migrating a project touches nothing outside of it and the data directory.
proof fn lemma_project_quiet(
    a: FsView,
    b: FsView,
    m: Migration,
    state: ProjectState,
    target: Seq<char>,
    out: Outcome,
    v: FsView,
    q: Key,
)
    requires
        project_step(a, b, m, state, target, out),
        outside(q, m),
        away(state, v, m.claude_home@, q),
    ensures
        unchanged_at(a, b, q),
{
    let home = m.claude_home@;
    let p = choose|p: Seq<char>| #[trigger] describes(state, v, p, home);
    let t = choose|t: ProjectTrace| #[trigger] project_trace(t, a, b, m, state, target, out);
    lemma_sessions_quiet(t, a, m, state, target, out.0, v, p, q);
    lemma_optional_quiet(t.sessions, t.settings, state.settings_json, m, t.settings_reports, q);
    lemma_optional_quiet(t.settings, b, state.mcp_json, m, t.mcp_reports, q);
}

/// Nor do those below it.
proof fn lemma_below_quiet(
    t: ChainTrace,
    m: Migration,
    subs: Seq<(ProjectState, FilePath)>,
    v: FsView,
    q: Key,
    n: int,
)
    requires
        subprojects_trace(t, m, subs),
        outside(q, m),
        forall|i: int|
            0 <= i < subs.len() ==> away((#[trigger] subs[i]).0, v, m.claude_home@, q),
        0 <= n <= t.outs.len(),
    ensures
        unchanged_at(t.vs[0], t.vs[n], q),
    decreases n,
{
    if n > 0 {
        lemma_below_quiet(t, m, subs, v, q, n - 1);
        let i = n - 1;
        let out = t.outs[i];
        assert(project_step(t.vs[i], t.vs[i + 1], m, subs[i].0, subs[i].1@, out));
        assert(away(subs[i].0, v, m.claude_home@, q));
        lemma_project_quiet(t.vs[i], t.vs[n], m, subs[i].0, subs[i].1@, out, v, q);
    }
}

/// Sessions that stop on the way touch nothing outside of the data directory.
proof fn lemma_stopped_quiet(
    a: FsView,
    b: FsView,
    m: Migration,
    state: ProjectState,
    target: Seq<char>,
    e: Error,
    v: FsView,
    q: Key,
)
    requires
        sessions_fail(a, b, m, state, target, e),
        outside(q, m),
        away(state, v, m.claude_home@, q),
    ensures
        unchanged_at(a, b, q),
{
    let p = choose|p: Seq<char>| #[trigger] describes(state, v, p, m.claude_home@);
    lemma_stopped_sessions_quiet(a, b, m, state, target, e, v, p, q);
}

/// Moving the directory of a unit touches nothing outside of its two places.
pub(crate) proof fn lemma_dir_quiet(
    a: FsView,
    b: FsView,
    dry_run: bool,
    u: Unit,
    r: Result<(), Error>,
    q: Key,
)
    requires
        dir_step(a, b, dry_run, u, r),
        !under(q, u.source.key()),
        !under(q, u.target.key()),
    ensures
        unchanged_at(a, b, q),
{
    if b != a {
        assert(same_entry(a, b, q));
    }
}

/// The unit and those below it were found somewhere, and `q` is none of the files
/// in them that are rewritten.
pub(crate) open spec fn unit_spares(u: Unit, v: FsView, home: HomeView, q: Key) -> bool {
    &&& away(u.state, v, home, q)
    &&& forall|i: int|
        0 <= i < u.subprojects@.len() ==> away((#[trigger] u.subprojects@[i]).0, v, home, q)
}

/// So it is, and the unit moves between paths that `q` does not lie below.
pub(crate) open spec fn unit_away(u: Unit, v: FsView, home: HomeView, q: Key) -> bool {
    &&& unit_spares(u, v, home, q)
    &&& !under(q, u.source.key())
    &&& !under(q, u.target.key())
}

pub(crate) proof fn lemma_unit_quiet(
    a: FsView,
    b: FsView,
    m: Migration,
    u: Unit,
    out: Outcome,
    v: FsView,
    q: Key,
)
    requires
        unit_step(a, b, m, u, out),
        outside(q, m),
        unit_away(u, v, m.claude_home@, q),
    ensures
        unchanged_at(a, b, q),
{
    if m.session_only {
        let p = choose|p: Seq<char>| #[trigger] describes(u.state, v, p, m.claude_home@);
        let reports = choose|reports: Vec<UpdateReport>| #[trigger]
            sessions_step(a, b, m, u.state, u.target@, out.0, reports) && out.1 == reports@;
        let t = choose|t: ProjectTrace| #[trigger]
            sessions_trace(t, a, m, u.state, u.target@, out.0) && t.sessions == b
                && t.session_reports == reports;
        lemma_sessions_quiet(t, a, m, u.state, u.target@, out.0, v, p, q);
    } else {
        let t = choose|t: UnitTrace| #[trigger] unit_trace(t, a, b, m, u, out);
        lemma_references_quiet(t, a, m, u, out, v, q);
        lemma_dir_quiet(t.subprojects, b, m.dry_run, u, Ok(()), q);
    }
}

pub(crate) proof fn lemma_references_quiet(
    t: UnitTrace,
    a: FsView,
    m: Migration,
    u: Unit,
    out: Outcome,
    v: FsView,
    q: Key,
)
    requires
        references_trace(t, a, m, u, out),
        outside(q, m),
        unit_spares(u, v, m.claude_home@, q),
    ensures
        unchanged_at(a, t.subprojects, q),
{
    lemma_project_quiet(a, t.project, m, u.state, u.target@, (out.0, t.reports), v, q);
    lemma_below_quiet(t.chain, m, u.subprojects@, v, q, t.chain.outs.len() as int);
}

proof fn lemma_stopped_unit_quiet(
    a: FsView,
    b: FsView,
    m: Migration,
    u: Unit,
    e: Error,
    v: FsView,
    q: Key,
)
    requires
        unit_fail(a, b, m, u, e),
        outside(q, m),
        unit_away(u, v, m.claude_home@, q),
    ensures
        unchanged_at(a, b, q),
{
    if sessions_fail(a, b, m, u.state, u.target@, e) {
        lemma_stopped_quiet(a, b, m, u.state, u.target@, e, v, q);
    } else if exists|mid: FsView, out: Outcome| #[trigger] below_cut(a, mid, b, m, u, out, e) {
        let (mid, out) = choose|mid: FsView, out: Outcome| #[trigger]
            below_cut(a, mid, b, m, u, out, e);
        lemma_project_quiet(a, mid, m, u.state, u.target@, out, v, q);
        let subs = u.subprojects@;
        assert(subprojects_fail(mid, b, m, subs, e));
        let t = choose|t: ChainTrace| #[trigger] subprojects_cut(t, b, m, subs, e) && t.vs[0] == mid;
        let n = t.outs.len() as int;
        lemma_below_quiet(t, m, subs, v, q, n);
        assert(away(subs[n].0, v, m.claude_home@, q));
        lemma_stopped_quiet(t.vs.last(), b, m, subs[n].0, subs[n].1@, e, v, q);
    } else {
        let (t, out) = choose|t: UnitTrace, out: Outcome| #[trigger]
            dir_cut(t, a, b, m, u, out, e);
        lemma_references_quiet(t, a, m, u, out, v, q);
        lemma_dir_quiet(t.subprojects, b, m.dry_run, u, Err(e), q);
    }
}

proof fn lemma_units_quiet(
    t: ChainTrace,
    m: Migration,
    units: Seq<Unit>,
    v: FsView,
    q: Key,
    n: int,
)
    requires
        units_trace(t, m, units),
        outside(q, m),
        forall|i: int|
            0 <= i < units.len() ==> unit_away(#[trigger] units[i], v, m.claude_home@, q),
        0 <= n <= t.outs.len(),
    ensures
        unchanged_at(t.vs[0], t.vs[n], q),
    decreases n,
{
    if n > 0 {
        lemma_units_quiet(t, m, units, v, q, n - 1);
        let i = n - 1;
        let out = t.outs[i];
        assert(unit_step(t.vs[i], t.vs[i + 1], m, units[i], out));
        assert(unit_away(units[i], v, m.claude_home@, q));
        lemma_unit_quiet(t.vs[i], t.vs[n], m, units[i], out, v, q);
    }
}

/// Every unit of the run stays away from `q`.
pub(crate) open spec fn all_away(m: Migration, v: FsView, q: Key) -> bool {
    forall|i: int|
        0 <= i < m.units@.len() ==> unit_away(#[trigger] m.units@[i], v, m.claude_home@, q)
}

proof fn lemma_active_away(m: Migration, v: FsView, q: Key, i: int)
    requires
        all_away(m, v, q),
        0 <= i < active(m.units@).len(),
    ensures
        unit_away(active(m.units@)[i], v, m.claude_home@, q),
{
    let units = active(m.units@);
    let f = |u: Unit| !u.nothing_to_do;
    assert(units.contains(units[i]));
    m.units@.lemma_filter_contains_rev(f, units[i]);
    let j = choose|j: int| 0 <= j < m.units@.len() && m.units@[j] == units[i];
    assert(unit_away(m.units@[j], v, m.claude_home@, q));
}

proof fn lemma_work_quiet(
    a: FsView,
    b: FsView,
    m: Migration,
    renames: Seq<Option<GlobalRename>>,
    reports: Seq<UpdateReport>,
    v: FsView,
    q: Key,
)
    requires
        work_step(a, b, m, renames, reports),
        outside(q, m),
        all_away(m, v, q),
    ensures
        unchanged_at(a, b, q),
{
    let units = active(m.units@);
    assert forall|i: int| 0 <= i < units.len() implies unit_away(
        #[trigger] units[i],
        v,
        m.claude_home@,
        q,
    ) by {
        lemma_active_away(m, v, q, i);
    }
    let w = choose|w: ChainTrace| #[trigger]
        units_trace(w, m, active(m.units@)) && w.vs[0] == a && w.vs.last() == b && renames
            == w.outs.map_values(|o: Outcome| o.0) && reports == all_reports(w.outs);
    lemma_units_quiet(w, m, units, v, q, w.outs.len() as int);
}

proof fn lemma_stopped_work_quiet(
    a: FsView,
    b: FsView,
    m: Migration,
    e: Error,
    v: FsView,
    q: Key,
)
    requires
        work_fail(a, b, m, e),
        outside(q, m),
        all_away(m, v, q),
    ensures
        unchanged_at(a, b, q),
{
    let w = choose|w: ChainTrace| #[trigger] work_cut(w, b, m, e) && w.vs[0] == a;
    let n = w.outs.len() as int;
    let units = active(m.units@).take(n);
    assert forall|i: int| 0 <= i < units.len() implies unit_away(
        #[trigger] units[i],
        v,
        m.claude_home@,
        q,
    ) by {
        lemma_active_away(m, v, q, i);
    }
    lemma_units_quiet(w, m, units, v, q, n);
    lemma_active_away(m, v, q, n);
    lemma_stopped_unit_quiet(w.vs.last(), b, m, active(m.units@)[n], e, v, q);
}

proof fn lemma_links_quiet(t: RelinkTrace, subs: Pairs, list: Seq<LinkCandidate>, q: Key, n: int)
    requires
        relink_trace(t, subs, list),
        forall|i: int|
            0 <= i < list.len() ==> !under(q, components(link_place(subs, #[trigger] list[i]))),
        0 <= n <= t.oks.len(),
    ensures
        unchanged_at(t.vs[0], t.vs[n], q),
    decreases n,
{
    if n > 0 {
        lemma_links_quiet(t, subs, list, q, n - 1);
        let i = n - 1;
        let ok = t.oks[i];
        assert(link_step(
            t.vs[i],
            t.vs[i + 1],
            components(link_place(subs, list[i])),
            link_text(subs, list[i]),
            ok,
        ));
        if ok {
            assert(same_entry(t.vs[i], t.vs[n], q));
        }
    }
}

/// Repointing links reaches no file that lies behind none of them.
pub(crate) proof fn lemma_repoint_quiet(
    a: FsView,
    b: FsView,
    m: Migration,
    c: Seq<LinkCandidate>,
    entries: Seq<RelinkLogEntry>,
    failures: Seq<RelinkFailure>,
    v: FsView,
    q: Key,
)
    requires
        repoint_step(a, b, m, c, entries, failures),
        are_candidates(c, v, searched(v, m), m.subs@),
        behind_no_link(q, m, v),
    ensures
        unchanged_at(a, b, q),
{
    if !m.dry_run {
        let t = choose|t: RelinkTrace| #[trigger]
            relink_trace(t, m.subs@, alive(c)) && t.vs[0] == a && t.vs.last() == b
                && crate::relink::rows_of(entries) == crate::relink::repointed(
                m.subs@,
                alive(c),
                t.oks,
            ) && crate::relink::failed_paths(failures) == crate::relink::refused(
                m.subs@,
                alive(c),
                t.oks,
            );
        let f = |c: LinkCandidate| c.alive;
        let g = |p: Seq<char>| is_candidate(v, p, m.subs@);
        let links = searched(v, m).filter(g);
        assert forall|i: int| 0 <= i < alive(c).len() implies !under(
            q,
            components(link_place(m.subs@, #[trigger] alive(c)[i])),
        ) by {
            let x = alive(c)[i];
            assert(alive(c).contains(x));
            c.lemma_filter_contains_rev(f, x);
            let j = choose|j: int| 0 <= j < c.len() && c[j] == x;
            assert(links.contains(links[j]));
            searched(v, m).lemma_filter_contains_rev(g, links[j]);
            assert(searched(v, m).len() > 0);
            assert(is_candidate(v, links[j], m.subs@));
            assert(link_place(m.subs@, x) == moved_place(m.subs@, links[j]));
        }
        lemma_links_quiet(t, m.subs@, alive(c), q, t.oks.len() as int);
    }
}

/// Of two paths above a third, one lies above the other.
pub(crate) proof fn lemma_one_above(k: Key, a: Key, b: Key)
    requires
        under(k, a),
        under(k, b),
    ensures
        under(a, b) || under(b, a),
{
    if a.len() <= b.len() {
        assert(b.subrange(0, a.len() as int) =~= a);
    } else {
        assert(a.subrange(0, b.len() as int) =~= b);
    }
}

pub(crate) proof fn lemma_log_quiet(
    a: FsView,
    b: FsView,
    is_due: bool,
    m: Migration,
    backups: Seq<Seq<char>>,
    suffix: Seq<char>,
    text: Seq<char>,
    r: Result<Option<FilePath>, Error>,
    q: Key,
)
    requires
        optional_log(a, b, is_due, m, backups, suffix, text, r),
        m.claude_home@.path.len() > 0,
        !under(q, components(backup_dir(m.claude_home@.path))),
    ensures
        kept_at(a, b, q, components(backup_dir(m.claude_home@.path))),
{
    let dir = components(backup_dir(m.claude_home@.path));
    if is_due && artifact_path(m, backups, suffix) is Some {
        lemma_artifact_place(m, backups, suffix);
        let path = components(artifact_path(m, backups, suffix)->0);
        let up = path.drop_last();
        let mid = if r is Ok {
            assert(log_written(a, b, path, text));
            choose|mid: FsView| #[trigger]
                made_room(a, mid, path) && replaced_file(
                    mid,
                    b,
                    path,
                    vstd::utf8::encode_utf8(text),
                )
        } else {
            b
        };
        assert(under(up, q) ==> under(dir, q)) by {
            if under(up, q) {
                assert(path.subrange(0, q.len() as int) =~= up.subrange(0, q.len() as int));
                lemma_one_above(path, q, dir);
            }
        }
        assert(kept_at(a, mid, q, dir));
        assert(kept_at(mid, b, q, dir));
    }
}

/// What a run does before it turns to the shared files leaves alone what lies in
/// no place that it works on.
pub(crate) proof fn lemma_units_done_quiet(t: RunTrace, m: Migration, a: FsView, b: FsView, q: Key)
    requires
        run_work(t, m, a, b),
        outside(q, m),
        all_away(m, a, q),
        behind_no_link(q, m, a),
    ensures
        kept_at(a, t.reported, q, components(backup_dir(m.claude_home@.path))),
{
    lemma_all_backups_quiet(a, t.backed_up, m, t.backups, q);
    lemma_work_quiet(t.backed_up, t.moved, m, t.renames, t.reports, a, q);
    lemma_repoint_quiet(
        t.moved,
        t.repointed,
        m,
        t.outcome.relink_candidates@,
        t.entries,
        t.failures,
        a,
        q,
    );
    lemma_log_quiet(
        t.repointed,
        t.logged,
        t.entries.len() > 0,
        m,
        texts(t.backups),
        "relink.tsv"@,
        crate::relink::relink_log(crate::relink::rows_of(t.entries)),
        t.log,
        q,
    );
    let refs = t.outcome.text_reference_findings@;
    lemma_log_quiet(
        t.logged,
        t.reported,
        !m.dry_run && refs.len() > 0,
        m,
        texts(t.backups),
        "textrefs.tsv"@,
        crate::relink::refs_report(crate::plan::reference_views(refs)),
        t.text_log,
        q,
    );
}

/// What a run does leaves alone what lies elsewhere.
proof fn lemma_done_quiet(t: RunTrace, m: Migration, a: FsView, b: FsView, q: Key)
    requires
        run_work(t, m, a, b),
        outside(q, m),
        all_away(m, a, q),
        lies_elsewhere(q, m, a),
    ensures
        kept_at(a, b, q, components(backup_dir(m.claude_home@.path))),
{
    lemma_units_done_quiet(t, m, a, b, q);
    lemma_shared_quiet(t.reported, t.history, b, m, t.history_reports, t.json_reports, q);
}

/// So does what it did where it stops on the way.
proof fn lemma_cut_quiet(m: Migration, a: FsView, b: FsView, e: Error, q: Key)
    requires
        stops(m, a, b, e),
        outside(q, m),
        all_away(m, a, q),
        lies_elsewhere(q, m, a),
    ensures
        kept_at(a, b, q, components(backup_dir(m.claude_home@.path))),
{
    if backups_fail(a, b, m, e) {
        lemma_stopped_backups_quiet(a, b, m, e, q);
    } else if exists|mid: FsView, paths: Seq<FilePath>| #[trigger]
        work_stops(a, mid, b, m, paths, e) {
        let (mid, paths) = choose|mid: FsView, paths: Seq<FilePath>| #[trigger]
            work_stops(a, mid, b, m, paths, e);
        lemma_all_backups_quiet(a, mid, m, paths, q);
        lemma_stopped_work_quiet(mid, b, m, e, a, q);
    } else {
        let t = choose|t: RunTrace| #[trigger] check_stops(t, a, b, m, e);
        lemma_done_quiet(t, m, a, b, q);
    }
}

/// A prepared unit leaves alone what lies below neither of its paths.
pub(crate) proof fn lemma_unit_prepared_away(
    m0: Migration,
    m: Migration,
    marked: Seq<Unit>,
    v: FsView,
    q: Key,
    i: int,
)
    requires
        is_prepared(m0, m, marked, v),
        all_absolute(m0.units@),
        crate::migration::all_fresh(m0.units@),
        units_found(m0, v),
        is_plain(m0.claude_home@.local_dir),
        0 <= i < m.units@.len(),
        !under(q, m0.units@[i].source.key()) && !under(q, m0.units@[i].target.key()),
    ensures
        unit_away(m.units@[i], v, m0.claude_home@, q),
{
    let home = m0.claude_home@;
    let u = m.units@[i];
    assert(same_move(m0.units@[i], marked[i]));
    assert(same_move(marked[i], u));
    assert(!under(q, m0.units@[i].source.key()));
    if describes(m0.units@[i].state, v, m0.units@[i].source@, home) {
        lemma_away(u.state, v, u.source@, home, q);
    } else {
        assert(describes(m0.units@[i].state, v, m0.units@[i].target@, home));
        lemma_away(u.state, v, u.target@, home, q);
    }
    assert forall|j: int| 0 <= j < u.subprojects@.len() implies away(
        (#[trigger] u.subprojects@[j]).0,
        v,
        home,
        q,
    ) by {
        assert(m0.units@[i].subprojects@.len() == 0);
        assert(!m0.session_only && !marked[i].nothing_to_do);
        let keys = keys_of_file(v, m0.claude_json)->0;
        let list = subproject_keys(keys, marked[i].source@);
        let f = |k: Seq<char>| is_subproject(k, marked[i].source@);
        assert(describes(u.subprojects@[j].0, v, list[j], home));
        assert(list.contains(list[j]));
        keys.lemma_filter_contains_rev(f, list[j]);
        assert(is_subproject(list[j], marked[i].source@));
        let source = u.source@;
        let rest = list[j].skip(source.len() as int + 1);
        assert(list[j] =~= source.push('/') + rest);
        lemma_components_concat(source, rest);
        assert(components(list[j]).subrange(0, components(source).len() as int)
            =~= components(source));
        if under(q, components(list[j])) {
            lemma_under_under(q, components(list[j]), u.source.key());
        }
        lemma_away(u.subprojects@[j].0, v, list[j], home, q);
    }
}

/// What holds of the units of a run holds once it is prepared, also of those
/// below them.
pub(crate) proof fn lemma_prepared_away(
    m0: Migration,
    m: Migration,
    marked: Seq<Unit>,
    v: FsView,
    q: Key,
)
    requires
        is_prepared(m0, m, marked, v),
        all_absolute(m0.units@),
        crate::migration::all_fresh(m0.units@),
        units_found(m0, v),
        is_plain(m0.claude_home@.local_dir),
        in_no_project(q, m0),
    ensures
        all_away(m, v, q),
        lies_apart(q, m0, v) ==> lies_apart(q, m, v),
{
    let home = m0.claude_home@;
    assert forall|i: int| 0 <= i < m.units@.len() implies unit_away(
        #[trigger] m.units@[i],
        v,
        home,
        q,
    ) && !under(q, m.units@[i].source.key()) && !under(q, m.units@[i].target.key()) by {
        assert(!under(q, m0.units@[i].source.key()));
        lemma_unit_prepared_away(m0, m, marked, v, q, i);
    }
}

/// A run touches nothing but the global directories and the backups, the projects
/// that it moves, where they are before or after, the files that all projects
/// share, and the links that it repoints: no other file, directory or link. So a
/// file that names a moving project, and belongs to another, is never rewritten;
/// and a run that fails has touched nothing else either. All that may be made
/// elsewhere are the directories that the backups lie in.
pub proof fn law_other_files_are_left_alone(
    m: Migration,
    a: FsView,
    b: FsView,
    r: Result<MigrationReport, Error>,
    q: Key,
)
    requires
        ran(m, a, b, r),
        m.claude_home@.path.len() > 0,
        is_plain(m.claude_home@.local_dir),
        all_absolute(m.units@),
        crate::migration::all_fresh(m.units@),
        units_found(m, a),
        lies_elsewhere(q, m, a),
    ensures
        kept_at(a, b, q, components(backup_dir(m.claude_home@.path))),
{
    if m.dry_run {
        law_dry_run_changes_nothing(m, a, b, r);
    } else if !all_settled(m) {
        match r {
            Ok(report) => {
                let (n, marked) = choose|n: Migration, marked: Seq<Unit>| #[trigger]
                    is_prepared(m, n, marked, a) && goes_through(n, a, b, report);
                lemma_prepared_away(m, n, marked, a, q);
                let t = choose|t: RunTrace| #[trigger] run_trace(t, n, a, b, report);
                lemma_done_quiet(t, n, a, b, q);
            },
            Err(e) => {
                if exists|n: Migration, marked: Seq<Unit>| #[trigger]
                    is_prepared(m, n, marked, a) && stops(n, a, b, e) {
                    let (n, marked) = choose|n: Migration, marked: Seq<Unit>| #[trigger]
                        is_prepared(m, n, marked, a) && stops(n, a, b, e);
                    lemma_prepared_away(m, n, marked, a, q);
                    lemma_cut_quiet(n, a, b, e, q);
                }
            },
        }
    }
}

} // verus!
