//! What holds of whole runs.

use vstd::prelude::*;
use vstd::string::*;

use crate::apply::active;
use crate::apply::files_at_step;
use crate::apply::followed;
use crate::apply::merged_global;
use crate::apply::new_dir;
use crate::apply::optional_step;
use crate::apply::project_step;
use crate::apply::project_trace;
use crate::apply::rename_for;
use crate::apply::rename_step;
use crate::apply::rename_view;
use crate::apply::session_list;
use crate::apply::session_places;
use crate::apply::session_step;
use crate::apply::sessions_cut;
use crate::apply::sessions_fail;
use crate::apply::sessions_inside;
use crate::apply::sessions_step;
use crate::apply::sessions_trace;
use crate::apply::subprojects_trace;
use crate::apply::unit_step;
use crate::apply::unit_trace;
use crate::apply::units_trace;
use crate::apply::work_cut;
use crate::apply::work_fail;
use crate::apply::work_step;
use crate::apply::ChainTrace;
use crate::apply::GlobalRename;
use crate::apply::Outcome;
use crate::apply::ProjectTrace;
use crate::apply::UnitTrace;
use crate::backup::backed_up_by;
use crate::backup::backup_dir;
use crate::backup::backup_path;
use crate::backup::backup_step;
use crate::backup::backup_stops;
use crate::backup::made_backup_dir;
use crate::backup::Sources;
use crate::batch::Move;
use crate::command::are_plan_units;
use crate::command::asked_moves;
use crate::command::batch_ran;
use crate::command::executed;
use crate::command::move_options;
use crate::command::plan_accepted;
use crate::command::Command;
use crate::encoder::encoded;
use crate::error::Error;
use crate::fs::apart;
use crate::fs::arrives;
use crate::fs::kept_at;
use crate::fs::law_moved_directory_keeps_files;
use crate::fs::law_write_reads_back;
use crate::fs::same_entry;
use crate::fs::texts;
use crate::fs::unchanged_at;
use crate::fs::wrote;
use crate::fs::FsView;
use crate::home::HomeView;
use crate::json::compact;
use crate::links::absolute;
use crate::links::is_candidate_for;
use crate::links::law_relative_target_resolves;
use crate::links::law_resolved_target_is_final;
use crate::links::lemma_resolved_plain;
use crate::links::link_dir;
use crate::links::never_up;
use crate::links::resolved_text;
use crate::links::LinkCandidate;
use crate::merge::index_path;
use crate::merge::index_value;
use crate::merge::is_merged_index;
use crate::migration::all_settled;
use crate::migration::backed_up;
use crate::migration::backups_cut;
use crate::migration::backups_fail;
use crate::migration::backups_step;
use crate::migration::backups_trace;
use crate::migration::check_stops;
use crate::migration::claude_json_step;
use crate::migration::goes_through;
use crate::migration::history_step;
use crate::migration::is_cleared;
use crate::migration::is_prepared;
use crate::migration::is_verified;
use crate::migration::ran;
use crate::migration::run_trace;
use crate::migration::run_work;
use crate::migration::stops;
use crate::migration::unit_sources;
use crate::migration::work_stops;
use crate::migration::MigrationReport;
use crate::migration::RunTrace;
use crate::path::components;
use crate::path::join_text;
use crate::path::lemma_components_join;
use crate::path::lemma_strip_components;
use crate::path::strip_text;
use crate::path::under;
use crate::path::FilePath;
use crate::path::Key;
use crate::plan::is_set_up;
use crate::plan::is_settled;
use crate::plan::same_move;
use crate::plan::Migration;
use crate::relink::alive;
use crate::relink::link_place;
use crate::relink::link_step;
use crate::relink::link_text;
use crate::relink::log_row;
use crate::relink::relink_trace;
use crate::relink::repoint_step;
use crate::relink::RelinkFailure;
use crate::relink::RelinkLogEntry;
use crate::relink::RelinkTrace;
use crate::scanner::claude_json_path;
use crate::scanner::describes;
use crate::scanner::global_dir;
use crate::scanner::ProjectState;
use crate::substitution::law_replacement_is_one_pass;
use crate::substitution::matches_in;
use crate::substitution::replaced;
use crate::substitution::Pairs;
use crate::unit::MigrateOpts;
use crate::unit::Unit;
use crate::updater::file_step;
use crate::updater::file_steps;
use crate::updater::replacements;
use crate::updater::UpdateReport;

verus! {

/// A run in which every unit is where it belongs changes nothing, and says that
/// there is nothing to do.
pub proof fn law_settled_run_changes_nothing(
    m: Migration,
    a: FsView,
    b: FsView,
    r: Result<MigrationReport, Error>,
)
    requires
        all_settled(m),
        ran(m, a, b, r),
    ensures
        b == a,
        r matches Ok(report) && report.nothing_to_do && report.files_updated@.len() == 0
            && report.moves@.len() == 0,
{
}

/// After a run that goes through, what refers to each project that had to move
/// names its new path. A session-only run is not verified, and a dry run has
/// nothing to verify.
pub proof fn law_finished_run_is_consistent(
    m: Migration,
    a: FsView,
    b: FsView,
    r: Result<MigrationReport, Error>,
    i: int,
)
    requires
        ran(m, a, b, r),
        r is Ok,
        !m.session_only && !m.dry_run,
        0 <= i < m.units@.len(),
        !is_settled(m.units@[i], m.session_only),
    ensures
        is_verified(b, m.units@[i], m.claude_home@),
{
    assert(!all_settled(m));
    let report = r->Ok_0;
    let (n, marked) = choose|n: Migration, marked: Seq<Unit>| #[trigger]
        is_prepared(m, n, marked, a) && goes_through(n, a, b, report);
    let t = choose|t: RunTrace| #[trigger] run_trace(t, n, a, b, report);
    assert(same_move(m.units@[i], marked[i]));
    assert(!marked[i].nothing_to_do);
    assert(same_move(marked[i], n.units@[i]));
    assert(!n.units@[i].nothing_to_do);
}

/// A run that does not pass its checks fails, and changes nothing.
pub proof fn law_refused_run_changes_nothing(
    m: Migration,
    a: FsView,
    b: FsView,
    r: Result<MigrationReport, Error>,
)
    requires
        !all_settled(m),
        !is_cleared(m, a),
        ran(m, a, b, r),
    ensures
        b == a,
        r is Err,
{
    if let Ok(report) = r {
        let (n, marked) = choose|n: Migration, marked: Seq<Unit>| #[trigger]
            is_prepared(m, n, marked, a) && goes_through(n, a, b, report);
        let t = choose|t: RunTrace| #[trigger] run_trace(t, n, a, b, report);
        assert(is_prepared(m, n, marked, a));
    }
}

pub(crate) proof fn lemma_dry_optional(
    a: FsView,
    b: FsView,
    path: Option<FilePath>,
    m: Migration,
    reports: Seq<UpdateReport>,
)
    requires
        m.dry_run,
        optional_step(a, b, path, m, reports),
    ensures
        b == a,
{
}

pub(crate) proof fn lemma_dry_sessions_trace(
    t: ProjectTrace,
    a: FsView,
    m: Migration,
    state: ProjectState,
    target: Seq<char>,
    rename: Option<GlobalRename>,
)
    requires
        m.dry_run,
        sessions_trace(t, a, m, state, target, rename),
    ensures
        t.sessions == a,
{
    crate::apply::lemma_dry_sessions(
        t.renamed,
        t.sessions,
        m,
        state,
        crate::apply::rename_view(rename),
        Ok(t.session_reports),
    );
}

proof fn lemma_dry_project(
    a: FsView,
    b: FsView,
    m: Migration,
    state: ProjectState,
    target: Seq<char>,
    out: Outcome,
)
    requires
        m.dry_run,
        project_step(a, b, m, state, target, out),
    ensures
        b == a,
{
    let t = choose|t: ProjectTrace| #[trigger] project_trace(t, a, b, m, state, target, out);
    lemma_dry_sessions_trace(t, a, m, state, target, out.0);
    lemma_dry_optional(t.sessions, t.settings, state.settings_json, m, t.settings_reports);
    lemma_dry_optional(t.settings, b, state.mcp_json, m, t.mcp_reports);
}

proof fn lemma_dry_subprojects(
    t: ChainTrace,
    m: Migration,
    subs: Seq<(ProjectState, FilePath)>,
    n: int,
)
    requires
        m.dry_run,
        subprojects_trace(t, m, subs),
        0 <= n <= t.outs.len(),
    ensures
        t.vs[n] == t.vs[0],
    decreases n,
{
    if n > 0 {
        lemma_dry_subprojects(t, m, subs, n - 1);
        assert(project_step(
            t.vs[n - 1],
            t.vs[n - 1 + 1],
            m,
            subs[n - 1].0,
            subs[n - 1].1@,
            t.outs[n - 1],
        ));
        lemma_dry_project(
            t.vs[n - 1],
            t.vs[n],
            m,
            subs[n - 1].0,
            subs[n - 1].1@,
            t.outs[n - 1],
        );
    }
}

proof fn lemma_dry_unit(a: FsView, b: FsView, m: Migration, u: Unit, out: Outcome)
    requires
        m.dry_run,
        unit_step(a, b, m, u, out),
    ensures
        b == a,
{
    if m.session_only {
        let reports = choose|reports: Vec<UpdateReport>| #[trigger]
            sessions_step(a, b, m, u.state, u.target@, out.0, reports) && out.1 == reports@;
        let t = choose|t: ProjectTrace| #[trigger]
            sessions_trace(t, a, m, u.state, u.target@, out.0) && t.sessions == b
                && t.session_reports == reports;
        lemma_dry_sessions_trace(t, a, m, u.state, u.target@, out.0);
    } else {
        let t = choose|t: UnitTrace| #[trigger] unit_trace(t, a, b, m, u, out);
        lemma_dry_project(a, t.project, m, u.state, u.target@, (out.0, t.reports));
        lemma_dry_subprojects(t.chain, m, u.subprojects@, t.chain.outs.len() as int);
    }
}

proof fn lemma_dry_units(t: ChainTrace, m: Migration, units: Seq<Unit>, n: int)
    requires
        m.dry_run,
        units_trace(t, m, units),
        0 <= n <= t.outs.len(),
    ensures
        t.vs[n] == t.vs[0],
    decreases n,
{
    if n > 0 {
        lemma_dry_units(t, m, units, n - 1);
        assert(unit_step(t.vs[n - 1], t.vs[n - 1 + 1], m, units[n - 1], t.outs[n - 1]));
        lemma_dry_unit(t.vs[n - 1], t.vs[n], m, units[n - 1], t.outs[n - 1]);
    }
}

proof fn lemma_dry_work(
    a: FsView,
    b: FsView,
    m: Migration,
    renames: Seq<Option<GlobalRename>>,
    reports: Seq<UpdateReport>,
)
    requires
        m.dry_run,
        work_step(a, b, m, renames, reports),
    ensures
        b == a,
{
    let t = choose|t: ChainTrace| #[trigger]
        units_trace(t, m, active(m.units@)) && t.vs[0] == a && t.vs.last() == b && renames
            == t.outs.map_values(|o: Outcome| o.0) && reports == crate::apply::all_reports(t.outs);
    lemma_dry_units(t, m, active(m.units@), t.outs.len() as int);
}

/// A dry run changes nothing at all. It fails only when one of the checks does
/// that a real run makes before its first write.
pub proof fn law_dry_run_changes_nothing(
    m: Migration,
    a: FsView,
    b: FsView,
    r: Result<MigrationReport, Error>,
)
    requires
        m.dry_run,
        ran(m, a, b, r),
    ensures
        b == a,
        r matches Err(e) ==> crate::migration::is_refused(e, m, a),
{
    if !all_settled(m) {
        if let Ok(report) = r {
            let (n, marked) = choose|n: Migration, marked: Seq<Unit>| #[trigger]
                is_prepared(m, n, marked, a) && goes_through(n, a, b, report);
            let t = choose|t: RunTrace| #[trigger] run_trace(t, n, a, b, report);
            lemma_dry_work(t.backed_up, t.moved, n, t.renames, t.reports);
            lemma_dry_optional(t.reported, t.history, n.history_jsonl, n, t.history_reports);
            assert(claude_json_step(t.history, b, n, t.json_reports));
        }
    }
}

/// A repointed link leads to where its target has moved, whether it is written
/// from the root or from its own directory.
pub proof fn law_repointed_link_leads_there(subs: Pairs, c: LinkCandidate)
    requires
        absolute(link_place(subs, c)),
        absolute(c.new_target@),
        never_up(components(link_dir(link_place(subs, c)))),
        never_up(c.new_target.key()),
    ensures
        components(resolved_text(link_place(subs, c), link_text(subs, c))) == c.new_target.key(),
{
    if c.is_relative {
        law_relative_target_resolves(link_place(subs, c), c.new_target@);
    } else {
        lemma_resolved_plain(link_place(subs, c), c.new_target@);
    }
}

/// Made anew with the old target of its log row, a repointed link leads to where
/// it led before the move.
pub proof fn law_logged_target_leads_back(
    v: FsView,
    link: Seq<char>,
    subs: Pairs,
    c: LinkCandidate,
)
    requires
        absolute(link),
        is_candidate_for(c, v, link, subs),
    ensures
        resolved_text(log_row(subs, c).0, log_row(subs, c).1) == resolved_text(
            link,
            v.links[components(link)],
        ),
{
    law_resolved_target_is_final(link, v.links[components(link)], link_place(subs, c));
}

/// The links that are changed are where the candidates that were alive are. A
/// dead one is left alone, and so is every other link.
pub proof fn law_only_live_links_change(
    a: FsView,
    b: FsView,
    m: Migration,
    c: Seq<LinkCandidate>,
    entries: Seq<RelinkLogEntry>,
    failures: Seq<RelinkFailure>,
    q: Key,
)
    requires
        repoint_step(a, b, m, c, entries, failures),
        forall|i: int|
            0 <= i < alive(c).len() ==> components(link_place(m.subs@, #[trigger] alive(c)[i])) != q,
    ensures
        b.links.contains_key(q) == a.links.contains_key(q),
        a.links.contains_key(q) ==> b.links[q] == a.links[q],
{
    if !m.dry_run {
        let t = choose|t: RelinkTrace| #[trigger]
            relink_trace(t, m.subs@, alive(c)) && t.vs[0] == a && t.vs.last() == b
                && crate::relink::rows_of(entries) == crate::relink::repointed(
                m.subs@,
                alive(c),
                t.oks,
            ) && crate::relink::failed_paths(failures) == crate::relink::refused(
                m.subs@,
                alive(c),
                t.oks,
            );
        lemma_links_kept(t, m.subs@, alive(c), q, t.oks.len() as int);
    }
}

proof fn lemma_links_kept(t: RelinkTrace, subs: Pairs, list: Seq<LinkCandidate>, q: Key, n: int)
    requires
        relink_trace(t, subs, list),
        0 <= n <= t.oks.len(),
        forall|i: int|
            0 <= i < list.len() ==> components(link_place(subs, #[trigger] list[i])) != q,
    ensures
        t.vs[n].links.contains_key(q) == t.vs[0].links.contains_key(q),
        t.vs[0].links.contains_key(q) ==> t.vs[n].links[q] == t.vs[0].links[q],
    decreases n,
{
    if n > 0 {
        lemma_links_kept(t, subs, list, q, n - 1);
        assert(components(link_place(subs, list[n - 1])) != q);
        assert(link_step(
            t.vs[n - 1],
            t.vs[n - 1 + 1],
            components(link_place(subs, list[n - 1])),
            link_text(subs, list[n - 1]),
            t.oks[n - 1],
        ));
    }
}

/// What is read from inside a directory lies below it.
pub(crate) proof fn lemma_joined_under(dir: Seq<char>, x: Seq<char>)
    requires
        dir.len() > 0,
        x.len() > 0 ==> x[0] != '/',
    ensures
        under(components(join_text(dir, x)), components(dir)),
        join_text(dir, x).len() > 0,
{
    lemma_components_join(dir, x);
    let k = components(join_text(dir, x));
    assert(k.subrange(0, components(dir).len() as int) =~= components(dir));
}

pub(crate) proof fn lemma_under_under(a: Key, b: Key, c: Key)
    requires
        under(a, b),
        under(b, c),
    ensures
        under(a, c),
{
    assert(a.subrange(0, c.len() as int) =~= c);
}

/// The path `q` lies neither among the global directories nor among the backups.
pub open spec fn off_data(q: Key, home: Seq<char>) -> bool {
    &&& !under(q, components(join_text(home, "projects"@)))
    &&& !under(q, components(backup_dir(home)))
}

/// Global directories lie in the directory for them.
pub(crate) proof fn lemma_global_under(p: Seq<char>, home: HomeView)
    requires
        home.path.len() > 0,
    ensures
        under(components(global_dir(p, home)), components(join_text(home.path, "projects"@))),
        global_dir(p, home).len() > 0,
{
    reveal_strlit("projects");
    lemma_joined_under(home.path, "projects"@);
    lemma_joined_under(join_text(home.path, "projects"@), encoded(p));
}

pub(crate) proof fn lemma_backup_under(s: Sources)
    requires
        s.home.path.len() > 0,
    ensures
        under(components(backup_path(s)), components(backup_dir(s.home.path))),
{
    reveal_strlit("backups/ccmv");
    reveal_strlit("-");
    let name = encoded(s.project) + "-"@ + s.timestamp + ".tar.gz"@;
    assert(name.len() > 0 ==> name[0] != '/') by {
        if encoded(s.project).len() > 0 {
            assert(name[0] == encoded(s.project)[0]);
        } else {
            assert(name[0] == "-"@[0]);
        }
    }
    lemma_joined_under(s.home.path, "backups/ccmv"@);
    lemma_joined_under(backup_dir(s.home.path), name);
}

proof fn lemma_backups_quiet(
    vs: Seq<FsView>,
    m: Migration,
    units: Seq<Unit>,
    paths: Seq<FilePath>,
    q: Key,
    n: int,
)
    requires
        backups_trace(vs, m, units, paths),
        m.claude_home@.path.len() > 0,
        !under(q, components(backup_dir(m.claude_home@.path))),
        0 <= n <= paths.len(),
    ensures
        kept_at(vs[0], vs[n], q, components(backup_dir(m.claude_home@.path))),
    decreases n,
{
    if n > 0 {
        lemma_backups_quiet(vs, m, units, paths, q, n - 1);
        let s = unit_sources(m, units[n - 1]);
        assert(backup_step(vs[n - 1], vs[n - 1 + 1], s, Ok(paths[n - 1])));
        lemma_backup_under(s);
        let (mid, data) = choose|mid: FsView, data: Seq<u8>| #[trigger]
            backed_up_by(vs[n - 1], mid, vs[n], s, data);
        let dir = components(backup_dir(m.claude_home@.path));
        assert(kept_at(vs[n - 1], mid, q, dir));
        assert(kept_at(mid, vs[n], q, dir));
    }
}

proof fn lemma_files_quiet(
    vs: Seq<FsView>,
    files: Seq<FilePath>,
    subs: Pairs,
    dry_run: bool,
    reports: Seq<UpdateReport>,
    q: Key,
    n: int,
)
    requires
        file_steps(vs, files, subs, dry_run, reports),
        0 <= n <= reports.len(),
        forall|i: int| 0 <= i < files.len() ==> (#[trigger] files[i]).key() != q,
    ensures
        unchanged_at(vs[0], vs[n], q),
    decreases n,
{
    if n > 0 {
        lemma_files_quiet(vs, files, subs, dry_run, reports, q, n - 1);
        assert(file_step(
            vs[n - 1],
            vs[n - 1 + 1],
            files[n - 1],
            subs,
            dry_run,
            Ok(reports[n - 1]),
        ));
        assert(files[n - 1].key() != q);
    }
}

/// Moving a global directory touches nothing but what lies in it, before or after,
/// whether it succeeds or not.
proof fn lemma_rename_quiet(
    a: FsView,
    b: FsView,
    dry_run: bool,
    old: Seq<char>,
    new: Seq<char>,
    r: Result<(), Error>,
    q: Key,
)
    requires
        rename_step(a, b, dry_run, Some((old, new)), r),
        old.len() > 0,
        new.len() > 0,
        !under(q, components(old)),
        !under(q, components(new)),
    ensures
        unchanged_at(a, b, q),
{
    let from = components(old);
    let to = components(new);
    if !dry_run {
        if a.dirs.contains(to) {
            let (mid, index) = choose|mid: FsView, index: Result<(), Error>| #[trigger]
                merged_global(a, mid, b, old, new, index, r);
            assert(unchanged_at(a, mid, q)) by {
                if crate::merge::both_indexed(a, old, new) {
                    reveal_strlit("sessions-index.json");
                    lemma_joined_under(old, "sessions-index.json"@);
                    lemma_joined_under(new, "sessions-index.json"@);
                    let source = components(index_path(old));
                    let target = components(index_path(new));
                    if under(q, source) {
                        lemma_under_under(q, source, from);
                    }
                    assert(q != target);
                    if index is Ok {
                        let (before, w) = choose|before: FsView, w: serde_json::Value| #[trigger]
                            is_merged_index(
                                index_value(a, old)->0,
                                index_value(a, new)->0,
                                w,
                            ) && #[trigger] wrote(
                                a,
                                before,
                                target,
                                vstd::utf8::encode_utf8(compact(w)),
                            ) && mid.file(source) is None && forall|k: Key|
                                !under(k, source) ==> #[trigger] same_entry(before, mid, k);
                        assert(same_entry(before, mid, q));
                        assert(before.file(q) == a.file(q));
                    }
                }
            }
            if index is Ok {
                assert(same_entry(mid, b, q));
            }
        } else {
            assert(same_entry(a, b, q));
        }
    }
}

/// Updating the sessions of a project touches nothing outside of its
/// global directory, whether it succeeds or not.
proof fn lemma_updates_quiet(
    a: FsView,
    b: FsView,
    m: Migration,
    state: ProjectState,
    target: Seq<char>,
    r: Result<Vec<UpdateReport>, Error>,
    v: FsView,
    p: Seq<char>,
    q: Key,
)
    requires
        !m.dry_run,
        m.claude_home@.path.len() > 0,
        describes(state, v, p, m.claude_home@),
        session_step(a, b, m, state, rename_for(state, target, m.claude_home@), r),
        !under(q, components(global_dir(p, m.claude_home@))),
        !under(q, components(global_dir(target, m.claude_home@))),
    ensures
        unchanged_at(a, b, q),
{
    if let Some(dir) = state.global_project_dir {
        let old = dir@;
        assert(old == global_dir(p, m.claude_home@));
        lemma_global_under(p, m.claude_home@);
        lemma_global_under(target, m.claude_home@);
        let new = new_dir(rename_for(state, target, m.claude_home@), old);
        if sessions_inside(state, old) {
            let places = session_places(state, old, new, false);
            let files = choose|files: Seq<FilePath>| #[trigger]
                files_at_step(a, b, files, places, m.subs@, false, r);
            assert(texts(files).len() == files.len());
            assert forall|i: int| 0 <= i < files.len() implies (#[trigger] files[i]).key() != q by {
                let f = session_list(state)[i];
                assert(texts(files)[i] == files[i]@);
                assert(places[i] == followed(f, old, new));
                assert(under(components(f), components(old)));
                lemma_strip_components(f, components(old).len() as int);
                lemma_joined_under(new, strip_text(f, components(old).len() as int));
            }
            match r {
                Ok(reports) => {
                    let vs = choose|vs: Seq<FsView>| #[trigger]
                        file_steps(vs, files, m.subs@, false, reports@) && vs[0] == a && vs.last()
                            == b;
                    lemma_files_quiet(
                        vs,
                        files,
                        m.subs@,
                        false,
                        reports@,
                        q,
                        reports@.len() as int,
                    );
                },
                Err(e) => {
                    let (vs, reports) = choose|vs: Seq<FsView>, reports: Seq<UpdateReport>|
                        #[trigger] file_steps(vs, files, m.subs@, false, reports) && vs[0] == a
                            && vs.last() == b && reports.len() < files.len() && file_step(
                            b,
                            b,
                            files[reports.len() as int],
                            m.subs@,
                            false,
                            Err(e),
                        );
                    lemma_files_quiet(vs, files, m.subs@, false, reports, q, reports.len() as int);
                },
            }
        }
    }
}

/// Moving the global directory of a project touches nothing outside of it, whether
/// it succeeds or not.
proof fn lemma_global_quiet(
    a: FsView,
    b: FsView,
    m: Migration,
    state: ProjectState,
    target: Seq<char>,
    r: Result<(), Error>,
    v: FsView,
    p: Seq<char>,
    q: Key,
)
    requires
        m.claude_home@.path.len() > 0,
        describes(state, v, p, m.claude_home@),
        rename_step(a, b, m.dry_run, rename_for(state, target, m.claude_home@), r),
        !under(q, components(global_dir(p, m.claude_home@))),
        !under(q, components(global_dir(target, m.claude_home@))),
    ensures
        unchanged_at(a, b, q),
{
    let rename = rename_for(state, target, m.claude_home@);
    if let Some((old, new)) = rename {
        assert(old == global_dir(p, m.claude_home@));
        lemma_global_under(p, m.claude_home@);
        lemma_global_under(target, m.claude_home@);
        lemma_rename_quiet(
            a,
            b,
            m.dry_run,
            old,
            new,
            r,
            q,
        );
    }
}

/// Moving the sessions of a project touches nothing outside of its global
/// directory.
pub(crate) proof fn lemma_project_sessions_quiet(
    t: ProjectTrace,
    a: FsView,
    m: Migration,
    state: ProjectState,
    target: Seq<char>,
    rename: Option<GlobalRename>,
    v: FsView,
    p: Seq<char>,
    q: Key,
)
    requires
        !m.dry_run,
        m.claude_home@.path.len() > 0,
        describes(state, v, p, m.claude_home@),
        sessions_trace(t, a, m, state, target, rename),
        !under(q, components(global_dir(p, m.claude_home@))),
        !under(q, components(global_dir(target, m.claude_home@))),
    ensures
        unchanged_at(a, t.sessions, q),
{
    lemma_global_quiet(a, t.renamed, m, state, target, Ok(()), v, p, q);
    lemma_updates_quiet(
        t.renamed,
        t.sessions,
        m,
        state,
        target,
        Ok(t.session_reports),
        v,
        p,
        q,
    );
}

/// Moving the sessions of a project touches nothing outside of the global
/// directories.
pub(crate) proof fn lemma_sessions_quiet(
    t: ProjectTrace,
    a: FsView,
    m: Migration,
    state: ProjectState,
    target: Seq<char>,
    rename: Option<GlobalRename>,
    v: FsView,
    p: Seq<char>,
    q: Key,
)
    requires
        !m.dry_run,
        m.claude_home@.path.len() > 0,
        describes(state, v, p, m.claude_home@),
        sessions_trace(t, a, m, state, target, rename),
        off_data(q, m.claude_home@.path),
    ensures
        unchanged_at(a, t.sessions, q),
{
    lemma_off_global(p, m.claude_home@, q);
    lemma_off_global(target, m.claude_home@, q);
    lemma_project_sessions_quiet(t, a, m, state, target, rename, v, p, q);
}

/// What lies outside of the directory for them lies in no global directory.
pub(crate) proof fn lemma_off_global(p: Seq<char>, home: HomeView, q: Key)
    requires
        home.path.len() > 0,
        off_data(q, home.path),
    ensures
        !under(q, components(global_dir(p, home))),
{
    lemma_global_under(p, home);
    if under(q, components(global_dir(p, home))) {
        lemma_under_under(
            q,
            components(global_dir(p, home)),
            components(join_text(home.path, "projects"@)),
        );
    }
}

/// Nor does it where it stops.
pub(crate) proof fn lemma_stopped_at_quiet(
    a: FsView,
    b: FsView,
    m: Migration,
    state: ProjectState,
    target: Seq<char>,
    e: Error,
    v: FsView,
    p: Seq<char>,
    q: Key,
)
    requires
        !m.dry_run,
        m.claude_home@.path.len() > 0,
        describes(state, v, p, m.claude_home@),
        sessions_fail(a, b, m, state, target, e),
        !under(q, components(global_dir(p, m.claude_home@))),
        !under(q, components(global_dir(target, m.claude_home@))),
    ensures
        unchanged_at(a, b, q),
{
    let rename = rename_for(state, target, m.claude_home@);
    if rename_step(a, b, m.dry_run, rename, Err(e)) {
        lemma_global_quiet(a, b, m, state, target, Err(e), v, p, q);
    } else if exists|mid: FsView| #[trigger] sessions_cut(a, mid, b, m, state, target, e) {
        let mid = choose|mid: FsView| #[trigger] sessions_cut(a, mid, b, m, state, target, e);
        lemma_global_quiet(a, mid, m, state, target, Ok(()), v, p, q);
        lemma_updates_quiet(mid, b, m, state, target, Err(e), v, p, q);
    }
}

pub(crate) proof fn lemma_stopped_sessions_quiet(
    a: FsView,
    b: FsView,
    m: Migration,
    state: ProjectState,
    target: Seq<char>,
    e: Error,
    v: FsView,
    p: Seq<char>,
    q: Key,
)
    requires
        !m.dry_run,
        m.claude_home@.path.len() > 0,
        describes(state, v, p, m.claude_home@),
        sessions_fail(a, b, m, state, target, e),
        off_data(q, m.claude_home@.path),
    ensures
        unchanged_at(a, b, q),
{
    lemma_off_global(p, m.claude_home@, q);
    lemma_off_global(target, m.claude_home@, q);
    lemma_stopped_at_quiet(a, b, m, state, target, e, v, p, q);
}

proof fn lemma_units_quiet(
    t: ChainTrace,
    m: Migration,
    units: Seq<Unit>,
    v: FsView,
    q: Key,
    n: int,
)
    requires
        m.session_only,
        !m.dry_run,
        m.claude_home@.path.len() > 0,
        units_trace(t, m, units),
        forall|i: int|
            0 <= i < units.len() ==> describes(
                (#[trigger] units[i]).state,
                v,
                units[i].source@,
                m.claude_home@,
            ),
        off_data(q, m.claude_home@.path),
        0 <= n <= t.outs.len(),
    ensures
        unchanged_at(t.vs[0], t.vs[n], q),
    decreases n,
{
    if n > 0 {
        lemma_units_quiet(t, m, units, v, q, n - 1);
        let a = t.vs[n - 1];
        let b = t.vs[n];
        let u = units[n - 1];
        let out = t.outs[n - 1];
        assert(unit_step(t.vs[n - 1], t.vs[n - 1 + 1], m, u, out));
        let reports = choose|reports: Vec<UpdateReport>| #[trigger]
            sessions_step(a, b, m, u.state, u.target@, out.0, reports) && out.1 == reports@;
        let p = choose|p: ProjectTrace| #[trigger]
            sessions_trace(p, a, m, u.state, u.target@, out.0) && p.sessions == b
                && p.session_reports == reports;
        lemma_sessions_quiet(p, a, m, u.state, u.target@, out.0, v, u.source@, q);
    }
}

/// Without links to search for, nothing is found and nothing is repointed.
pub(crate) proof fn lemma_no_search(t: RunTrace, m: Migration, a: FsView, b: FsView)
    requires
        run_work(t, m, a, b),
        !m.relink,
    ensures
        t.repointed == t.moved,
        t.logged == t.moved,
        t.reported == t.moved,
{
    let c = t.outcome.relink_candidates@;
    assert(c.len() == 0 && alive(c).len() == 0) by {
        reveal(Seq::filter);
        let f = |p: Seq<char>| crate::links::is_candidate(a, p, m.subs@);
        assert(Seq::<Seq<char>>::empty().filter(f) =~= Seq::empty());
    }
    assert(crate::plan::reference_views(t.outcome.text_reference_findings@).len() == 0);
    if !m.dry_run {
        let s = choose|s: RelinkTrace| #[trigger]
            relink_trace(s, m.subs@, alive(c)) && s.vs[0] == t.moved && s.vs.last()
                == t.repointed && crate::relink::rows_of(t.entries) == crate::relink::repointed(
                m.subs@,
                alive(c),
                s.oks,
            ) && crate::relink::failed_paths(t.failures) == crate::relink::refused(
                m.subs@,
                alive(c),
                s.oks,
            );
        assert(crate::relink::rows_of(t.entries).len() == 0);
    }
}

/// Every unit of the run starts from the state that was found at its source.
pub(crate) open spec fn units_described(m: Migration, v: FsView) -> bool {
    forall|i: int|
        0 <= i < m.units@.len() ==> describes(
            (#[trigger] m.units@[i]).state,
            v,
            m.units@[i].source@,
            m.claude_home@,
        )
}

/// The backups of a run touch nothing but what lies among them.
pub(crate) proof fn lemma_all_backups_quiet(
    a: FsView,
    b: FsView,
    m: Migration,
    paths: Seq<FilePath>,
    q: Key,
)
    requires
        backups_step(a, b, m, paths),
        m.claude_home@.path.len() > 0,
        !under(q, components(backup_dir(m.claude_home@.path))),
    ensures
        kept_at(a, b, q, components(backup_dir(m.claude_home@.path))),
{
    if !(m.dry_run || m.no_backup) {
        let vs = choose|vs: Seq<FsView>| #[trigger]
            backups_trace(vs, m, backed_up(m.units@), paths) && vs[0] == a && vs.last() == b;
        lemma_backups_quiet(vs, m, backed_up(m.units@), paths, q, paths.len() as int);
    }
}

/// The units that have work left start from what was found at their sources.
pub(crate) proof fn lemma_active_described(m: Migration, v: FsView, i: int)
    requires
        units_described(m, v),
        0 <= i < active(m.units@).len(),
    ensures
        describes(
            active(m.units@)[i].state,
            v,
            active(m.units@)[i].source@,
            m.claude_home@,
        ),
{
    let units = active(m.units@);
    let f = |u: Unit| !u.nothing_to_do;
    assert(units.contains(units[i]));
    m.units@.lemma_filter_contains_rev(f, units[i]);
    let j = choose|j: int| 0 <= j < m.units@.len() && m.units@[j] == units[i];
    assert(describes(m.units@[j].state, v, m.units@[j].source@, m.claude_home@));
}

/// Moving the sessions of all units touches nothing outside of the data
/// directory.
proof fn lemma_work_quiet(
    a: FsView,
    b: FsView,
    m: Migration,
    renames: Seq<Option<GlobalRename>>,
    reports: Seq<UpdateReport>,
    v: FsView,
    q: Key,
)
    requires
        work_step(a, b, m, renames, reports),
        m.session_only,
        !m.dry_run,
        m.claude_home@.path.len() > 0,
        units_described(m, v),
        off_data(q, m.claude_home@.path),
    ensures
        unchanged_at(a, b, q),
{
    let units = active(m.units@);
    assert forall|i: int| 0 <= i < units.len() implies describes(
        (#[trigger] units[i]).state,
        v,
        units[i].source@,
        m.claude_home@,
    ) by {
        lemma_active_described(m, v, i);
    }
    let w = choose|w: ChainTrace| #[trigger]
        units_trace(w, m, active(m.units@)) && w.vs[0] == a && w.vs.last() == b && renames
            == w.outs.map_values(|o: Outcome| o.0) && reports == crate::apply::all_reports(w.outs);
    lemma_units_quiet(w, m, units, v, q, w.outs.len() as int);
}

/// Nor does it where it stops.
proof fn lemma_stopped_work_quiet(
    a: FsView,
    b: FsView,
    m: Migration,
    e: Error,
    v: FsView,
    q: Key,
)
    requires
        work_fail(a, b, m, e),
        m.session_only,
        !m.dry_run,
        m.claude_home@.path.len() > 0,
        units_described(m, v),
        off_data(q, m.claude_home@.path),
    ensures
        unchanged_at(a, b, q),
{
    let w = choose|w: ChainTrace| #[trigger] work_cut(w, b, m, e) && w.vs[0] == a;
    let n = w.outs.len() as int;
    let units = active(m.units@).take(n);
    assert forall|i: int| 0 <= i < units.len() implies describes(
        (#[trigger] units[i]).state,
        v,
        units[i].source@,
        m.claude_home@,
    ) by {
        lemma_active_described(m, v, i);
    }
    lemma_units_quiet(w, m, units, v, q, n);
    lemma_active_described(m, v, n);
    let u = active(m.units@)[n];
    lemma_stopped_sessions_quiet(w.vs.last(), b, m, u.state, u.target@, e, v, u.source@, q);
}

/// A backup that fails touches nothing but what lies among them, nor do
/// those before it.
pub(crate) proof fn lemma_stopped_backups_quiet(a: FsView, b: FsView, m: Migration, e: Error, q: Key)
    requires
        backups_fail(a, b, m, e),
        m.claude_home@.path.len() > 0,
        !under(q, components(backup_dir(m.claude_home@.path))),
    ensures
        kept_at(a, b, q, components(backup_dir(m.claude_home@.path))),
{
    let (vs, paths) = choose|vs: Seq<FsView>, paths: Seq<FilePath>| #[trigger]
        backups_cut(vs, b, m, paths, e) && vs[0] == a;
    let n = paths.len() as int;
    lemma_backups_quiet(vs, m, backed_up(m.units@).take(n), paths, q, n);
    let s = unit_sources(m, backed_up(m.units@)[n]);
    lemma_backup_under(s);
    let mid = choose|mid: FsView| #[trigger]
        made_backup_dir(vs.last(), mid, s) && backup_stops(mid, b, s, e);
    assert(kept_at(vs.last(), mid, q, components(backup_dir(m.claude_home@.path))));
}

/// The shared files are the only ones that are rewritten behind the units.
pub(crate) proof fn lemma_shared_quiet(
    a: FsView,
    mid: FsView,
    b: FsView,
    m: Migration,
    history_reports: Seq<UpdateReport>,
    json_reports: Seq<UpdateReport>,
    q: Key,
)
    requires
        history_step(a, mid, m, history_reports),
        claude_json_step(mid, b, m, json_reports),
        m.history_jsonl matches Some(p) ==> p.key() != q,
        m.claude_json matches Some(p) ==> p.key() != q,
    ensures
        unchanged_at(a, b, q),
{
}

/// What a session-only run does leaves every file alone but those in the data
/// directory and the registry file.
proof fn lemma_done_quiet(t: RunTrace, m: Migration, a: FsView, b: FsView, q: Key)
    requires
        run_work(t, m, a, b),
        m.session_only,
        !m.relink,
        !m.dry_run,
        m.claude_home@.path.len() > 0,
        units_described(m, a),
        off_data(q, m.claude_home@.path),
        m.history_jsonl matches Some(p) ==> p.key() != q,
        m.claude_json matches Some(p) ==> p.key() != q,
    ensures
        kept_at(a, b, q, components(backup_dir(m.claude_home@.path))),
{
    lemma_all_backups_quiet(a, t.backed_up, m, t.backups, q);
    lemma_work_quiet(t.backed_up, t.moved, m, t.renames, t.reports, a, q);
    lemma_no_search(t, m, a, b);
    lemma_shared_quiet(t.reported, t.history, b, m, t.history_reports, t.json_reports, q);
}

/// So does one that stops on the way.
proof fn lemma_stopped_quiet(m: Migration, a: FsView, b: FsView, e: Error, q: Key)
    requires
        stops(m, a, b, e),
        m.session_only,
        !m.relink,
        !m.dry_run,
        m.claude_home@.path.len() > 0,
        units_described(m, a),
        off_data(q, m.claude_home@.path),
        m.history_jsonl matches Some(p) ==> p.key() != q,
        m.claude_json matches Some(p) ==> p.key() != q,
    ensures
        kept_at(a, b, q, components(backup_dir(m.claude_home@.path))),
{
    if backups_fail(a, b, m, e) {
        lemma_stopped_backups_quiet(a, b, m, e, q);
    } else if exists|mid: FsView, paths: Seq<FilePath>| #[trigger]
        work_stops(a, mid, b, m, paths, e) {
        let (mid, paths) = choose|mid: FsView, paths: Seq<FilePath>| #[trigger]
            work_stops(a, mid, b, m, paths, e);
        lemma_all_backups_quiet(a, mid, m, paths, q);
        lemma_stopped_work_quiet(mid, b, m, e, a, q);
    } else {
        let t = choose|t: RunTrace| #[trigger] check_stops(t, a, b, m, e);
        lemma_done_quiet(t, m, a, b, q);
    }
}

/// The shared files of a run, as its first unit names them.
proof fn lemma_shared_paths(
    state: ProjectState,
    v: FsView,
    p: Seq<char>,
    home: HomeView,
    q: Key,
)
    requires
        describes(state, v, p, home),
        q != components(join_text(home.path, "history.jsonl"@)),
        claude_json_path(home) matches Some(p) ==> q != components(p),
    ensures
        state.history_jsonl matches Some(p) ==> p.key() != q,
        state.claude_json matches Some(p) ==> p.key() != q,
{
}

/// A session-only run that is prepared starts from what its plan found.
pub(crate) proof fn lemma_units_described(
    m0: Migration,
    m: Migration,
    marked: Seq<Unit>,
    v: FsView,
    moves: Seq<Move>,
)
    requires
        is_prepared(m0, m, marked, v),
        m0.session_only,
        m0.units@.len() == moves.len(),
        are_plan_units(m0.units@, v, moves, m0.claude_home@),
    ensures
        units_described(m, v),
{
    assert forall|i: int| 0 <= i < m.units@.len() implies describes(
        (#[trigger] m.units@[i]).state,
        v,
        m.units@[i].source@,
        m.claude_home@,
    ) by {
        assert(same_move(m0.units@[i], marked[i]));
        assert(m0.units@[i].is_fresh(moves[i].source, moves[i].target));
    }
}

/// So it does, and it shares the files that its first unit names.
proof fn lemma_prepared_described(
    m0: Migration,
    m: Migration,
    marked: Seq<Unit>,
    v: FsView,
    moves: Seq<Move>,
    home: HomeView,
    q: Key,
)
    requires
        is_prepared(m0, m, marked, v),
        m0.session_only,
        m0.claude_home@ == home,
        m0.units@.len() > 0,
        m0.units@.len() == moves.len(),
        are_plan_units(m0.units@, v, moves, home),
        m0.history_jsonl == m0.units@[0].state.history_jsonl,
        m0.claude_json == m0.units@[0].state.claude_json,
        q != components(join_text(home.path, "history.jsonl"@)),
        claude_json_path(home) matches Some(p) ==> q != components(p),
    ensures
        units_described(m, v),
        m.history_jsonl matches Some(p) ==> p.key() != q,
        m.claude_json matches Some(p) ==> p.key() != q,
{
    lemma_units_described(m0, m, marked, v, moves);
    assert(m0.units@[0].is_fresh(moves[0].source, moves[0].target));
    lemma_shared_paths(m0.units@[0].state, v, moves[0].source@, home, q);
}

/// What a session-only run leaves alone, from what its plan found.
proof fn lemma_session_only_quiet(
    m0: Migration,
    a: FsView,
    b: FsView,
    moves: Seq<Move>,
    home: HomeView,
    o: MigrateOpts,
    timestamp: Seq<char>,
    r: Result<MigrationReport, Error>,
    q: Key,
)
    requires
        home.path.len() > 0,
        o.session_only && !o.relink,
        is_set_up(m0, m0.units@, home, o, timestamp),
        m0.units@.len() == moves.len(),
        are_plan_units(m0.units@, a, moves, home),
        ran(m0, a, b, r),
        off_data(q, home.path),
        q != components(join_text(home.path, "history.jsonl"@)),
        claude_json_path(home) matches Some(p) ==> q != components(p),
    ensures
        kept_at(a, b, q, components(backup_dir(home.path))),
{
    if m0.dry_run {
        law_dry_run_changes_nothing(m0, a, b, r);
    } else if !all_settled(m0) {
        match r {
            Ok(report) => {
                let (m, marked) = choose|m: Migration, marked: Seq<Unit>| #[trigger]
                    is_prepared(m0, m, marked, a) && goes_through(m, a, b, report);
                lemma_prepared_described(m0, m, marked, a, moves, home, q);
                let t = choose|t: RunTrace| #[trigger] run_trace(t, m, a, b, report);
                lemma_done_quiet(t, m, a, b, q);
            },
            Err(e) => {
                if exists|m: Migration, marked: Seq<Unit>| #[trigger]
                    is_prepared(m0, m, marked, a) && stops(m, a, b, e) {
                    let (m, marked) = choose|m: Migration, marked: Seq<Unit>| #[trigger]
                        is_prepared(m0, m, marked, a) && stops(m, a, b, e);
                    lemma_prepared_described(m0, m, marked, a, moves, home, q);
                    lemma_stopped_quiet(m, a, b, e, q);
                }
            },
        }
    }
}

/// A session-only command leaves everything alone but the global directories, the
/// backups, the history and the registry file, also where it fails: no other
/// file, directory or link changes, and neither project directory is touched.
/// All that may be made elsewhere are the directories that the backups lie in.
pub proof fn law_session_only_leaves_projects(
    c: Command,
    a: FsView,
    b: FsView,
    home: HomeView,
    timestamp: Seq<char>,
    r: Result<MigrationReport, Error>,
    q: Key,
)
    requires
        home.path.len() > 0,
        executed(c, a, b, home, timestamp, r),
        move_options(c) matches Some(o) && o.session_only && !o.relink,
        off_data(q, home.path),
        q != components(join_text(home.path, "history.jsonl"@)),
        claude_json_path(home) matches Some(p) ==> q != components(p),
    ensures
        kept_at(a, b, q, components(backup_dir(home.path))),
{
    let o = move_options(c)->0;
    let moves = asked_moves(c);
    assert(batch_ran(a, b, moves, home, o, timestamp, r));
    if plan_accepted(a, moves, home, o) {
        let m0 = choose|m: Migration| #[trigger]
            is_set_up(m, m.units@, home, o, timestamp) && m.units@.len() == moves.len()
                && are_plan_units(m.units@, a, moves, home) && ran(m, a, b, r);
        lemma_session_only_quiet(m0, a, b, moves, home, o, timestamp, r, q);
    }
}

/// A file that one step updates keeps what it got through all other steps.
proof fn lemma_updated_once(
    vs: Seq<FsView>,
    files: Seq<FilePath>,
    subs: Pairs,
    reports: Seq<UpdateReport>,
    i: int,
    n: int,
)
    requires
        file_steps(vs, files, subs, false, reports),
        reports.len() == files.len(),
        0 <= i < files.len(),
        0 <= n <= files.len(),
        subs.len() > 0,
        vs[0].present.contains(files[i].key()),
        vs[0].text(files[i].key()) is Some,
        forall|j: int| 0 <= j < files.len() && j != i ==> (#[trigger] files[j]).key() != files[i].key(),
    ensures
        vs[n].present.contains(files[i].key()),
        vs[n].text(files[i].key()) == Some(
            if n <= i {
                vs[0].text(files[i].key())->0
            } else {
                replaced(subs, vs[0].text(files[i].key())->0)
            },
        ),
    decreases n,
{
    if n > 0 {
        lemma_updated_once(vs, files, subs, reports, i, n - 1);
        let a = vs[n - 1];
        let b = vs[n];
        let k = files[i].key();
        let f = files[n - 1];
        assert(file_step(vs[n - 1], vs[n - 1 + 1], f, subs, false, Ok(reports[n - 1])));
        if n - 1 == i {
            let text = a.text(k)->0;
            if replacements(a, f, subs) == 0 {
                assert(matches_in(subs, text).len() == 0);
                lemma_unmatched_replacement(subs, text);
            } else {
                law_write_reads_back(a, b, k, replaced(subs, text));
            }
        } else if replacements(a, f, subs) > 0 {
            assert(f.key() != k);
            assert(b.file(k) == a.file(k));
        }
    }
}

/// A text without a match is replaced by itself.
pub(crate) proof fn lemma_unmatched_replacement(subs: Pairs, s: Seq<char>)
    requires
        matches_in(subs, s).len() == 0,
    ensures
        replaced(subs, s) == s,
{
    law_replacement_is_one_pass(subs, s);
    assert(s.subrange(0, s.len() as int) =~= s);
}

/// A session file moves along with its global directory, and every reference in
/// it is replaced on the way and counted. The file is text and no link, no link is where it
/// arrives, and no other session of the project is the same file.
pub proof fn law_session_file_follows(
    t: ProjectTrace,
    a: FsView,
    m: Migration,
    state: ProjectState,
    target: Seq<char>,
    rename: Option<GlobalRename>,
    i: int,
)
    requires
        !m.dry_run,
        m.subs@.len() > 0,
        sessions_trace(t, a, m, state, target, rename),
        rename is Some,
        // The directory is moved as a whole, not put together with another.
        a.dirs.contains(components((rename_view(rename)->0).0)),
        !a.links.contains_key(components((rename_view(rename)->0).0)),
        !a.dirs.contains(components((rename_view(rename)->0).1)),
        (rename_view(rename)->0).0.len() > 0,
        (rename_view(rename)->0).1.len() > 0,
        apart(
            components((rename_view(rename)->0).0),
            components((rename_view(rename)->0).1),
        ),
        0 <= i < session_list(state).len(),
        a.text(components(session_list(state)[i])) is Some,
        !a.links.contains_key(components(session_list(state)[i])),
        !a.links.contains_key(
            components(
                followed(
                    session_list(state)[i],
                    (rename_view(rename)->0).0,
                    (rename_view(rename)->0).1,
                ),
            ),
        ),
        forall|j: int|
            0 <= j < session_list(state).len() && j != i ==> components(
                #[trigger] session_list(state)[j],
            ) != components(session_list(state)[i]),
    ensures
        t.sessions.text(
            components(
                followed(
                    session_list(state)[i],
                    (rename_view(rename)->0).0,
                    (rename_view(rename)->0).1,
                ),
            ),
        ) == Some(replaced(m.subs@, a.text(components(session_list(state)[i]))->0)),
        t.session_reports@.len() == session_list(state).len(),
        t.session_reports@[i].replacements == matches_in(
            m.subs@,
            a.text(components(session_list(state)[i]))->0,
        ).len(),
{
    let old = (rename_view(rename)->0).0;
    let new = (rename_view(rename)->0).1;
    let list = session_list(state);
    let from = components(old);
    let to = components(new);
    assert(state.global_project_dir is Some);
    assert(state.global_project_dir->0@ == old);
    let places = session_places(state, old, new, m.dry_run);
    let files = choose|files: Seq<FilePath>| #[trigger]
        files_at_step(
            t.renamed,
            t.sessions,
            files,
            places,
            m.subs@,
            m.dry_run,
            Ok(t.session_reports),
        );
    assert(texts(files) == places);
    assert(texts(files).len() == files.len());
    let vs = choose|vs: Seq<FsView>| #[trigger]
        file_steps(vs, files, m.subs@, m.dry_run, t.session_reports@) && vs[0] == t.renamed
            && vs.last() == t.sessions;
    assert forall|j: int| 0 <= j < files.len() implies (#[trigger] files[j]).key() == to
        + components(list[j]).skip(from.len() as int) && under(components(list[j]), from) by {
        assert(texts(files)[j] == files[j]@);
        assert(places[j] == followed(list[j], old, new));
        assert(under(components(list[j]), from));
        lemma_strip_components(list[j], from.len() as int);
        lemma_components_join(new, strip_text(list[j], from.len() as int));
    }
    let below = components(list[i]).skip(from.len() as int);
    assert(from + below =~= components(list[i]));
    law_moved_directory_keeps_files(a, t.renamed, from, to, below);
    assert(t.renamed.present.contains(to + below)) by {
        assert((to + below).subrange(0, to.len() as int) =~= to);
        assert((to + below).skip(to.len() as int) =~= below);
        assert(arrives(a, from, to, to + below));
        assert(files[i].key() == to + below);
        assert(texts(files)[i] == files[i]@);
    }
    assert forall|j: int| 0 <= j < files.len() && j != i implies (#[trigger] files[j]).key()
        != files[i].key() by {
        if files[j].key() == files[i].key() {
            let other = components(list[j]).skip(from.len() as int);
            assert((to + other).skip(to.len() as int) =~= other);
            assert((to + below).skip(to.len() as int) =~= below);
            assert(from + other =~= components(list[j]));
        }
    }
    assert(files[i].key() == components(followed(list[i], old, new))) by {
        assert(texts(files)[i] == files[i]@);
    }
    lemma_updated_once(vs, files, m.subs@, t.session_reports@, i, i);
    assert(file_step(vs[i], vs[i + 1], files[i], m.subs@, false, Ok(t.session_reports@[i])));
    lemma_updated_once(vs, files, m.subs@, t.session_reports@, i, files.len() as int);
}

} // verus!
