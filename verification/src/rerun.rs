//! What a run does that was done before.

use vstd::prelude::*;

use crate::apply::active;
use crate::apply::all_reports;
use crate::apply::below_cut;
use crate::apply::dir_cut;
use crate::apply::files_at_step;
use crate::apply::followed;
use crate::apply::ok_reports;
use crate::apply::optional_step;
use crate::apply::project_step;
use crate::apply::project_trace;
use crate::apply::references_trace;
use crate::apply::rename_for;
use crate::apply::session_list;
use crate::apply::session_places;
use crate::apply::session_step;
use crate::apply::sessions_cut;
use crate::apply::sessions_fail;
use crate::apply::sessions_inside;
use crate::apply::sessions_step;
use crate::apply::sessions_trace;
use crate::apply::state_readable;
use crate::apply::subprojects_cut;
use crate::apply::unit_fail;
use crate::apply::unit_step;
use crate::apply::unit_trace;
use crate::apply::units_trace;
use crate::apply::work_cut;
use crate::apply::work_fail;
use crate::apply::ChainTrace;
use crate::apply::Outcome;
use crate::apply::ProjectTrace;
use crate::apply::UnitTrace;
use crate::error::Error;
use crate::fs::texts;
use crate::fs::FsView;
use crate::home::HomeView;
use crate::laws::lemma_no_search;
use crate::migration::all_fresh;
use crate::migration::all_settled;
use crate::migration::check_stops;
use crate::migration::checks_pass;
use crate::migration::discovery_refused;
use crate::migration::goes_through;
use crate::migration::is_prepared;
use crate::migration::is_refused;
use crate::migration::is_verified;
use crate::migration::ran;
use crate::migration::run_trace;
use crate::migration::run_work;
use crate::migration::stops;
use crate::migration::work_stops;
use crate::migration::MigrationReport;
use crate::migration::RunTrace;
use crate::path::components;
use crate::path::lemma_components_join;
use crate::path::lemma_strip_components;
use crate::path::strip_text;
use crate::path::under;
use crate::path::FilePath;
use crate::plan::are_marked;
use crate::plan::discovery_fault;
use crate::plan::run_files;
use crate::plan::same_move;
use crate::plan::state_files;
use crate::plan::sub_files;
use crate::plan::unit_files;
use crate::plan::unreadable;
use crate::plan::Migration;
use crate::scanner::describes;
use crate::scanner::ProjectState;
use crate::substitution::matches_in;
use crate::substitution::Pairs;
use crate::unit::is_absolute;
use crate::unit::keys_of_file;
use crate::unit::subproject_keys;
use crate::unit::Unit;
use crate::updater::file_step;
use crate::updater::file_steps;
use crate::updater::key_replacements;
use crate::updater::replacements;
use crate::updater::UpdateReport;

verus! {

/// Nothing in the file at `f` is due to be replaced.
pub open spec fn is_current(v: FsView, f: Seq<char>, subs: Pairs) -> bool {
    v.text(components(f)) matches Some(text) ==> matches_in(subs, text).len() == 0
}

/// All files of the project are current.
pub open spec fn all_current(v: FsView, state: ProjectState, subs: Pairs) -> bool {
    forall|i: int|
        0 <= i < state_files(state).len() ==> is_current(v, #[trigger] state_files(state)[i], subs)
}

/// The unit was moved before: nothing is left at its source, what is found is found
/// at its target, and nothing there refers to the source.
pub open spec fn is_done(v: FsView, m: Migration, u: Unit) -> bool {
    &&& !v.dirs.contains(u.source.key())
    &&& describes(u.state, v, u.target@, m.claude_home@)
    &&& all_current(v, u.state, m.subs@)
    &&& keys_of_file(v, m.claude_json) matches Some(keys) ==> subproject_keys(
        keys,
        u.source@,
    ).len() == 0
}

/// No report says that something was replaced.
pub open spec fn all_quiet(reports: Seq<UpdateReport>) -> bool {
    forall|i: int| 0 <= i < reports.len() ==> (#[trigger] reports[i]).replacements == 0
}

/// Where nothing is due in any of the files, none of them is written.
proof fn lemma_files_still(
    vs: Seq<FsView>,
    files: Seq<FilePath>,
    subs: Pairs,
    dry_run: bool,
    reports: Seq<UpdateReport>,
    n: int,
)
    requires
        file_steps(vs, files, subs, dry_run, reports),
        0 <= n <= reports.len(),
        forall|i: int| 0 <= i < files.len() ==> replacements(vs[0], #[trigger] files[i], subs) == 0,
    ensures
        vs[n] == vs[0],
        forall|i: int| 0 <= i < n ==> (#[trigger] reports[i]).replacements == 0,
    decreases n,
{
    if n > 0 {
        lemma_files_still(vs, files, subs, dry_run, reports, n - 1);
        assert(file_step(
            vs[n - 1],
            vs[n - 1 + 1],
            files[n - 1],
            subs,
            dry_run,
            Ok(reports[n - 1]),
        ));
        assert(replacements(vs[0], files[n - 1], subs) == 0);
    }
}

/// A session whose directory stays is found where it was.
proof fn lemma_stays(f: Seq<char>, dir: Seq<char>)
    requires
        dir.len() > 0,
        under(components(f), components(dir)),
    ensures
        components(followed(f, dir, dir)) == components(f),
{
    let n = components(dir).len() as int;
    lemma_strip_components(f, n);
    lemma_components_join(dir, strip_text(f, n));
    let k = components(f);
    assert(k.subrange(0, n) =~= components(dir));
    assert(components(dir) + k.skip(n) =~= k);
}

/// Updating the sessions of a project that is done writes nothing.
proof fn lemma_sessions_still(
    a: FsView,
    b: FsView,
    m: Migration,
    state: ProjectState,
    r: Result<Vec<UpdateReport>, Error>,
)
    requires
        session_step(a, b, m, state, None, r),
        all_current(a, state, m.subs@),
        state.global_project_dir matches Some(dir) ==> dir@.len() > 0,
    ensures
        b == a,
        r matches Ok(reports) ==> all_quiet(reports@),
{
    if let Some(dir) = state.global_project_dir {
        if m.dry_run || sessions_inside(state, dir@) {
            let places = session_places(state, dir@, dir@, m.dry_run);
            let files = choose|files: Seq<FilePath>| #[trigger]
                files_at_step(a, b, files, places, m.subs@, m.dry_run, r);
            assert(texts(files).len() == files.len());
            assert forall|i: int| 0 <= i < files.len() implies replacements(
                a,
                #[trigger] files[i],
                m.subs@,
            ) == 0 by {
                let f = session_list(state)[i];
                assert(texts(files)[i] == files[i]@);
                assert(state_files(state)[i] == f);
                assert(is_current(a, state_files(state)[i], m.subs@));
                if !m.dry_run {
                    assert(places[i] == followed(f, dir@, dir@));
                    assert(under(components(f), components(dir@)));
                    lemma_stays(f, dir@);
                }
            }
            match r {
                Ok(reports) => {
                    let vs = choose|vs: Seq<FsView>| #[trigger]
                        file_steps(vs, files, m.subs@, m.dry_run, reports@) && vs[0] == a
                            && vs.last() == b;
                    lemma_files_still(
                        vs,
                        files,
                        m.subs@,
                        m.dry_run,
                        reports@,
                        reports@.len() as int,
                    );
                },
                Err(e) => {
                    let (vs, reports) = choose|vs: Seq<FsView>, reports: Seq<UpdateReport>|
                        #[trigger] file_steps(vs, files, m.subs@, m.dry_run, reports) && vs[0] == a
                            && vs.last() == b && reports.len() < files.len() && file_step(
                            b,
                            b,
                            files[reports.len() as int],
                            m.subs@,
                            m.dry_run,
                            Err(e),
                        );
                    lemma_files_still(vs, files, m.subs@, m.dry_run, reports, reports.len() as int);
                },
            }
        }
    }
}

/// A file in which nothing is due is not written.
proof fn lemma_optional_still(
    a: FsView,
    b: FsView,
    path: Option<FilePath>,
    m: Migration,
    reports: Seq<UpdateReport>,
)
    requires
        optional_step(a, b, path, m, reports),
        path matches Some(p) ==> is_current(a, p@, m.subs@),
    ensures
        b == a,
        all_quiet(reports),
{
    if let Some(p) = path {
        let r = choose|r: Result<UpdateReport, Error>| #[trigger]
            file_step(a, b, p, m.subs@, m.dry_run, r) && reports == ok_reports(r);
        assert(replacements(a, p, m.subs@) == 0);
    }
}

/// A project that is done has no directory to move.
proof fn lemma_no_rename(a: FsView, m: Migration, u: Unit)
    requires
        is_done(a, m, u),
        m.claude_home@.path.len() > 0,
    ensures
        rename_for(u.state, u.target@, m.claude_home@) is None,
        u.state.global_project_dir matches Some(dir) ==> dir@.len() > 0,
{
    crate::laws::lemma_global_under(u.target@, m.claude_home@);
}

/// The local files of a project that is done are current.
proof fn lemma_local_current(a: FsView, m: Migration, u: Unit)
    requires
        is_done(a, m, u),
    ensures
        u.state.settings_json matches Some(p) ==> is_current(a, p@, m.subs@),
        u.state.mcp_json matches Some(p) ==> is_current(a, p@, m.subs@),
{
    let all = state_files(u.state);
    let n = session_list(u.state).len() as int;
    if let Some(p) = u.state.settings_json {
        assert(all[n] == p@);
    }
    if let Some(p) = u.state.mcp_json {
        assert(all.last() == p@);
        assert(all[all.len() - 1] == p@);
    }
}

/// A unit that is done changes nothing.
proof fn lemma_unit_still(a: FsView, b: FsView, m: Migration, u: Unit, out: Outcome)
    requires
        unit_step(a, b, m, u, out),
        is_done(a, m, u),
        m.claude_home@.path.len() > 0,
        u.subprojects@.len() == 0,
    ensures
        b == a,
        all_quiet(out.1),
{
    lemma_no_rename(a, m, u);
    lemma_local_current(a, m, u);
    if m.session_only {
        let reports = choose|reports: Vec<UpdateReport>| #[trigger]
            sessions_step(a, b, m, u.state, u.target@, out.0, reports) && out.1 == reports@;
        let t = choose|t: ProjectTrace| #[trigger]
            sessions_trace(t, a, m, u.state, u.target@, out.0) && t.sessions == b
                && t.session_reports == reports;
        lemma_sessions_still(t.renamed, t.sessions, m, u.state, Ok(t.session_reports));
    } else {
        let w = choose|w: UnitTrace| #[trigger] unit_trace(w, a, b, m, u, out);
        let step = (out.0, w.reports);
        lemma_project_still(a, w.project, m, u, step);
        assert(w.chain.outs.len() == 0);
        assert(all_reports(w.chain.outs) =~= Seq::empty());
        assert(out.1 =~= w.reports);
    }
}

proof fn lemma_project_still(a: FsView, b: FsView, m: Migration, u: Unit, out: Outcome)
    requires
        project_step(a, b, m, u.state, u.target@, out),
        is_done(a, m, u),
        m.claude_home@.path.len() > 0,
    ensures
        b == a,
        all_quiet(out.1),
{
    lemma_no_rename(a, m, u);
    lemma_local_current(a, m, u);
    let t = choose|t: ProjectTrace| #[trigger]
        project_trace(t, a, b, m, u.state, u.target@, out);
    lemma_sessions_still(t.renamed, t.sessions, m, u.state, Ok(t.session_reports));
    lemma_optional_still(t.sessions, t.settings, u.state.settings_json, m, t.settings_reports);
    lemma_optional_still(t.settings, b, u.state.mcp_json, m, t.mcp_reports);
}

/// Nor does it where it stops.
proof fn lemma_stopped_unit_still(a: FsView, b: FsView, m: Migration, u: Unit, e: Error)
    requires
        unit_fail(a, b, m, u, e),
        is_done(a, m, u),
        m.claude_home@.path.len() > 0,
        u.subprojects@.len() == 0,
    ensures
        b == a,
{
    lemma_no_rename(a, m, u);
    if sessions_fail(a, b, m, u.state, u.target@, e) {
        if exists|mid: FsView| #[trigger] sessions_cut(a, mid, b, m, u.state, u.target@, e) {
            let mid = choose|mid: FsView| #[trigger]
                sessions_cut(a, mid, b, m, u.state, u.target@, e);
            lemma_sessions_still(mid, b, m, u.state, Err(e));
        }
    } else if exists|mid: FsView, out: Outcome| #[trigger] below_cut(a, mid, b, m, u, out, e) {
        let (mid, out) = choose|mid: FsView, out: Outcome| #[trigger]
            below_cut(a, mid, b, m, u, out, e);
        let t = choose|t: ChainTrace| #[trigger]
            subprojects_cut(t, b, m, u.subprojects@, e) && t.vs[0] == mid;
    } else {
        let (t, out) = choose|t: UnitTrace, out: Outcome| #[trigger] dir_cut(t, a, b, m, u, out, e);
        assert(references_trace(t, a, m, u, out));
        lemma_project_still(a, t.project, m, u, (out.0, t.reports));
    }
}

proof fn lemma_units_still(t: ChainTrace, m: Migration, units: Seq<Unit>, n: int)
    requires
        units_trace(t, m, units),
        m.claude_home@.path.len() > 0,
        forall|i: int|
            0 <= i < units.len() ==> is_done(t.vs[0], m, #[trigger] units[i])
                && units[i].subprojects@.len() == 0,
        0 <= n <= t.outs.len(),
    ensures
        t.vs[n] == t.vs[0],
        all_quiet(all_reports(t.outs.take(n))),
    decreases n,
{
    if n > 0 {
        lemma_units_still(t, m, units, n - 1);
        let out = t.outs[n - 1];
        assert(unit_step(t.vs[n - 1], t.vs[n - 1 + 1], m, units[n - 1], out));
        assert(is_done(t.vs[0], m, units[n - 1]));
        lemma_unit_still(t.vs[n - 1], t.vs[n], m, units[n - 1], out);
        assert(t.outs.take(n).drop_last() =~= t.outs.take(n - 1));
        assert(t.outs.take(n).last() == out);
    } else {
        assert(t.outs.take(0) =~= Seq::empty());
        assert(all_reports(t.outs.take(0)) =~= Seq::empty());
    }
}

/// What a run has left to do of which every unit is done: nothing.
proof fn lemma_work_still(t: RunTrace, m: Migration, a: FsView, b: FsView)
    requires
        run_work(t, m, a, b),
        m.no_backup && !m.relink,
        m.claude_home@.path.len() > 0,
        forall|i: int|
            0 <= i < active(m.units@).len() ==> is_done(a, m, #[trigger] active(m.units@)[i])
                && active(m.units@)[i].subprojects@.len() == 0,
        m.history_jsonl matches Some(p) ==> is_current(a, p@, m.subs@),
        m.claude_json matches Some(p) ==> key_replacements(a, p, m.subs@) == 0,
    ensures
        b == a,
        all_quiet(t.reports + t.history_reports + t.json_reports),
{
    let w = choose|w: ChainTrace| #[trigger]
        units_trace(w, m, active(m.units@)) && w.vs[0] == t.backed_up && w.vs.last() == t.moved
            && t.renames == w.outs.map_values(|o: Outcome| o.0) && t.reports == all_reports(w.outs);
    lemma_units_still(w, m, active(m.units@), w.outs.len() as int);
    assert(w.outs.take(w.outs.len() as int) =~= w.outs);
    lemma_no_search(t, m, a, b);
    lemma_optional_still(t.reported, t.history, m.history_jsonl, m, t.history_reports);
    assert(all_quiet(t.json_reports));
}

/// A run that was done before changes nothing when it is repeated, whatever comes
/// of it, and no report says that something was replaced. Each project is found at
/// its target, nothing is left at its source, no file refers to the source any
/// more, and neither backups nor a search for links were asked for.
pub proof fn law_repeated_run_changes_nothing(
    m: Migration,
    a: FsView,
    b: FsView,
    r: Result<MigrationReport, Error>,
)
    requires
        ran(m, a, b, r),
        m.no_backup && !m.relink,
        m.claude_home@.path.len() > 0,
        all_fresh(m.units@),
        forall|i: int| 0 <= i < m.units@.len() ==> is_done(a, m, #[trigger] m.units@[i]),
        m.history_jsonl matches Some(p) ==> is_current(a, p@, m.subs@),
        m.claude_json matches Some(p) ==> key_replacements(a, p, m.subs@) == 0,
    ensures
        b == a,
        r matches Ok(report) ==> all_quiet(report.files_updated@),
{
    if !all_settled(m) {
        match r {
            Ok(report) => {
                let (n, marked) = choose|n: Migration, marked: Seq<Unit>| #[trigger]
                    is_prepared(m, n, marked, a) && goes_through(n, a, b, report);
                let t = choose|t: RunTrace| #[trigger] run_trace(t, n, a, b, report);
                lemma_prepared_done(m, n, marked, a);
                lemma_work_still(t, n, a, b);
            },
            Err(e) => {
                if exists|n: Migration, marked: Seq<Unit>| #[trigger]
                    is_prepared(m, n, marked, a) && stops(n, a, b, e) {
                    let (n, marked) = choose|n: Migration, marked: Seq<Unit>| #[trigger]
                        is_prepared(m, n, marked, a) && stops(n, a, b, e);
                    lemma_prepared_done(m, n, marked, a);
                    lemma_stopped_still(n, a, b, e);
                }
            },
        }
    }
}

/// Units that are done are so once the run is prepared, and nothing is found below
/// them.
proof fn lemma_prepared_done(m: Migration, n: Migration, marked: Seq<Unit>, a: FsView)
    requires
        is_prepared(m, n, marked, a),
        all_fresh(m.units@),
        forall|i: int| 0 <= i < m.units@.len() ==> is_done(a, m, #[trigger] m.units@[i]),
    ensures
        forall|i: int|
            0 <= i < active(n.units@).len() ==> is_done(a, n, #[trigger] active(n.units@)[i])
                && active(n.units@)[i].subprojects@.len() == 0,
{
    let units = active(n.units@);
    let f = |u: Unit| !u.nothing_to_do;
    assert forall|i: int| 0 <= i < units.len() implies is_done(a, n, #[trigger] units[i])
        && units[i].subprojects@.len() == 0 by {
        assert(units.contains(units[i]));
        n.units@.lemma_filter_contains_rev(f, units[i]);
        let k = choose|k: int| 0 <= k < n.units@.len() && n.units@[k] == units[i];
        assert(same_move(m.units@[k], marked[k]));
        assert(same_move(marked[k], n.units@[k]));
        assert(is_done(a, m, m.units@[k]));
        assert(m.units@[k].subprojects@.len() == 0);
    }
}

proof fn lemma_stopped_still(m: Migration, a: FsView, b: FsView, e: Error)
    requires
        stops(m, a, b, e),
        m.no_backup && !m.relink,
        m.claude_home@.path.len() > 0,
        forall|i: int|
            0 <= i < active(m.units@).len() ==> is_done(a, m, #[trigger] active(m.units@)[i])
                && active(m.units@)[i].subprojects@.len() == 0,
        m.history_jsonl matches Some(p) ==> is_current(a, p@, m.subs@),
        m.claude_json matches Some(p) ==> key_replacements(a, p, m.subs@) == 0,
    ensures
        b == a,
{
    if exists|mid: FsView, paths: Seq<FilePath>| #[trigger] work_stops(a, mid, b, m, paths, e) {
        let (mid, paths) = choose|mid: FsView, paths: Seq<FilePath>| #[trigger]
            work_stops(a, mid, b, m, paths, e);
        assert(work_fail(a, b, m, e));
        let w = choose|w: ChainTrace| #[trigger] work_cut(w, b, m, e) && w.vs[0] == a;
        let n = w.outs.len() as int;
        let units = active(m.units@).take(n);
        assert forall|i: int| 0 <= i < units.len() implies is_done(a, m, #[trigger] units[i])
            && units[i].subprojects@.len() == 0 by {
            assert(units[i] == active(m.units@)[i]);
        }
        lemma_units_still(w, m, units, n);
        assert(is_done(a, m, active(m.units@)[n]));
        lemma_stopped_unit_still(w.vs.last(), b, m, active(m.units@)[n], e);
    } else {
        let t = choose|t: RunTrace| #[trigger] check_stops(t, a, b, m, e);
        lemma_work_still(t, m, a, b);
    }
}

/// The unit was moved before, and what is found of it at its target is sound: all of
/// it can be read, it lies where it belongs, and it speaks of the target.
pub open spec fn is_well(v: FsView, m: Migration, u: Unit) -> bool {
    &&& is_done(v, m, u)
    &&& is_absolute(u.target)
    &&& state_readable(v, u.state)
    &&& u.state.global_project_dir matches Some(dir) ==> sessions_inside(u.state, dir@)
    &&& is_verified(v, u, m.claude_home@)
}

/// Where nothing is registered below the units, there is nothing to fail at.
proof fn lemma_nothing_discovered(
    v: FsView,
    units: Seq<Unit>,
    keys: Seq<Seq<char>>,
    home: HomeView,
)
    requires
        forall|i: int|
            0 <= i < units.len() ==> subproject_keys(keys, (#[trigger] units[i]).source@).len()
                == 0,
    ensures
        discovery_fault(v, units, keys, home) is None,
    decreases units.len(),
{
    if units.len() > 0 {
        assert(subproject_keys(keys, units[units.len() - 1].source@).len() == 0);
        assert forall|i: int| 0 <= i < units.drop_last().len() implies subproject_keys(
            keys,
            (#[trigger] units.drop_last()[i]).source@,
        ).len() == 0 by {
            assert(subproject_keys(keys, units[i].source@).len() == 0);
        }
        lemma_nothing_discovered(v, units.drop_last(), keys, home);
    }
}

/// What the units read can be read.
proof fn lemma_units_readable(v: FsView, units: Seq<Unit>)
    requires
        forall|i: int|
            0 <= i < units.len() && !(#[trigger] units[i]).nothing_to_do ==> state_readable(
                v,
                units[i].state,
            ) && units[i].subprojects@.len() == 0,
    ensures
        forall|i: int|
            0 <= i < unit_files(units).len() ==> v.text(
                components(#[trigger] unit_files(units)[i]),
            ) is Some,
    decreases units.len(),
{
    if units.len() > 0 {
        let init = units.drop_last();
        let last = units[units.len() - 1];
        assert forall|i: int|
            0 <= i < init.len() && !(#[trigger] init[i]).nothing_to_do implies state_readable(
            v,
            init[i].state,
        ) && init[i].subprojects@.len() == 0 by {
            assert(units[i] == init[i]);
        }
        lemma_units_readable(v, init);
        if !last.nothing_to_do {
            let files = state_files(last.state);
            assert(sub_files(last.subprojects@) =~= Seq::empty());
            assert forall|i: int| 0 <= i < unit_files(units).len() implies v.text(
                components(#[trigger] unit_files(units)[i]),
            ) is Some by {
                let n = unit_files(init).len() as int;
                if i < n {
                    assert(unit_files(units)[i] == unit_files(init)[i]);
                } else {
                    assert(unit_files(units)[i] == files[i - n]);
                }
            }
        }
    }
}

/// A run of units that are well passes its checks.
proof fn lemma_checks_pass(v: FsView, m: Migration)
    requires
        !m.relink,
        forall|i: int|
            0 <= i < m.units@.len() && !(#[trigger] m.units@[i]).nothing_to_do ==> is_well(
                v,
                m,
                m.units@[i],
            ) && m.units@[i].subprojects@.len() == 0,
        m.history_jsonl matches Some(p) ==> v.text(p.key()) is Some,
        m.claude_json matches Some(p) ==> v.text(p.key()) is Some,
    ensures
        checks_pass(v, m),
{
    let files = run_files(m);
    lemma_units_readable(v, m.units@);
    assert forall|i: int| 0 <= i < files.len() implies v.text(
        components(#[trigger] files[i]),
    ) is Some by {
        let n = unit_files(m.units@).len() as int;
        if i < n {
            assert(files[i] == unit_files(m.units@)[i]);
        }
    }
    let f = |t: Seq<char>| v.text(components(t)) is None;
    if files.filter(f).len() > 0 {
        let t = files.filter(f)[0];
        assert(files.filter(f).contains(t));
        files.lemma_filter_contains_rev(f, t);
        let i = choose|i: int| 0 <= i < files.len() && files[i] == t;
        assert(v.text(components(files[i])) is Some);
    }
    assert(unreadable(v, files).len() == 0);
}

/// Updating the sessions of a project that is well does not fail.
proof fn lemma_sessions_go(
    a: FsView,
    b: FsView,
    m: Migration,
    state: ProjectState,
    e: Error,
)
    requires
        all_current(a, state, m.subs@),
        state_readable(a, state),
        state.global_project_dir matches Some(dir) ==> dir@.len() > 0 && sessions_inside(
            state,
            dir@,
        ),
    ensures
        !session_step(a, b, m, state, None, Err(e)),
{
    if session_step(a, b, m, state, None, Err(e)) {
        let r: Result<Vec<UpdateReport>, Error> = Err(e);
        lemma_sessions_still(a, b, m, state, r);
        let dir = state.global_project_dir->0@;
        let places = session_places(state, dir, dir, m.dry_run);
        let files = choose|files: Seq<FilePath>| #[trigger]
            files_at_step(a, b, files, places, m.subs@, m.dry_run, r);
        assert(texts(files).len() == files.len());
        let (vs, reports) = choose|vs: Seq<FsView>, reports: Seq<UpdateReport>|
            #[trigger] file_steps(vs, files, m.subs@, m.dry_run, reports) && vs[0] == a && vs.last()
                == b && reports.len() < files.len() && file_step(
                b,
                b,
                files[reports.len() as int],
                m.subs@,
                m.dry_run,
                Err(e),
            );
        let i = reports.len() as int;
        let f = session_list(state)[i];
        assert(texts(files)[i] == files[i]@);
        assert(state_files(state)[i] == f);
        assert(is_current(a, state_files(state)[i], m.subs@));
        if !m.dry_run {
            assert(places[i] == followed(f, dir, dir));
            assert(under(components(f), components(dir)));
            lemma_stays(f, dir);
        }
    }
}

/// A unit that is well does not stop the run.
proof fn lemma_unit_goes(a: FsView, b: FsView, m: Migration, u: Unit, e: Error)
    requires
        is_well(a, m, u),
        m.claude_home@.path.len() > 0,
        u.subprojects@.len() == 0,
    ensures
        !unit_fail(a, b, m, u, e),
{
    if unit_fail(a, b, m, u, e) {
        lemma_no_rename(a, m, u);
        if sessions_fail(a, b, m, u.state, u.target@, e) {
            let mid = choose|mid: FsView| #[trigger]
                sessions_cut(a, mid, b, m, u.state, u.target@, e);
            lemma_sessions_go(mid, b, m, u.state, e);
        } else if exists|mid: FsView, out: Outcome| #[trigger] below_cut(a, mid, b, m, u, out, e) {
            let (mid, out) = choose|mid: FsView, out: Outcome| #[trigger]
                below_cut(a, mid, b, m, u, out, e);
            let t = choose|t: ChainTrace| #[trigger]
                subprojects_cut(t, b, m, u.subprojects@, e) && t.vs[0] == mid;
        } else {
            let (t, out) = choose|t: UnitTrace, out: Outcome| #[trigger]
                dir_cut(t, a, b, m, u, out, e);
            assert(references_trace(t, a, m, u, out));
            lemma_project_still(a, t.project, m, u, (out.0, t.reports));
        }
    }
}

/// A run of units that are well does not stop.
proof fn lemma_run_goes(m: Migration, a: FsView, b: FsView, e: Error)
    requires
        m.no_backup && !m.relink,
        m.claude_home@.path.len() > 0,
        forall|i: int|
            0 <= i < m.units@.len() && !(#[trigger] m.units@[i]).nothing_to_do ==> is_well(
                a,
                m,
                m.units@[i],
            ) && m.units@[i].subprojects@.len() == 0,
        m.history_jsonl matches Some(p) ==> is_current(a, p@, m.subs@),
        m.claude_json matches Some(p) ==> key_replacements(a, p, m.subs@) == 0,
    ensures
        !stops(m, a, b, e),
{
    if stops(m, a, b, e) {
        let f = |u: Unit| !u.nothing_to_do;
        let all = active(m.units@);
        assert forall|i: int| 0 <= i < all.len() implies is_well(a, m, #[trigger] all[i])
            && all[i].subprojects@.len() == 0 && is_done(a, m, all[i]) by {
            assert(all.contains(all[i]));
            m.units@.lemma_filter_contains_rev(f, all[i]);
            let k = choose|k: int| 0 <= k < m.units@.len() && m.units@[k] == all[i];
            assert(f(all[i]));
            assert(is_well(a, m, m.units@[k]));
        }
        if exists|mid: FsView, paths: Seq<FilePath>| #[trigger] work_stops(a, mid, b, m, paths, e) {
            let (mid, paths) = choose|mid: FsView, paths: Seq<FilePath>| #[trigger]
                work_stops(a, mid, b, m, paths, e);
            assert(work_fail(a, b, m, e));
            let w = choose|w: ChainTrace| #[trigger] work_cut(w, b, m, e) && w.vs[0] == a;
            let n = w.outs.len() as int;
            let units = all.take(n);
            assert forall|i: int| 0 <= i < units.len() implies is_done(a, m, #[trigger] units[i])
                && units[i].subprojects@.len() == 0 by {
                assert(units[i] == all[i]);
            }
            lemma_units_still(w, m, units, n);
            assert(is_well(a, m, all[n]));
            lemma_unit_goes(w.vs.last(), b, m, all[n], e);
        } else {
            let t = choose|t: RunTrace| #[trigger] check_stops(t, a, b, m, e);
            lemma_work_still(t, m, a, b);
            let i = choose|i: int|
                0 <= i < m.units@.len() && #[trigger] crate::migration::is_verify_error(e, b, m, i);
            assert(is_well(a, m, m.units@[i]));
        }
    }
}

/// A run that was done before goes through when it is repeated, changes nothing and
/// replaces nothing. Each project is found at its target, sound and without a
/// reference to the source, nothing is left at its source, the files that all
/// projects share can be read and are current, and neither backups nor a search for
/// links were asked for.
pub proof fn law_repeated_run_goes_through(
    m: Migration,
    a: FsView,
    b: FsView,
    r: Result<MigrationReport, Error>,
)
    requires
        ran(m, a, b, r),
        m.no_backup && !m.relink,
        m.claude_home@.path.len() > 0,
        all_fresh(m.units@),
        forall|i: int| 0 <= i < m.units@.len() ==> is_well(a, m, #[trigger] m.units@[i]),
        keys_of_file(a, m.claude_json) is Some,
        m.history_jsonl matches Some(p) ==> is_current(a, p@, m.subs@) && a.text(p.key()) is Some,
        m.claude_json matches Some(p) ==> key_replacements(a, p, m.subs@) == 0,
    ensures
        r is Ok,
        b == a,
        r matches Ok(report) ==> all_quiet(report.files_updated@),
{
    assert forall|i: int| 0 <= i < m.units@.len() implies is_done(a, m, #[trigger] m.units@[i]) by {
        assert(is_well(a, m, m.units@[i]));
    }
    law_repeated_run_changes_nothing(m, a, b, r);
    if r is Err {
        let e = r->Err_0;
        if !m.session_only && discovery_refused(e, m, a) {
            let keys = keys_of_file(a, m.claude_json)->0;
            let marked = choose|marked: Seq<Unit>| #[trigger]
                are_marked(m.units@, marked, m.session_only) && discovery_fault(
                    a,
                    marked,
                    keys,
                    m.claude_home@,
                ) is Some;
            assert forall|i: int| 0 <= i < marked.len() implies subproject_keys(
                keys,
                (#[trigger] marked[i]).source@,
            ).len() == 0 by {
                assert(same_move(m.units@[i], marked[i]));
                assert(is_done(a, m, m.units@[i]));
            }
            lemma_nothing_discovered(a, marked, keys, m.claude_home@);
        } else if is_refused(e, m, a) {
            let (n, marked) = choose|n: Migration, marked: Seq<Unit>| #[trigger]
                is_prepared(m, n, marked, a) && !checks_pass(a, n);
            lemma_prepared_well(m, n, marked, a);
            lemma_checks_pass(a, n);
        } else {
            let (n, marked) = choose|n: Migration, marked: Seq<Unit>| #[trigger]
                is_prepared(m, n, marked, a) && stops(n, a, b, e);
            lemma_prepared_well(m, n, marked, a);
            lemma_run_goes(n, a, b, e);
        }
    }
}

/// Units that are well are so once the run is prepared, and nothing is found below
/// them.
proof fn lemma_prepared_well(m: Migration, n: Migration, marked: Seq<Unit>, a: FsView)
    requires
        is_prepared(m, n, marked, a),
        all_fresh(m.units@),
        forall|i: int| 0 <= i < m.units@.len() ==> is_well(a, m, #[trigger] m.units@[i]),
    ensures
        forall|i: int|
            0 <= i < n.units@.len() ==> is_well(a, n, #[trigger] n.units@[i])
                && n.units@[i].subprojects@.len() == 0,
{
    assert forall|k: int| 0 <= k < n.units@.len() implies is_well(a, n, #[trigger] n.units@[k])
        && n.units@[k].subprojects@.len() == 0 by {
        assert(same_move(m.units@[k], marked[k]));
        assert(same_move(marked[k], n.units@[k]));
        assert(is_well(a, m, m.units@[k]));
        assert(m.units@[k].subprojects@.len() == 0);
    }
}

} // verus!
