//! What a dry run says of a real one.

use vstd::prelude::*;

use crate::apply::active;
use crate::apply::files_at_step;
use crate::apply::followed;
use crate::apply::project_trace;
use crate::apply::rename_for;
use crate::apply::rename_view;
use crate::apply::session_list;
use crate::apply::sessions_step;
use crate::apply::sessions_trace;
use crate::apply::unit_step;
use crate::apply::unit_trace;
use crate::apply::units_trace;
use crate::apply::ChainTrace;
use crate::apply::GlobalRename;
use crate::apply::Outcome;
use crate::apply::ProjectTrace;
use crate::apply::UnitTrace;
use crate::fs::apart;
use crate::fs::texts;
use crate::fs::FsView;
use crate::laws::law_session_file_follows;
use crate::links::LinkCandidate;
use crate::migration::all_settled;
use crate::migration::goes_through;
use crate::migration::is_prepared;
use crate::migration::ran;
use crate::migration::run_trace;
use crate::migration::MigrationReport;
use crate::migration::MoveReport;
use crate::migration::RunTrace;
use crate::path::components;
use crate::path::FilePath;
use crate::plan::are_candidates;
use crate::plan::reference_views;
use crate::plan::same_move;
use crate::plan::searched;
use crate::plan::Migration;
use crate::relink::alive;
use crate::relink::failed_paths;
use crate::relink::refused;
use crate::relink::relink_trace;
use crate::relink::repointed;
use crate::relink::rows_of;
use crate::relink::RelinkTrace;
use crate::scanner::ProjectState;
use crate::substitution::Pairs;
use crate::unit::Unit;
use crate::updater::file_step;
use crate::updater::file_steps;
use crate::updater::UpdateReport;

verus! {

/// The same units have work left in both lists.
proof fn lemma_active_alike(a: Seq<Unit>, b: Seq<Unit>)
    requires
        a.len() == b.len(),
        forall|i: int|
            0 <= i < a.len() ==> same_move(#[trigger] a[i], b[i]) && a[i].nothing_to_do
                == b[i].nothing_to_do,
    ensures
        active(a).len() == active(b).len(),
        forall|i: int| 0 <= i < active(a).len() ==> same_move(#[trigger] active(a)[i], active(b)[i]),
    decreases a.len(),
{
    reveal(Seq::filter);
    if a.len() > 0 {
        assert(same_move(a[a.len() - 1], b[a.len() - 1]));
        assert forall|i: int| 0 <= i < a.len() - 1 implies same_move(
            #[trigger] a.drop_last()[i],
            b.drop_last()[i],
        ) && a.drop_last()[i].nothing_to_do == b.drop_last()[i].nothing_to_do by {
            assert(same_move(a[i], b[i]));
        }
        lemma_active_alike(a.drop_last(), b.drop_last());
    }
}

/// Both candidates describe the same link.
pub open spec fn same_candidate(c: LinkCandidate, d: LinkCandidate) -> bool {
    c.path@ == d.path@ && c.new_target@ == d.new_target@ && c.alive == d.alive
}

/// The same links are alive in both lists.
proof fn lemma_alive_alike(c: Seq<LinkCandidate>, d: Seq<LinkCandidate>)
    requires
        c.len() == d.len(),
        forall|i: int| 0 <= i < c.len() ==> same_candidate(#[trigger] c[i], d[i]),
    ensures
        alive(c).len() == alive(d).len(),
    decreases c.len(),
{
    reveal(Seq::filter);
    if c.len() > 0 {
        assert(same_candidate(c[c.len() - 1], d[c.len() - 1]));
        assert forall|i: int| 0 <= i < c.len() - 1 implies same_candidate(
            #[trigger] c.drop_last()[i],
            d.drop_last()[i],
        ) by {
            assert(same_candidate(c[i], d[i]));
        }
        lemma_alive_alike(c.drop_last(), d.drop_last());
    }
}

/// Every link is repointed or refused.
proof fn lemma_each_tried(subs: Pairs, list: Seq<LinkCandidate>, oks: Seq<bool>)
    ensures
        repointed(subs, list, oks).len() + refused(subs, list, oks).len() == oks.len(),
    decreases oks.len(),
{
    if oks.len() > 0 {
        lemma_each_tried(subs, list, oks.drop_last());
    }
}

/// Where the global directory of a unit goes depends on nothing but the unit.
proof fn lemma_rename_of(a: FsView, b: FsView, m: Migration, u: Unit, out: Outcome)
    requires
        unit_step(a, b, m, u, out),
    ensures
        rename_view(out.0) == rename_for(u.state, u.target@, m.claude_home@),
{
    if m.session_only {
        let reports = choose|reports: Vec<UpdateReport>| #[trigger]
            sessions_step(a, b, m, u.state, u.target@, out.0, reports) && out.1 == reports@;
        let t = choose|t: ProjectTrace| #[trigger]
            sessions_trace(t, a, m, u.state, u.target@, out.0) && t.sessions == b
                && t.session_reports == reports;
        assert(sessions_trace(t, a, m, u.state, u.target@, out.0));
    } else {
        let w = choose|w: UnitTrace| #[trigger] unit_trace(w, a, b, m, u, out);
        let step = (out.0, w.reports);
        let t = choose|t: ProjectTrace| #[trigger]
            project_trace(t, a, w.project, m, u.state, u.target@, step);
        assert(sessions_trace(t, a, m, u.state, u.target@, out.0));
    }
}

/// What the reports on the moves of a run say.
proof fn lemma_moves_of(t: RunTrace, n: Migration, a: FsView, b: FsView, report: MigrationReport, i: int)
    requires
        run_trace(t, n, a, b, report),
        0 <= i < active(n.units@).len(),
    ensures
        report.moves@.len() == active(n.units@).len(),
        report.moves@[i].source == active(n.units@)[i].source,
        report.moves@[i].target == active(n.units@)[i].target,
        rename_view(report.moves@[i].global_dir_rename) == rename_for(
            active(n.units@)[i].state,
            active(n.units@)[i].target@,
            n.claude_home@,
        ),
{
    let w = choose|w: ChainTrace| #[trigger]
        units_trace(w, n, active(n.units@)) && w.vs[0] == t.backed_up && w.vs.last() == t.moved
            && t.renames == w.outs.map_values(|o: Outcome| o.0) && t.reports
            == crate::apply::all_reports(w.outs);
    let out = w.outs[i];
    assert(unit_step(w.vs[i], w.vs[i + 1], n, active(n.units@)[i], out));
    lemma_rename_of(w.vs[i], w.vs[i + 1], n, active(n.units@)[i], out);
    assert(report.moves@[i].source == active(n.units@)[i].source);
    assert(t.renames[i] == out.0);
}

/// The two reports speak of the same move.
pub open spec fn same_report(r: MoveReport, s: MoveReport) -> bool {
    &&& r.source == s.source
    &&& r.target == s.target
    &&& rename_view(r.global_dir_rename) == rename_view(s.global_dir_rename)
}

/// How many links a run tried to repoint.
proof fn lemma_tried(t: RunTrace, n: Migration, a: FsView, b: FsView, report: MigrationReport)
    requires
        run_trace(t, n, a, b, report),
        !n.dry_run,
    ensures
        report.relinked_count <= alive(t.outcome.relink_candidates@).len(),
        alive(t.outcome.relink_candidates@).len() <= report.relinked_count
            + report.relink_failures@.len(),
{
    let c = t.outcome.relink_candidates@;
    let s = choose|s: RelinkTrace| #[trigger]
        relink_trace(s, n.subs@, alive(c)) && s.vs[0] == t.moved && s.vs.last() == t.repointed
            && rows_of(t.entries) == repointed(n.subs@, alive(c), s.oks) && failed_paths(t.failures)
            == refused(n.subs@, alive(c), s.oks);
    lemma_each_tried(n.subs@, alive(c), s.oks);
    assert(rows_of(t.entries).len() == t.entries.len());
    assert(failed_paths(report.relink_failures@).len() == report.relink_failures@.len());
}

/// A dry run foretells the real one. Of the same run on the same state, where both
/// go through, the reports name the same moves and the same places for the global
/// directories, and count the same references in texts. The links that the dry run
/// lists are as many as the real run repoints, with those that it fails at.
pub proof fn law_dry_run_foretells(
    m: Migration,
    d: Migration,
    a: FsView,
    b: FsView,
    c: FsView,
    wet: MigrationReport,
    dry: MigrationReport,
)
    requires
        ran(m, a, b, Ok(wet)),
        !m.dry_run,
        d == (Migration { dry_run: true, ..m }),
        ran(d, a, c, Ok(dry)),
    ensures
        c == a,
        dry.action@ == wet.action@,
        dry.nothing_to_do == wet.nothing_to_do,
        dry.moves@.len() == wet.moves@.len(),
        forall|i: int|
            0 <= i < dry.moves@.len() ==> same_report(#[trigger] dry.moves@[i], wet.moves@[i]),
        dry.text_reference_count == wet.text_reference_count,
        wet.relinked_count <= dry.relink_candidates@.len() <= wet.relinked_count
            + wet.relink_failures@.len(),
{
    crate::laws::law_dry_run_changes_nothing(d, a, c, Ok(dry));
    assert(all_settled(d) == all_settled(m)) by {
        if all_settled(d) {
            assert forall|i: int| 0 <= i < m.units@.len() implies crate::plan::is_settled(
                #[trigger] m.units@[i],
                m.session_only,
            ) by {
                assert(crate::plan::is_settled(d.units@[i], d.session_only));
            }
        }
    }
    if !all_settled(m) {
        let (n, marked) = choose|n: Migration, marked: Seq<Unit>| #[trigger]
            is_prepared(m, n, marked, a) && goes_through(n, a, b, wet);
        let (k, also) = choose|k: Migration, also: Seq<Unit>| #[trigger]
            is_prepared(d, k, also, a) && goes_through(k, a, c, dry);
        let t = choose|t: RunTrace| #[trigger] run_trace(t, n, a, b, wet);
        let s = choose|s: RunTrace| #[trigger] run_trace(s, k, a, c, dry);
        lemma_prepared_alike(m, n, marked, k, also, a);
        lemma_active_alike(k.units@, n.units@);
        assert(dry.moves@.len() == active(k.units@).len());
        assert forall|i: int| 0 <= i < dry.moves@.len() implies same_report(
            #[trigger] dry.moves@[i],
            wet.moves@[i],
        ) by {
            lemma_moves_of(t, n, a, b, wet, i);
            lemma_moves_of(s, k, a, c, dry, i);
            assert(same_move(active(k.units@)[i], active(n.units@)[i]));
        }
        let paths = searched(a, m);
        assert(searched(a, n) == paths && searched(a, k) == paths);
        assert(reference_views(t.outcome.text_reference_findings@).len()
            == t.outcome.text_reference_findings@.len());
        assert(reference_views(s.outcome.text_reference_findings@).len()
            == s.outcome.text_reference_findings@.len());
        let x = t.outcome.relink_candidates@;
        let y = s.outcome.relink_candidates@;
        assert(are_candidates(x, a, paths, m.subs@) && are_candidates(y, a, paths, m.subs@));
        lemma_alive_alike(x, y);
        lemma_tried(t, n, a, b, wet);
    }
}

/// The same run is prepared in the same way.
proof fn lemma_prepared_alike(
    m: Migration,
    n: Migration,
    marked: Seq<Unit>,
    k: Migration,
    also: Seq<Unit>,
    a: FsView,
)
    requires
        is_prepared(m, n, marked, a),
        is_prepared(Migration { dry_run: true, ..m }, k, also, a),
    ensures
        k.units@.len() == n.units@.len(),
        forall|i: int|
            0 <= i < k.units@.len() ==> same_move(#[trigger] k.units@[i], n.units@[i])
                && k.units@[i].nothing_to_do == n.units@[i].nothing_to_do,
{
    assert forall|i: int| 0 <= i < k.units@.len() implies same_move(
        #[trigger] k.units@[i],
        n.units@[i],
    ) && k.units@[i].nothing_to_do == n.units@[i].nothing_to_do by {
        assert(same_move(m.units@[i], marked[i]));
        assert(same_move(m.units@[i], also[i]));
        assert(same_move(marked[i], n.units@[i]));
        assert(same_move(also[i], k.units@[i]));
    }
}

/// A dry run counts in each session of a project what the real run replaces there,
/// where the global directory is moved as a whole. The session is a file that can be
/// read as text and no link, no link is where it arrives, and no other session of
/// the project is the same file.
pub proof fn law_dry_sessions_count_alike(
    m: Migration,
    d: Migration,
    a: FsView,
    state: ProjectState,
    target: Seq<char>,
    wet: ProjectTrace,
    wet_rename: Option<GlobalRename>,
    dry: ProjectTrace,
    dry_rename: Option<GlobalRename>,
    i: int,
)
    requires
        !m.dry_run,
        d == (Migration { dry_run: true, ..m }),
        m.subs@.len() > 0,
        sessions_trace(wet, a, m, state, target, wet_rename),
        sessions_trace(dry, a, d, state, target, dry_rename),
        wet_rename is Some,
        ({
            let (old, new) = rename_view(wet_rename)->0;
            let list = session_list(state);
            &&& a.dirs.contains(components(old)) && !a.links.contains_key(components(old))
            &&& !a.dirs.contains(components(new))
            &&& old.len() > 0 && new.len() > 0
            &&& apart(components(old), components(new))
            &&& 0 <= i < list.len()
            &&& a.text(components(list[i])) is Some
            &&& a.present.contains(components(list[i]))
            &&& !a.links.contains_key(components(list[i]))
            &&& !a.links.contains_key(components(followed(list[i], old, new)))
            &&& forall|j: int|
                0 <= j < list.len() && j != i ==> components(#[trigger] list[j]) != components(
                    list[i],
                )
        }),
    ensures
        rename_view(dry_rename) == rename_view(wet_rename),
        dry.session_reports@.len() == wet.session_reports@.len(),
        dry.session_reports@[i].replacements == wet.session_reports@[i].replacements,
{
    law_session_file_follows(wet, a, m, state, target, wet_rename, i);
    let dir = state.global_project_dir->0@;
    let list = session_list(state);
    let reports = dry.session_reports;
    let files = choose|files: Seq<FilePath>| #[trigger]
        files_at_step(dry.renamed, dry.sessions, files, list, m.subs@, true, Ok(reports));
    assert(texts(files).len() == files.len());
    assert(texts(files)[i] == files[i]@);
    let vs = choose|vs: Seq<FsView>| #[trigger]
        file_steps(vs, files, m.subs@, true, reports@) && vs[0] == dry.renamed && vs.last()
            == dry.sessions;
    lemma_dry_states(vs, files, m.subs@, reports@, i);
    assert(file_step(vs[i], vs[i + 1], files[i], m.subs@, true, Ok(reports@[i])));
}

/// Files that are only counted leave the state as it is.
pub(crate) proof fn lemma_dry_states(
    vs: Seq<FsView>,
    files: Seq<FilePath>,
    subs: Pairs,
    reports: Seq<UpdateReport>,
    n: int,
)
    requires
        file_steps(vs, files, subs, true, reports),
        0 <= n <= reports.len(),
    ensures
        vs[n] == vs[0],
    decreases n,
{
    if n > 0 {
        lemma_dry_states(vs, files, subs, reports, n - 1);
        assert(file_step(
            vs[n - 1],
            vs[n - 1 + 1],
            files[n - 1],
            subs,
            true,
            Ok(reports[n - 1]),
        ));
    }
}

} // verus!
