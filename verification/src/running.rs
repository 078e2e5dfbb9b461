//! What a run reports of itself, and which commands are carried out at all.

use vstd::prelude::*;

use crate::apply::active;
use crate::backup::passed_links;
use crate::backup::passed_over;
use crate::backup::sources;
use crate::batch::chain_at;
use crate::batch::chains;
use crate::batch::crossing;
use crate::batch::crossings;
use crate::batch::crossings_at;
use crate::batch::first_source;
use crate::batch::first_target;
use crate::batch::moves_apart;
use crate::batch::plan_fault;
use crate::batch::problem_lines;
use crate::batch::repeats;
use crate::batch::repeats_at;
use crate::batch::shape_problems;
use crate::batch::Move;
use crate::batch::Problem;
use crate::command::backup_made;
use crate::command::executed;
use crate::command::plan_accepted;
use crate::command::rules_of;
use crate::command::Command;
use crate::deciding::data_place;
use crate::deciding::is_sound;
use crate::deciding::is_there;
use crate::deciding::law_first_use_is_named;
use crate::deciding::law_moves_are_substituted;
use crate::deciding::law_which_plans_are_sound;
use crate::decimal::decimal;
use crate::encoder::encoded;
use crate::error::indented;
use crate::error::Error;
use crate::finding::below;
use crate::finding::law_projects_below_come_along;
use crate::fs::renamable;
use crate::fs::texts;
use crate::fs::FsView;
use crate::home::HomeView;
use crate::keeping::law_backups_are_named_after_their_projects;
use crate::links::is_candidate;
use crate::links::is_candidate_for;
use crate::links::LinkCandidate;
use crate::logging::law_every_link_is_accounted_for;
use crate::migration::backed_up;
use crate::migration::backups_trace;
use crate::migration::claude_json_step;
use crate::migration::goes_through;
use crate::migration::history_step;
use crate::migration::is_plain_report;
use crate::migration::is_prepared;
use crate::migration::is_verified;
use crate::migration::is_verify_error;
use crate::migration::landed;
use crate::migration::optional_log;
use crate::migration::ran;
use crate::migration::run_trace;
use crate::migration::skipped_links;
use crate::migration::unit_notes;
use crate::migration::unit_sources;
use crate::migration::verify_fails;
use crate::migration::MigrationReport;
use crate::migration::RunTrace;
use crate::path::components;
use crate::path::opt_text;
use crate::path::under;
use crate::path::FilePath;
use crate::path::Key;
use crate::places::lemma_global_place;
use crate::plan::all_references;
use crate::plan::are_candidates;
use crate::plan::are_units;
use crate::plan::is_set_up;
use crate::plan::is_settled;
use crate::plan::preflight_error;
use crate::plan::preflight_ok;
use crate::plan::reference_views;
use crate::plan::run_files;
use crate::plan::same_move;
use crate::plan::searched;
use crate::plan::unit_pairs;
use crate::plan::unreadable;
use crate::plan::Migration;
use crate::relink::alive;
use crate::relink::artifact_path;
use crate::relink::failed_paths;
use crate::relink::log_written;
use crate::relink::refs_report;
use crate::relink::refused;
use crate::relink::relink_log;
use crate::relink::relink_trace;
use crate::relink::repointed;
use crate::relink::rows_of;
use crate::relink::LogRow;
use crate::relink::RelinkTrace;
use crate::scanner::describes;
use crate::scanner::fault_of;
use crate::scanner::ProjectState;
use crate::substitution::Pairs;
use crate::unit::keys_of_file;
use crate::unit::MigrateOpts;
use crate::unit::Unit;
use crate::updater::file_step;
use crate::updater::file_steps;
use crate::updater::files_step;
use crate::updater::UpdateReport;

verus! {

/// The report on a run says what the run was: what it is called, whether anything was
/// written, every project that had work, with where it went, and an archive for each of
/// them with data, unless none were wanted.
pub proof fn law_report_tells_of_the_run(
    m: Migration,
    a: FsView,
    b: FsView,
    report: MigrationReport,
    i: int,
)
    requires
        goes_through(m, a, b, report),
    ensures
        report.action@ == if m.session_only {
            "session-only"@
        } else {
            "move"@
        },
        report.dry_run <==> m.dry_run,
        !report.nothing_to_do,
        report.verification_skipped <==> m.session_only && !m.dry_run,
        report.moves@.len() == active(m.units@).len(),
        0 <= i < report.moves@.len() ==> report.moves@[i].source == active(m.units@)[i].source
            && report.moves@[i].target == active(m.units@)[i].target,
        m.dry_run || m.no_backup ==> report.backup_paths@.len() == 0,
        !m.dry_run && !m.no_backup ==> report.backup_paths@.len() == backed_up(m.units@).len(),
{
    let t = choose|t: RunTrace| #[trigger] run_trace(t, m, a, b, report);
    if !m.dry_run && !m.no_backup {
        let vs = choose|vs: Seq<FsView>| #[trigger]
            backups_trace(vs, m, backed_up(m.units@), t.backups) && vs[0] == a && vs.last()
                == t.backed_up;
        assert(t.backups.len() == backed_up(m.units@).len());
    }
}

/// The report counts the references that were found in the searched texts, and lists
/// them in a dry run. Those that a run wrote down it does not list again.
pub proof fn law_report_counts_the_references(
    m: Migration,
    a: FsView,
    b: FsView,
    report: MigrationReport,
)
    requires
        goes_through(m, a, b, report),
    ensures
        report.text_reference_count == all_references(a, searched(a, m), m.subs@).len(),
        m.dry_run ==> report.text_reference_findings@.len() == report.text_reference_count,
        !m.dry_run ==> report.text_reference_findings@.len() == 0,
        m.dry_run ==> report.text_refs_report_path is None,
        !m.dry_run && report.text_reference_count > 0 && report.text_refs_report_path is None
            ==> report.relink_failures@.len() > 0,
        report.text_reference_count == 0 ==> report.text_refs_report_path is None,
{
    let t = choose|t: RunTrace| #[trigger] run_trace(t, m, a, b, report);
    let refs = t.outcome.text_reference_findings@;
    assert(reference_views(refs).len() == refs.len());
    assert(failed_paths(t.outcome.relink_failures@).len() == t.outcome.relink_failures@.len());
}

/// Every link that is found to lead into a moving project and leads somewhere is
/// repointed and counted, or listed among the failures. A dry run lists those links and
/// repoints none.
pub proof fn law_report_accounts_for_the_links(
    m: Migration,
    a: FsView,
    b: FsView,
    report: MigrationReport,
)
    requires
        goes_through(m, a, b, report),
    ensures
        exists|c: Seq<LinkCandidate>| #[trigger]
            are_candidates(c, a, searched(a, m), m.subs@) && {
                &&& m.dry_run ==> report.relink_candidates@.len() == alive(c).len()
                    && report.relinked_count == 0
                &&& !m.dry_run ==> report.relink_candidates@.len() == 0 && alive(c).len()
                    <= report.relinked_count + report.relink_failures@.len()
                &&& !m.dry_run ==> report.relinked_count <= alive(c).len()
            },
        report.relinked_count > 0 && report.relink_log_path is None
            ==> report.relink_failures@.len() > 0,
        report.relinked_count == 0 ==> report.relink_log_path is None,
{
    let t = choose|t: RunTrace| #[trigger] run_trace(t, m, a, b, report);
    let c = t.outcome.relink_candidates@;
    assert(are_candidates(c, a, searched(a, m), m.subs@));
    assert(failed_paths(t.outcome.relink_failures@).len() == t.outcome.relink_failures@.len());
    assert(failed_paths(t.failures).len() == t.failures.len());
    assert(rows_of(t.entries).len() == t.entries.len());
    if !m.dry_run {
        let x = choose|x: RelinkTrace| #[trigger]
            relink_trace(x, m.subs@, alive(c)) && x.vs[0] == t.moved && x.vs.last() == t.repointed
                && rows_of(t.entries) == repointed(m.subs@, alive(c), x.oks) && failed_paths(
                t.failures,
            ) == refused(m.subs@, alive(c), x.oks);
        if alive(c).len() > 0 {
            law_every_link_is_accounted_for(m.subs@, alive(c), x.oks, 0);
        }
    }
}

/// A run without links searches nothing.
pub proof fn law_links_are_searched_on_demand(v: FsView, m: Migration)
    ensures
        !m.relink ==> searched(v, m).len() == 0,
        m.relink ==> searched(v, m) == crate::links::walked(
            v,
            crate::links::roots(v, m.claude_json, texts(m.scan_root@), m.claude_home@.local_dir),
        ),
{
}

/// The backup of a project holds its data and its local directory. In a session-only run
/// the project itself stays, and only its data is kept.
pub proof fn law_what_a_backup_is_made_of(m: Migration, u: Unit)
    requires
        u.state.global_project_dir is Some,
    ensures
        unit_sources(m, u).project == u.source@,
        unit_sources(m, u).home == m.claude_home@,
        unit_sources(m, u).timestamp == m.timestamp@,
        unit_sources(m, u).global == u.state.global_project_dir->0@,
        unit_sources(m, u).claude_json == opt_text(u.state.claude_json),
        m.session_only ==> unit_sources(m, u).local is None && unit_sources(m, u).mcp is None,
        !m.session_only ==> unit_sources(m, u).local == opt_text(u.state.local_claude_dir)
            && unit_sources(m, u).mcp == opt_text(u.state.mcp_json),
{
}

/// Nothing stands in the way of a run exactly where every file that it rewrites can be
/// read as text and every directory that it moves can be moved.
pub proof fn law_what_stands_in_the_way_of_a_run(v: FsView, m: Migration)
    ensures
        preflight_ok(v, m) <==> {
            &&& forall|x: Seq<char>| #[trigger]
                run_files(m).contains(x) ==> v.text(components(x)) is Some
            &&& !m.session_only ==> forall|i: int|
                0 <= i < m.units@.len() && !(#[trigger] m.units@[i]).nothing_to_do
                    && m.units@[i].source.key() != m.units@[i].target.key() && v.dirs.contains(
                    m.units@[i].source.key(),
                ) ==> renamable(v, m.units@[i].source.key(), m.units@[i].target.key())
        },
{
    let files = run_files(m);
    let f = |f: Seq<char>| v.text(components(f)) is None;
    if unreadable(v, files).len() == 0 {
        assert forall|x: Seq<char>| #[trigger] files.contains(x) implies v.text(components(x))
            is Some by {
            let i = choose|i: int| 0 <= i < files.len() && files[i] == x;
            if f(x) {
                files.lemma_filter_contains(f, i);
                assert(unreadable(v, files).contains(x));
            }
        }
    } else {
        let x = files.filter(f)[0];
        files.lemma_filter_pred(f, 0);
        assert(files.filter(f).contains(x));
        files.lemma_filter_contains_rev(f, x);
    }
}

/// A plan is run exactly where it has moves, all its projects can be scanned, its moves
/// keep clear of each other and each of them is sound.
pub proof fn law_which_plans_are_run(
    v: FsView,
    moves: Seq<Move>,
    home: HomeView,
    o: MigrateOpts,
)
    requires
        forall|i: int|
            0 <= i < moves.len() ==> (#[trigger] moves[i]).source@.len() > 0 && moves[i].source@[0]
                == '/' && moves[i].target@.len() > 0 && moves[i].target@[0] == '/',
        plan_fault(v, moves, home, rules_of(o), moves.len() as int) is None,
    ensures
        rules_of(o).force == o.force && rules_of(o).session_only == o.session_only,
        plan_accepted(v, moves, home, o) <==> {
            &&& moves.len() > 0
            &&& forall|i: int, j: int|
                0 <= i < j < moves.len() ==> #[trigger] moves_apart(moves[i], moves[j])
            &&& forall|i: int|
                0 <= i < moves.len() ==> is_sound(v, #[trigger] moves[i], home, rules_of(o))
        },
{
    law_which_plans_are_sound(v, moves, home, rules_of(o));
    assert forall|i: int| 0 <= i < moves.len() implies crate::unit::is_absolute(
        (#[trigger] moves[i]).target,
    ) by {
        assert(moves[i].target@.len() > 0);
    }
}

/// A plan that is not sound is refused as a whole, before anything is changed, and so is
/// a session-only move.
pub proof fn law_unsound_plans_are_refused(
    c: Command,
    moves: Seq<Move>,
    a: FsView,
    b: FsView,
    home: HomeView,
    o: MigrateOpts,
    timestamp: Seq<char>,
    r: Result<MigrationReport, Error>,
    i: int,
)
    requires
        executed(c, a, b, home, timestamp, r),
        ({
            ||| (c matches Command::Batch { moves: list, opts } && list@ == moves && opts == o)
            ||| (c matches Command::Move { source, target, opts } && opts == o && o.session_only
                && moves == seq![(Move { source, target, line: None })])
        }),
        forall|i: int|
            0 <= i < moves.len() ==> (#[trigger] moves[i]).source@.len() > 0 && moves[i].source@[0]
                == '/' && moves[i].target@.len() > 0 && moves[i].target@[0] == '/',
        0 <= i < moves.len(),
        !is_sound(a, moves[i], home, rules_of(o)),
    ensures
        b == a,
        r is Err,
{
    if plan_fault(a, moves, home, rules_of(o), moves.len() as int) is None {
        law_which_plans_are_run(a, moves, home, o);
        assert(!plan_accepted(a, moves, home, o));
    }
}

/// A project without data is not backed up, and nothing is changed.
pub proof fn law_nothing_is_backed_up_without_data(
    path: FilePath,
    a: FsView,
    b: FsView,
    home: HomeView,
    timestamp: Seq<char>,
    r: Result<MigrationReport, Error>,
)
    requires
        executed(Command::Backup { path }, a, b, home, timestamp, r),
        path@.len() > 0 && path@[0] == '/',
        !a.dirs.contains(data_place(path@, home)),
    ensures
        b == a,
        r matches Err(e) && e is NothingToBackUp,
{
    lemma_global_place(path@, home.path);
}

/// How a problem refers to another move: by its line, or by its source where it has
/// none.
pub open spec fn whereabouts(mv: Move) -> Seq<char> {
    if mv.line is Some {
        "line "@ + decimal(mv.line->0 as nat)
    } else {
        mv.source@
    }
}

proof fn lemma_problem_in_sum(a: Seq<Problem>, b: Seq<Problem>, x: Problem)
    ensures
        a.contains(x) || b.contains(x) ==> (a + b).contains(x),
{
    if a.contains(x) {
        let i = choose|i: int| 0 <= i < a.len() && a[i] == x;
        assert((a + b)[i] == x);
    } else if b.contains(x) {
        let i = choose|i: int| 0 <= i < b.len() && b[i] == x;
        assert((a + b)[a.len() + i] == x);
    }
}

proof fn lemma_repeats(moves: Seq<Move>, n: int, i: int, x: Problem)
    requires
        0 <= i < n,
        repeats_at(moves, i).contains(x),
    ensures
        repeats(moves, n).contains(x),
    decreases n,
{
    if i < n - 1 {
        lemma_repeats(moves, n - 1, i, x);
    }
    lemma_problem_in_sum(repeats(moves, n - 1), repeats_at(moves, n - 1), x);
}

proof fn lemma_chains(moves: Seq<Move>, n: int, i: int, x: Problem)
    requires
        0 <= i < n,
        chain_at(moves, i).contains(x),
    ensures
        chains(moves, n).contains(x),
    decreases n,
{
    if i < n - 1 {
        lemma_chains(moves, n - 1, i, x);
    }
    lemma_problem_in_sum(chains(moves, n - 1), chain_at(moves, n - 1), x);
}

proof fn lemma_crossings_at(moves: Seq<Move>, i: int, n: int, j: int, x: Problem)
    requires
        i < j < n,
        crossing(moves[i], moves[j]).contains(x),
    ensures
        crossings_at(moves, i, n).contains(x),
    decreases n - i,
{
    if j < n - 1 {
        lemma_crossings_at(moves, i, n - 1, j, x);
    }
    lemma_problem_in_sum(crossings_at(moves, i, n - 1), crossing(moves[i], moves[n - 1]), x);
}

proof fn lemma_crossings(moves: Seq<Move>, n: int, i: int, j: int, x: Problem)
    requires
        0 <= i < n <= moves.len(),
        i < j < moves.len(),
        crossing(moves[i], moves[j]).contains(x),
    ensures
        crossings(moves, n).contains(x),
    decreases n,
{
    if i < n - 1 {
        lemma_crossings(moves, n - 1, i, j, x);
    } else {
        lemma_crossings_at(moves, i, moves.len() as int, j, x);
    }
    lemma_problem_in_sum(
        crossings(moves, n - 1),
        crossings_at(moves, n - 1, moves.len() as int),
        x,
    );
}

/// A plan that uses a path twice, goes where another of its moves starts, or has a move
/// inside another is told so: with the paths, and with the other move.
pub proof fn law_collisions_are_told(moves: Seq<Move>, i: int, j: int)
    requires
        0 <= i < moves.len(),
        0 <= j < moves.len(),
    ensures
        j < i && moves[j].source.key() == moves[i].source.key() && (forall|x: int|
            0 <= x < j ==> (#[trigger] moves[x]).source.key() != moves[i].source.key())
            ==> shape_problems(moves).contains(
            (
                moves[i].line,
                moves[i].source@ + " is a source twice (first at "@ + whereabouts(moves[j]) + ")"@,
            ),
        ),
        j < i && moves[j].target.key() == moves[i].target.key() && (forall|x: int|
            0 <= x < j ==> (#[trigger] moves[x]).target.key() != moves[i].target.key())
            ==> shape_problems(moves).contains(
            (
                moves[i].line,
                "two sources map to "@ + moves[i].target@ + " (also "@ + whereabouts(moves[j])
                    + ")"@,
            ),
        ),
        i != j && moves[j].source.key() == moves[i].target.key() && (forall|x: int|
            0 <= x < j ==> (#[trigger] moves[x]).source.key() != moves[i].target.key())
            ==> shape_problems(moves).contains(
            (
                moves[i].line,
                moves[i].target@ + " is both a source and a target (chain with "@ + whereabouts(
                    moves[j],
                ) + ")"@,
            ),
        ),
        i < j && moves[i].source.key() != moves[j].source.key() && (under(
            moves[i].source.key(),
            moves[j].source.key(),
        ) || under(moves[j].source.key(), moves[i].source.key())) ==> shape_problems(
            moves,
        ).contains(
            (
                if moves[j].line is Some {
                    moves[j].line
                } else {
                    moves[i].line
                },
                moves[i].source@ + " and "@ + moves[j].source@
                    + " belong to different moves, one inside the other (nesting)"@,
            ),
        ),
{
    let n = moves.len() as int;
    let mv = moves[i];
    let a = repeats(moves, n);
    let b = chains(moves, n);
    let c = crossings(moves, n);
    law_first_use_is_named(moves, mv.source.key(), i);
    law_first_use_is_named(moves, mv.target.key(), i);
    law_first_use_is_named(moves, mv.target.key(), n);
    if j < i && moves[j].source.key() == mv.source.key() && (forall|x: int|
        0 <= x < j ==> (#[trigger] moves[x]).source.key() != mv.source.key()) {
        assert(first_source(moves, mv.source.key(), i) == Some(j));
        let x = (
            mv.line,
            mv.source@ + " is a source twice (first at "@ + whereabouts(moves[j]) + ")"@,
        );
        assert(repeats_at(moves, i)[0] == x);
        lemma_repeats(moves, n, i, x);
        lemma_problem_in_sum(a, b, x);
        lemma_problem_in_sum(a + b, c, x);
    }
    if j < i && moves[j].target.key() == mv.target.key() && (forall|x: int|
        0 <= x < j ==> (#[trigger] moves[x]).target.key() != mv.target.key()) {
        assert(first_target(moves, mv.target.key(), i) == Some(j));
        let x = (
            mv.line,
            "two sources map to "@ + mv.target@ + " (also "@ + whereabouts(moves[j]) + ")"@,
        );
        let list = repeats_at(moves, i);
        assert(list[list.len() - 1] == x);
        lemma_repeats(moves, n, i, x);
        lemma_problem_in_sum(a, b, x);
        lemma_problem_in_sum(a + b, c, x);
    }
    if i != j && moves[j].source.key() == mv.target.key() && (forall|x: int|
        0 <= x < j ==> (#[trigger] moves[x]).source.key() != mv.target.key()) {
        assert(first_source(moves, mv.target.key(), n) == Some(j));
        let x = (
            mv.line,
            mv.target@ + " is both a source and a target (chain with "@ + whereabouts(moves[j])
                + ")"@,
        );
        assert(chain_at(moves, i)[0] == x);
        lemma_chains(moves, n, i, x);
        lemma_problem_in_sum(a, b, x);
        lemma_problem_in_sum(a + b, c, x);
    }
    if i < j && mv.source.key() != moves[j].source.key() && (under(
        mv.source.key(),
        moves[j].source.key(),
    ) || under(moves[j].source.key(), mv.source.key())) {
        let x = (
            if moves[j].line is Some {
                moves[j].line
            } else {
                mv.line
            },
            mv.source@ + " and "@ + moves[j].source@
                + " belong to different moves, one inside the other (nesting)"@,
        );
        assert(crossing(mv, moves[j])[0] == x);
        lemma_crossings(moves, n, i, j, x);
        lemma_problem_in_sum(a + b, c, x);
    }
}

/// The problems of a plan and the files that cannot be read are listed one below the
/// other, indented.
pub proof fn law_lists_in_messages_are_indented(
    a: Seq<String>,
    b: Seq<String>,
    s: String,
    x: Seq<FilePath>,
    y: Seq<FilePath>,
    p: FilePath,
)
    ensures
        problem_lines(a + b) == problem_lines(a) + problem_lines(b),
        problem_lines(seq![s]) == "\n  "@ + s@,
        indented(x + y) == indented(x) + indented(y),
        indented(seq![p]) == "\n  "@ + p@,
    decreases b.len() + y.len(),
{
    reveal_with_fuel(problem_lines, 2);
    reveal_with_fuel(indented, 2);
    assert(seq![s].drop_last() =~= Seq::empty());
    assert(seq![p].drop_last() =~= Seq::empty());
    assert(problem_lines(seq![s]) =~= "\n  "@ + s@);
    assert(indented(seq![p]) =~= "\n  "@ + p@);
    if b.len() > 0 {
        law_lists_in_messages_are_indented(a, b.drop_last(), s, x, y, p);
        assert((a + b).drop_last() =~= a + b.drop_last());
        assert(problem_lines(a + b) =~= problem_lines(a) + problem_lines(b));
    } else {
        assert(a + b =~= a);
        assert(problem_lines(a + b) =~= problem_lines(a) + problem_lines(b));
    }
    if y.len() > 0 {
        law_lists_in_messages_are_indented(a, b, s, x, y.drop_last(), p);
        assert((x + y).drop_last() =~= x + y.drop_last());
        assert(indented(x + y) =~= indented(x) + indented(y));
    } else {
        assert(x + y =~= x);
        assert(indented(x + y) =~= indented(x) + indented(y));
    }
}

/// A unit is left out of a run only where it has nothing to do: it stays where it is,
/// and, but in a session-only run, its directory is there and its data names it.
pub proof fn law_units_with_work_are_prepared(
    m0: Migration,
    m: Migration,
    marked: Seq<Unit>,
    v: FsView,
    i: int,
)
    requires
        is_prepared(m0, m, marked, v),
        0 <= i < m0.units@.len(),
    ensures
        m.units@.len() == m0.units@.len(),
        m.units@[i].source == m0.units@[i].source,
        m.units@[i].target == m0.units@[i].target,
        m.units@[i].state == m0.units@[i].state,
        m.units@[i].nothing_to_do <==> {
            &&& m0.units@[i].source.key() == m0.units@[i].target.key()
            &&& m0.session_only || (m0.units@[i].state.paths_consistent
                && m0.units@[i].state.project_dir_exists)
        },
        m.dry_run == m0.dry_run && m.no_backup == m0.no_backup && m.session_only
            == m0.session_only && m.relink == m0.relink,
        m.subs == m0.subs,
{
    assert(same_move(m0.units@[i], marked[i]));
    if !m0.session_only {
        assert(same_move(marked[i], m.units@[i]));
    }
}

/// Every registered project below one that moves moves along, however deep it lies, and
/// keeps its place below it.
pub proof fn law_registered_projects_move_along(
    m0: Migration,
    m: Migration,
    marked: Seq<Unit>,
    v: FsView,
    i: int,
    rest: Seq<char>,
)
    requires
        is_prepared(m0, m, marked, v),
        !m0.session_only,
        0 <= i < m0.units@.len(),
        m0.units@[i].source.key() != m0.units@[i].target.key(),
        keys_of_file(v, m0.claude_json) is Some,
        keys_of_file(v, m0.claude_json)->0.contains(below(m0.units@[i].source@, rest)),
    ensures
        exists|j: int|
            0 <= j < m.units@[i].subprojects@.len() && (
            #[trigger] m.units@[i].subprojects@[j]).0.project_path@ == below(
                m0.units@[i].source@,
                rest,
            ) && m.units@[i].subprojects@[j].1@ == below(m0.units@[i].target@, rest),
{
    assert(same_move(m0.units@[i], marked[i]));
    assert(same_move(marked[i], m.units@[i]));
    law_projects_below_come_along(
        m.units@[i].subprojects@,
        v,
        keys_of_file(v, m0.claude_json)->0,
        m0.units@[i].source@,
        m0.units@[i].target@,
        m0.claude_home@,
        rest,
    );
}

/// A unit starts from the state of its source, or, where that is gone, from the state of
/// its target.
pub proof fn law_units_start_from_what_is_there(
    units: Seq<Unit>,
    v: FsView,
    moves: Seq<(FilePath, FilePath)>,
    home: HomeView,
    opts: MigrateOpts,
    i: int,
)
    requires
        are_units(units, v, moves, home, opts),
        0 <= i < units.len(),
    ensures
        units[i].source == moves[i].0,
        units[i].target == moves[i].1,
        units[i].state.project_path@ == if is_there(v, moves[i].0@, home) {
            moves[i].0@
        } else {
            moves[i].1@
        },
        !units[i].nothing_to_do,
        units[i].subprojects@.len() == 0,
{
    assert(units[i].is_fresh(moves[i].0, moves[i].1));
    lemma_global_place(moves[i].0@, home.path);
}

/// The logs of a run lie beside its backups, each under its own ending.
pub proof fn law_logs_are_told(m: Migration, a: FsView, b: FsView, report: MigrationReport)
    requires
        goes_through(m, a, b, report),
    ensures
        report.relink_log_path matches Some(p) ==> artifact_path(
            m,
            texts(report.backup_paths@),
            "relink.tsv"@,
        ) == Some(p@),
        report.text_refs_report_path matches Some(p) ==> artifact_path(
            m,
            texts(report.backup_paths@),
            "textrefs.tsv"@,
        ) == Some(p@),
{
    let t = choose|t: RunTrace| #[trigger] run_trace(t, m, a, b, report);
}

/// What a backup passes over is told: the dead links in the data directory and, but in a
/// session-only run, in the local directory.
pub proof fn law_passed_links_are_told(v: FsView, d: FilePath, e: Seq<char>)
    requires
        v.walk.contains_key(d@),
    ensures
        passed_links(v, Some(d)).contains(e) <==> v.walk[d@].contains(e) && v.links.contains_key(
            components(e),
        ) && (!v.present.contains(components(e)) || !v.files.contains_key(components(e))),
        passed_links(v, None).len() == 0,
{
    let f = |e: Seq<char>| passed_over(v, e);
    let list = v.walk[d@];
    if list.filter(f).contains(e) {
        let i = choose|i: int| 0 <= i < list.filter(f).len() && list.filter(f)[i] == e;
        list.lemma_filter_pred(f, i);
        list.lemma_filter_contains_rev(f, e);
    }
    if list.contains(e) && f(e) {
        let i = choose|i: int| 0 <= i < list.len() && list[i] == e;
        list.lemma_filter_contains(f, i);
    }
}

/// The links that the backups pass over are gathered unit by unit.
pub proof fn law_passed_links_are_gathered_in_turn(
    v: FsView,
    m: Migration,
    a: Seq<Unit>,
    b: Seq<Unit>,
    u: Unit,
)
    ensures
        unit_notes(v, m, a + b) == unit_notes(v, m, a) + unit_notes(v, m, b),
        m.session_only ==> unit_notes(v, m, seq![u]) == passed_links(
            v,
            u.state.global_project_dir,
        ),
        !m.session_only ==> unit_notes(v, m, seq![u]) == passed_links(
            v,
            u.state.global_project_dir,
        ) + passed_links(v, u.state.local_claude_dir),
        m.dry_run || m.no_backup ==> skipped_links(v, m).len() == 0,
        !m.dry_run && !m.no_backup ==> skipped_links(v, m) == unit_notes(v, m, backed_up(m.units@)),
    decreases b.len(),
{
    reveal_with_fuel(unit_notes, 2);
    assert(seq![u].drop_last() =~= Seq::empty());
    let g = passed_links(v, u.state.global_project_dir);
    if m.session_only {
        assert(unit_notes(v, m, seq![u]) =~= g);
    } else {
        assert(unit_notes(v, m, seq![u]) =~= g + passed_links(v, u.state.local_claude_dir));
    }
    if b.len() == 0 {
        assert(a + b =~= a);
        assert(unit_notes(v, m, a + b) =~= unit_notes(v, m, a) + unit_notes(v, m, b));
    } else {
        assert((a + b).drop_last() =~= a + b.drop_last());
        law_passed_links_are_gathered_in_turn(v, m, a, b.drop_last(), u);
        assert(unit_notes(v, m, a + b) =~= unit_notes(v, m, a) + unit_notes(v, m, b));
    }
}

/// A unit is verified exactly where a new scan of its target finds no data, or data that
/// names the target.
pub proof fn law_verified_targets_scan_as_consistent(
    v: FsView,
    u: Unit,
    home: HomeView,
    state: ProjectState,
)
    requires
        fault_of(v, u.target@, home) is None,
        describes(state, v, u.target@, home),
    ensures
        is_verified(v, u, home) <==> state.global_project_dir is None || state.paths_consistent,
{
}

/// A run that does not verify says which target is not what it should be.
pub proof fn law_failed_verification_names_the_target(e: Error, v: FsView, m: Migration)
    requires
        verify_fails(e, v, m),
    ensures
        exists|i: int|
            0 <= i < m.units@.len() && !(#[trigger] m.units@[i]).nothing_to_do && (fault_of(
                v,
                m.units@[i].target@,
                m.claude_home@,
            ) is None ==> e == Error::Inconsistent(m.units@[i].target)),
        !m.session_only && !m.dry_run,
{
    let i = choose|i: int|
        0 <= i < m.units@.len() && #[trigger] is_verify_error(e, v, m, i) && forall|x: int|
            0 <= x < i && !(#[trigger] m.units@[x]).nothing_to_do ==> is_verified(
                v,
                m.units@[x],
                m.claude_home@,
            );
    assert(!m.units@[i].nothing_to_do);
}

/// A dry run lists each link that it would repoint: where it is and where it would lead.
pub proof fn law_dry_run_lists_the_links(
    m: Migration,
    a: FsView,
    b: FsView,
    report: MigrationReport,
)
    requires
        goes_through(m, a, b, report),
        m.dry_run,
    ensures
        exists|c: Seq<LinkCandidate>| #[trigger]
            are_candidates(c, a, searched(a, m), m.subs@) && alive(c).len()
                == report.relink_candidates@.len() && forall|i: int|
                0 <= i < alive(c).len() ==> (#[trigger] report.relink_candidates@[i]).old
                    == alive(c)[i].path && report.relink_candidates@[i].new
                    == alive(c)[i].new_target,
{
    let t = choose|t: RunTrace| #[trigger] run_trace(t, m, a, b, report);
    assert(are_candidates(t.outcome.relink_candidates@, a, searched(a, m), m.subs@));
}

/// What is found at each path that is searched: a candidate for each link that is one,
/// in the order of the paths.
pub proof fn law_every_candidate_is_found(
    c: Seq<LinkCandidate>,
    v: FsView,
    paths: Seq<Seq<char>>,
    subs: Pairs,
    link: Seq<char>,
)
    requires
        are_candidates(c, v, paths, subs),
        paths.contains(link),
        is_candidate(v, link, subs),
    ensures
        exists|i: int| 0 <= i < c.len() && is_candidate_for(#[trigger] c[i], v, link, subs),
{
    let f = |p: Seq<char>| is_candidate(v, p, subs);
    let i = choose|i: int| 0 <= i < paths.len() && paths[i] == link;
    paths.lemma_filter_contains(f, i);
    let list = paths.filter(f);
    let j = choose|j: int| 0 <= j < list.len() && list[j] == link;
    assert(is_candidate_for(c[j], v, list[j], subs));
}

/// Files that cannot be read stop a run, and all of them are named.
pub proof fn law_unreadable_files_are_named(e: Error, v: FsView, m: Migration, x: Seq<char>)
    requires
        preflight_error(e, v, m),
        run_files(m).contains(x),
        v.text(components(x)) is None,
    ensures
        e matches Error::Unreadable(paths) && texts(paths@).contains(x),
{
    let f = |f: Seq<char>| v.text(components(f)) is None;
    let files = run_files(m);
    let i = choose|i: int| 0 <= i < files.len() && files[i] == x;
    files.lemma_filter_contains(f, i);
    assert(unreadable(v, files).contains(x));
}

/// The projects of a plan can be scanned exactly where the source of each move can, and
/// the target where data at it would stand in the way.
pub proof fn law_which_plans_can_be_scanned(
    v: FsView,
    moves: Seq<Move>,
    home: HomeView,
    o: MigrateOpts,
    n: int,
)
    requires
        0 <= n <= moves.len(),
    ensures
        plan_fault(v, moves, home, rules_of(o), n) is None <==> forall|i: int|
            0 <= i < n ==> fault_of(v, (#[trigger] moves[i]).source@, home) is None && (!o.force
                && !o.session_only && moves[i].source.key() != moves[i].target.key() ==> fault_of(
                v,
                moves[i].target@,
                home,
            ) is None),
    decreases n,
{
    if n > 0 {
        law_which_plans_can_be_scanned(v, moves, home, o, n - 1);
        let last = moves[n - 1];
        if plan_fault(v, moves, home, rules_of(o), n - 1) is Some {
            let i = choose|i: int|
                0 <= i < n - 1 && !(fault_of(v, (#[trigger] moves[i]).source@, home) is None && (
                !o.force && !o.session_only && moves[i].source.key() != moves[i].target.key()
                    ==> fault_of(v, moves[i].target@, home) is None));
            assert(0 <= i < n);
        } else {
            assert forall|i: int|
                0 <= i < n && plan_fault(v, moves, home, rules_of(o), n) is None implies fault_of(
                v,
                (#[trigger] moves[i]).source@,
                home,
            ) is None && (!o.force && !o.session_only && moves[i].source.key()
                != moves[i].target.key() ==> fault_of(v, moves[i].target@, home) is None) by {
                if i == n - 1 {
                    assert(moves[i] == last);
                }
            }
        }
    }
}

/// The report on references holds exactly those that were found before anything moved.
pub proof fn law_reference_report_stays(
    m: Migration,
    a: FsView,
    b: FsView,
    report: MigrationReport,
    p: FilePath,
)
    requires
        goes_through(m, a, b, report),
        report.text_refs_report_path == Some(p),
        m.history_jsonl matches Some(f) ==> f.key() != p.key(),
        m.claude_json matches Some(f) ==> f.key() != p.key(),
    ensures
        b.text(p.key()) == Some(refs_report(all_references(a, searched(a, m), m.subs@))),
{
    let t = choose|t: RunTrace| #[trigger] run_trace(t, m, a, b, report);
    let text = refs_report(all_references(a, searched(a, m), m.subs@));
    lemma_log_holds(t.logged, t.reported, p.key(), text);
    lemma_history_spares(t.reported, t.history, m, t.history_reports, p.key());
    lemma_registry_spares(t.history, b, m, t.json_reports, p.key());
}

/// The log of repointed links has a row for each of them.
pub proof fn law_link_log_stays(
    m: Migration,
    a: FsView,
    b: FsView,
    report: MigrationReport,
    p: FilePath,
)
    requires
        goes_through(m, a, b, report),
        report.relink_log_path == Some(p),
        report.text_refs_report_path matches Some(f) ==> f.key() != p.key(),
        m.history_jsonl matches Some(f) ==> f.key() != p.key(),
        m.claude_json matches Some(f) ==> f.key() != p.key(),
    ensures
        exists|rows: Seq<LogRow>|
            b.text(p.key()) == Some(#[trigger] relink_log(rows)) && rows.len()
                == report.relinked_count,
{
    let t = choose|t: RunTrace| #[trigger] run_trace(t, m, a, b, report);
    let rows = rows_of(t.entries);
    lemma_log_holds(t.repointed, t.logged, p.key(), relink_log(rows));
    lemma_log_spares(t.logged, t.reported, m, t.text_log, p.key(), t);
    lemma_history_spares(t.reported, t.history, m, t.history_reports, p.key());
    lemma_registry_spares(t.history, b, m, t.json_reports, p.key());
    assert(rows.len() == report.relinked_count);
}

proof fn lemma_log_holds(a: FsView, b: FsView, k: Key, text: Seq<char>)
    requires
        log_written(a, b, k, text),
    ensures
        b.text(k) == Some(text),
{
    vstd::utf8::encode_utf8_valid_utf8(text);
    vstd::utf8::encode_utf8_decode_utf8(text);
}

proof fn lemma_log_spares(
    a: FsView,
    b: FsView,
    m: Migration,
    r: Result<Option<FilePath>, Error>,
    k: Key,
    t: RunTrace,
)
    requires
        optional_log(
            a,
            b,
            !m.dry_run && t.outcome.text_reference_findings@.len() > 0,
            m,
            texts(t.backups),
            "textrefs.tsv"@,
            refs_report(reference_views(t.outcome.text_reference_findings@)),
            r,
        ),
        landed(r) matches Some(f) ==> f.key() != k,
    ensures
        b.text(k) == a.text(k),
{
}

proof fn lemma_history_spares(
    a: FsView,
    b: FsView,
    m: Migration,
    reports: Seq<UpdateReport>,
    k: Key,
)
    requires
        history_step(a, b, m, reports),
        m.history_jsonl matches Some(f) ==> f.key() != k,
    ensures
        b.text(k) == a.text(k),
{
}

proof fn lemma_registry_spares(
    a: FsView,
    b: FsView,
    m: Migration,
    reports: Seq<UpdateReport>,
    k: Key,
)
    requires
        claude_json_step(a, b, m, reports),
        m.claude_json matches Some(f) ==> f.key() != k,
    ensures
        b.text(k) == a.text(k),
{
}

/// A run in which every unit is where it belongs changes nothing and says so.
pub proof fn law_idle_run_reports_nothing(
    m: Migration,
    a: FsView,
    b: FsView,
    r: Result<MigrationReport, Error>,
)
    requires
        ran(m, a, b, r),
        forall|i: int|
            0 <= i < m.units@.len() ==> (#[trigger] m.units@[i]).source.key()
                == m.units@[i].target.key() && (m.session_only || (
            m.units@[i].state.paths_consistent && m.units@[i].state.project_dir_exists)),
    ensures
        b == a,
        r matches Ok(report) && report.nothing_to_do && report.moves@.len() == 0
            && report.files_updated@.len() == 0 && report.backup_paths@.len() == 0
            && report.dry_run == m.dry_run && report.action@ == if m.session_only {
            "session-only-noop"@
        } else {
            "move"@
        },
{
    assert forall|i: int| 0 <= i < m.units@.len() implies is_settled(
        #[trigger] m.units@[i],
        m.session_only,
    ) by {
        assert(m.units@[i].source.key() == m.units@[i].target.key());
    }
    let report = r->Ok_0;
    assert(texts(report.backup_paths@).len() == 0);
}

/// A backup is reported with its archive, and a restore with the archive it was made
/// from.
pub proof fn law_backup_and_restore_name_the_archive(
    path: FilePath,
    a: FsView,
    b: FsView,
    home: HomeView,
    timestamp: Seq<char>,
    report: MigrationReport,
)
    requires
        path@.len() > 0 && path@[0] == '/',
        !timestamp.contains('/'),
    ensures
        executed(Command::Backup { path }, a, b, home, timestamp, Ok(report)) ==> {
            &&& report.action@ == "backup"@
            &&& report.backup_paths@.len() == 1
            &&& report.backup_paths@[0].key() == components(home.path).push("backups"@).push(
                "ccmv"@,
            ).push(encoded(path@) + seq!['-'] + timestamp + ".tar.gz"@)
        },
        executed(Command::Restore { backup_file: path }, a, b, home, timestamp, Ok(report)) ==> {
            &&& report.action@ == "restore"@
            &&& report.backup_paths@.len() == 1
            &&& report.backup_paths@[0]@ == path@
        },
{
    if executed(Command::Backup { path }, a, b, home, timestamp, Ok(report)) {
        let (state, made) = choose|state: ProjectState, made: Result<FilePath, Error>| #[trigger]
            backup_made(a, b, path, home, timestamp, state, made) && match made {
                Ok(p) => is_plain_report(
                    report,
                    "backup"@,
                    seq![p@],
                    passed_links(a, state.global_project_dir) + passed_links(
                        a,
                        state.local_claude_dir,
                    ),
                    false,
                    false,
                ),
                Err(e) => Ok::<MigrationReport, Error>(report) == Err::<MigrationReport, Error>(e),
            };
        let s = sources(
            path@,
            home,
            state.global_project_dir->0@,
            state.local_claude_dir,
            state.mcp_json,
            state.claude_json,
            timestamp,
        );
        law_backups_are_named_after_their_projects(s);
        assert(texts(report.backup_paths@) == seq![made->Ok_0@]);
        assert(texts(report.backup_paths@)[0] == report.backup_paths@[0]@);
    }
    if executed(Command::Restore { backup_file: path }, a, b, home, timestamp, Ok(report)) {
        assert(texts(report.backup_paths@) == seq![path@]);
        assert(texts(report.backup_paths@)[0] == report.backup_paths@[0]@);
    }
}

/// A run is set up as the options say, with a substitution for each unit that goes
/// elsewhere.
pub proof fn law_options_reach_the_run(
    m: Migration,
    units: Seq<Unit>,
    home: HomeView,
    opts: MigrateOpts,
    timestamp: Seq<char>,
    i: int,
)
    requires
        is_set_up(m, units, home, opts, timestamp),
        0 <= i < units.len(),
    ensures
        m.units@ == units,
        m.dry_run <==> opts.dry_run,
        m.no_backup <==> opts.no_backup,
        m.session_only <==> opts.session_only,
        m.relink <==> opts.relink,
        m.timestamp@ == timestamp,
        texts(m.scan_root@) == texts(opts.scan_root@),
        units[i].source.key() != units[i].target.key() ==> m.subs@.contains(
            (units[i].source@, units[i].target@),
        ),
{
    let before = units.take(i);
    let after = units.skip(i + 1);
    let u = units[i];
    assert(units =~= before + (seq![u] + after));
    law_moves_are_substituted(before, seq![u] + after, u);
    law_moves_are_substituted(seq![u], after, u);
    if u.source.key() != u.target.key() {
        let pairs = unit_pairs(before);
        assert(m.subs@ =~= pairs + (seq![(u.source@, u.target@)] + unit_pairs(after)));
        assert(m.subs@[pairs.len() as int] == (u.source@, u.target@));
    }
}

/// Files are reported one by one, in their order.
pub proof fn law_every_file_is_reported(
    a: FsView,
    b: FsView,
    files: Seq<FilePath>,
    subs: Pairs,
    dry_run: bool,
    reports: Vec<UpdateReport>,
    i: int,
)
    requires
        files_step(a, b, files, subs, dry_run, Ok(reports)),
        0 <= i < files.len(),
    ensures
        reports@.len() == files.len(),
        reports@[i].file@ == files[i]@,
{
    let vs = choose|vs: Seq<FsView>| #[trigger]
        file_steps(vs, files, subs, dry_run, reports@) && vs[0] == a && vs.last() == b;
    assert(file_step(vs[i], vs[i + 1], files[i], subs, dry_run, Ok(reports@[i])));
}

/// Where every file can be read, what stops a run beforehand is a directory that cannot
/// be moved, and it is named.
pub proof fn law_immovable_directory_is_named(e: Error, v: FsView, m: Migration)
    requires
        preflight_error(e, v, m),
        forall|x: Seq<char>| #[trigger] run_files(m).contains(x) ==> v.text(components(x)) is Some,
    ensures
        exists|i: int|
            0 <= i < m.units@.len() && !renamable(
                v,
                (#[trigger] m.units@[i]).source.key(),
                m.units@[i].target.key(),
            ) && v.dirs.contains(m.units@[i].source.key()) && !m.units@[i].nothing_to_do && (
            e matches Error::Context(what, cause) && what@ == "cannot move "@ + m.units@[i].source@
                + "; nothing was changed"@),
{
    let files = run_files(m);
    let f = |f: Seq<char>| v.text(components(f)) is None;
    if unreadable(v, files).len() > 0 {
        let x = files.filter(f)[0];
        files.lemma_filter_pred(f, 0);
        assert(files.filter(f).contains(x));
        files.lemma_filter_contains_rev(f, x);
    }
}

} // verus!
