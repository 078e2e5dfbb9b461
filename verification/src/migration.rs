//! Runs and the commands that start them.

use vstd::prelude::*;
use vstd::string::*;

use crate::apply::active;
use crate::apply::lemma_filter_prefix;
use crate::apply::state_readable;
use crate::apply::unit_ready;
use crate::apply::units_ready;
use crate::apply::work_fail;
use crate::apply::work_step;
use crate::apply::GlobalRename;
use crate::backup::backup_step;
use crate::backup::create_backup;
use crate::backup::note_passed_links;
use crate::backup::passed_links;
use crate::backup::sources;
use crate::backup::Sources;
use crate::error::Error;
use crate::fs::texts;
use crate::fs::Fs;
use crate::fs::FsView;
use crate::home::HomeView;
use crate::links::is_list_error;
use crate::links::LinkCandidate;
use crate::links::TextReference;
use crate::path::components;
use crate::path::FilePath;
use crate::plan::all_absolute;
use crate::plan::all_references;
use crate::plan::are_candidates;
use crate::plan::are_discovered;
use crate::plan::are_marked;
use crate::plan::discover_all_subprojects;
use crate::plan::discovery_fault;
use crate::plan::is_settled;
use crate::plan::mark_settled;
use crate::plan::preflight_error;
use crate::plan::preflight_ok;
use crate::plan::reference_views;
use crate::plan::run_files;
use crate::plan::same_move;
use crate::plan::searchable;
use crate::plan::searched;
use crate::plan::state_files;
use crate::plan::sub_files;
use crate::plan::unit_files;
use crate::plan::unreadable;
use crate::plan::Migration;
use crate::relink::alive;
use crate::relink::artifact_path;
use crate::relink::log_step;
use crate::relink::refs_report;
use crate::relink::relink_log;
use crate::relink::repoint_step;
use crate::relink::rows_of;
use crate::relink::RelinkFailure;
use crate::relink::RelinkLogEntry;
use crate::scanner::consistent;
use crate::scanner::fault_of;
use crate::scanner::global_entries;
use crate::scanner::has_global;
use crate::scanner::index_of;
use crate::scanner::reports;
use crate::scanner::scan;
use crate::scanner::sessions_of;
use crate::scanner::ProjectState;
use crate::unit::is_absolute;
use crate::unit::keys_of_file;
use crate::unit::sub_target;
use crate::unit::subproject_keys;
use crate::unit::Unit;
use crate::updater::keys_step;
use crate::updater::rename_json_keys;
use crate::updater::UpdateReport;

verus! {

/// What became of one project.
#[derive(Debug)]
pub struct MoveReport {
    pub source: FilePath,
    pub target: FilePath,
    pub global_dir_rename: Option<GlobalRename>,
}

/// A link that a real run would repoint: where it is now, and where it would
/// lead.
#[derive(Debug)]
pub struct RelinkCandidateReport {
    pub old: FilePath,
    pub new: FilePath,
}

/// What a run did, or in a dry run would do.
#[derive(Debug)]
pub struct MigrationReport {
    pub action: String,
    pub moves: Vec<MoveReport>,
    pub files_updated: Vec<UpdateReport>,
    pub backup_paths: Vec<FilePath>,
    pub dry_run: bool,
    pub nothing_to_do: bool,
    pub relink_failures: Vec<RelinkFailure>,
    /// Filled in a dry run only: a real run has repointed them.
    pub relink_candidates: Vec<RelinkCandidateReport>,
    pub relinked_count: usize,
    pub relink_log_path: Option<FilePath>,
    pub text_reference_count: usize,
    pub text_refs_report_path: Option<FilePath>,
    /// Filled in a dry run only: a real run has written them to the report.
    pub text_reference_findings: Vec<TextReference>,
    /// The links that the backups pass over: they lead nowhere, or to something
    /// that cannot be read.
    pub skipped_links: Vec<FilePath>,
    /// The references were not verified: a session-only run leaves the project
    /// directories alone.
    pub verification_skipped: bool,
}

impl MigrationReport {
    /// The status that the process ends with: not zero when a link could not be
    /// repointed. The move itself has landed.
    pub fn exit_code(&self) -> (r: i32)
        ensures
            r == if self.relink_failures@.len() > 0 {
                1i32
            } else {
                0i32
            },
    {
        if self.relink_failures.len() > 0 {
            1
        } else {
            0
        }
    }
}

/// The report says nothing but the action, the archives and what they pass over.
pub open spec fn is_plain_report(
    r: MigrationReport,
    action: Seq<char>,
    backups: Seq<Seq<char>>,
    skipped: Seq<Seq<char>>,
    dry_run: bool,
    nothing_to_do: bool,
) -> bool {
    &&& r.action@ == action
    &&& r.moves@.len() == 0
    &&& r.files_updated@.len() == 0
    &&& texts(r.backup_paths@) == backups
    &&& r.dry_run == dry_run
    &&& r.nothing_to_do == nothing_to_do
    &&& r.relink_failures@.len() == 0
    &&& r.relink_candidates@.len() == 0
    &&& r.relinked_count == 0
    &&& r.relink_log_path is None
    &&& r.text_reference_count == 0
    &&& r.text_refs_report_path is None
    &&& r.text_reference_findings@.len() == 0
    &&& texts(r.skipped_links@) == skipped
    &&& !r.verification_skipped
}

/// A report that says nothing but the action, the archives and what they pass over.
pub fn plain_report(
    action: &str,
    backup_paths: Vec<FilePath>,
    skipped_links: Vec<FilePath>,
    dry_run: bool,
    nothing_to_do: bool,
) -> (r: MigrationReport)
    ensures
        is_plain_report(
            r,
            action@,
            texts(backup_paths@),
            texts(skipped_links@),
            dry_run,
            nothing_to_do,
        ),
{
    MigrationReport {
        action: action.to_owned(),
        moves: Vec::new(),
        files_updated: Vec::new(),
        backup_paths,
        dry_run,
        nothing_to_do,
        relink_failures: Vec::new(),
        relink_candidates: Vec::new(),
        relinked_count: 0,
        relink_log_path: None,
        text_reference_count: 0,
        text_refs_report_path: None,
        text_reference_findings: Vec::new(),
        skipped_links,
        verification_skipped: false,
    }
}

/// What the backup of a unit is made of. A session-only run touches nothing in
/// the project directory, so nothing of it is kept.
pub open spec fn unit_sources(m: Migration, u: Unit) -> Sources {
    sources(
        u.source@,
        m.claude_home@,
        u.state.global_project_dir->0@,
        if m.session_only {
            None
        } else {
            u.state.local_claude_dir
        },
        if m.session_only {
            None
        } else {
            u.state.mcp_json
        },
        u.state.claude_json,
        m.timestamp@,
    )
}

/// The units that are backed up: those with work left and global data.
pub open spec fn backed_up(units: Seq<Unit>) -> Seq<Unit> {
    units.filter(|u: Unit| !u.nothing_to_do && u.state.global_project_dir is Some)
}

/// The links that the backups of the units pass over.
pub open spec fn unit_notes(v: FsView, m: Migration, units: Seq<Unit>) -> Seq<Seq<char>>
    decreases units.len(),
{
    if units.len() == 0 {
        Seq::empty()
    } else {
        let u = units.last();
        unit_notes(v, m, units.drop_last()) + passed_links(v, u.state.global_project_dir)
            + passed_links(
            v,
            if m.session_only {
                None
            } else {
                u.state.local_claude_dir
            },
        )
    }
}

/// The links that the backups of the run pass over.
pub open spec fn skipped_links(v: FsView, m: Migration) -> Seq<Seq<char>> {
    if m.dry_run || m.no_backup {
        Seq::empty()
    } else {
        unit_notes(v, m, backed_up(m.units@))
    }
}

/// The states that the backups go through.
pub open spec fn backups_trace(
    vs: Seq<FsView>,
    m: Migration,
    units: Seq<Unit>,
    paths: Seq<FilePath>,
) -> bool {
    &&& vs.len() == paths.len() + 1
    &&& paths.len() == units.len()
    &&& forall|i: int|
        #![trigger paths[i]]
        0 <= i < paths.len() ==> backup_step(
            vs[i],
            vs[i + 1],
            unit_sources(m, units[i]),
            Ok(paths[i]),
        )
}

/// What making the backups of a run does, and what comes of it.
pub open spec fn backups_step(
    a: FsView,
    b: FsView,
    m: Migration,
    paths: Seq<FilePath>,
) -> bool {
    if m.dry_run || m.no_backup {
        b == a && paths.len() == 0
    } else {
        exists|vs: Seq<FsView>| #[trigger]
            backups_trace(vs, m, backed_up(m.units@), paths) && vs[0] == a && vs.last() == b
    }
}

/// The first of the units are backed up, and the backup of the next one fails.
pub open spec fn backups_cut(
    vs: Seq<FsView>,
    b: FsView,
    m: Migration,
    paths: Seq<FilePath>,
    e: Error,
) -> bool {
    let n = paths.len() as int;
    &&& n < backed_up(m.units@).len()
    &&& backups_trace(vs, m, backed_up(m.units@).take(n), paths)
    &&& backup_step(vs.last(), b, unit_sources(m, backed_up(m.units@)[n]), Err(e))
}

pub open spec fn backups_fail(a: FsView, b: FsView, m: Migration, e: Error) -> bool {
    !(m.dry_run || m.no_backup) && exists|vs: Seq<FsView>, paths: Seq<FilePath>| #[trigger]
        backups_cut(vs, b, m, paths, e) && vs[0] == a
}

/// The references at the target are what they should be: they name it, or there
/// is no data that could.
pub open spec fn is_verified(v: FsView, u: Unit, home: HomeView) -> bool {
    &&& fault_of(v, u.target@, home) is None
    &&& has_global(v, u.target@, home) ==> consistent(
        v,
        u.target@,
        sessions_of(v, global_entries(v, u.target@, home)),
        index_of(global_entries(v, u.target@, home)),
    )
}

/// Every unit that had work is verified, where a run verifies at all.
pub open spec fn all_verified(v: FsView, m: Migration) -> bool {
    m.session_only || m.dry_run || forall|i: int|
        0 <= i < m.units@.len() && !(#[trigger] m.units@[i]).nothing_to_do ==> is_verified(
            v,
            m.units@[i],
            m.claude_home@,
        )
}

/// `e` reports why unit `i` is not verified.
pub open spec fn is_verify_error(e: Error, v: FsView, m: Migration, i: int) -> bool {
    let u = m.units@[i];
    &&& !u.nothing_to_do && !is_verified(v, u, m.claude_home@)
    &&& match fault_of(v, u.target@, m.claude_home@) {
        Some(fault) => reports(e, fault),
        None => e == Error::Inconsistent(u.target),
    }
}

/// Some unit is not verified, and the first of them is reported.
pub open spec fn verify_fails(e: Error, v: FsView, m: Migration) -> bool {
    &&& !m.session_only && !m.dry_run
    &&& exists|i: int|
        0 <= i < m.units@.len() && #[trigger] is_verify_error(e, v, m, i) && forall|x: int|
            0 <= x < i && !(#[trigger] m.units@[x]).nothing_to_do ==> is_verified(
                v,
                m.units@[x],
                m.claude_home@,
            )
}

/// `history.jsonl` is updated once for the whole run; an error is let pass.
pub open spec fn history_step(
    a: FsView,
    b: FsView,
    m: Migration,
    reports: Seq<UpdateReport>,
) -> bool {
    crate::apply::optional_step(a, b, m.history_jsonl, m, reports)
}

/// The keys of the registry file are renamed once for the whole run; an error is
/// let pass.
pub open spec fn claude_json_step(
    a: FsView,
    b: FsView,
    m: Migration,
    reports: Seq<UpdateReport>,
) -> bool {
    match m.claude_json {
        Some(p) => exists|r: Result<UpdateReport, Error>| #[trigger]
            keys_step(a, b, p, m.subs@, m.dry_run, r) && reports == crate::apply::ok_reports(r),
        None => b == a && reports.len() == 0,
    }
}

impl Migration {
    /// Notes the links that the backups of the run pass over.
    fn note_skipped_links<F: Fs>(&self, fs: &F) -> (r: Vec<FilePath>)
        ensures
            texts(r@) == skipped_links(fs.view(), *self),
    {
        let mut notes: Vec<FilePath> = Vec::new();
        assert(texts(notes@) =~= Seq::empty());
        if self.dry_run || self.no_backup {
            return notes;
        }
        let ghost v = fs.view();
        let ghost units = self.units@;
        let ghost f = |u: Unit| !u.nothing_to_do && u.state.global_project_dir is Some;
        let mut i: usize = 0;
        proof {
            assert(units.take(0) =~= Seq::empty());
            reveal(Seq::filter);
            assert(units.take(0).filter(f) =~= Seq::empty());
        }
        while i < self.units.len()
            invariant
                v == fs.view(),
                units == self.units@,
                f == (|u: Unit| !u.nothing_to_do && u.state.global_project_dir is Some),
                i <= units.len(),
                texts(notes@) == unit_notes(v, *self, units.take(i as int).filter(f)),
            decreases units.len() - i,
        {
            let unit = &self.units[i];
            let ghost done = units.take(i as int).filter(f);
            let ghost now = units.take(i + 1).filter(f);
            proof {
                reveal(Seq::filter);
                assert(units.take(i + 1).drop_last() =~= units.take(i as int));
                assert(units.take(i + 1).last() == *unit);
            }
            if !unit.nothing_to_do && unit.state.global_project_dir.is_some() {
                let none: Option<FilePath> = None;
                note_passed_links(fs, &unit.state.global_project_dir, &mut notes);
                if self.session_only {
                    note_passed_links(fs, &none, &mut notes);
                } else {
                    note_passed_links(fs, &unit.state.local_claude_dir, &mut notes);
                }
                assert(now == done.push(*unit));
                assert(now.drop_last() =~= done);
            } else {
                assert(now == done);
            }
            i = i + 1;
        }
        assert(units.take(i as int) =~= units);
        notes
    }

    /// Backs up every unit that has work left and global data, one archive
    /// each.
    fn create_backups_if_needed<F: Fs>(&self, fs: &mut F) -> (r: Result<Vec<FilePath>, Error>)
        ensures
            match r {
                Ok(paths) => backups_step(
                    old(fs).view(),
                    final(fs).view(),
                    *self,
                    paths@,
                ),
                Err(e) => backups_fail(old(fs).view(), final(fs).view(), *self, e),
            },
            self.dry_run || self.no_backup ==> r is Ok && final(fs).view() == old(fs).view(),
    {
        let mut paths: Vec<FilePath> = Vec::new();
        if self.dry_run || self.no_backup {
            return Ok(paths);
        }
        let ghost start = fs.view();
        let ghost units = self.units@;
        let ghost f = |u: Unit| !u.nothing_to_do && u.state.global_project_dir is Some;
        let ghost mut vs: Seq<FsView> = seq![fs.view()];
        let mut i: usize = 0;
        proof {
            assert(units.take(0) =~= Seq::empty());
            reveal(Seq::filter);
            assert(units.take(0).filter(f) =~= Seq::empty());
        }
        while i < self.units.len()
            invariant
                start == old(fs).view(),
                !self.dry_run && !self.no_backup,
                units == self.units@,
                f == (|u: Unit| !u.nothing_to_do && u.state.global_project_dir is Some),
                i <= units.len(),
                backups_trace(vs, *self, units.take(i as int).filter(f), paths@),
                vs[0] == start,
                vs.last() == fs.view(),
            decreases units.len() - i,
        {
            let unit = &self.units[i];
            let ghost done = units.take(i as int).filter(f);
            let ghost now = units.take(i + 1).filter(f);
            proof {
                reveal(Seq::filter);
                assert(units.take(i + 1).drop_last() =~= units.take(i as int));
                assert(units.take(i + 1).last() == *unit);
            }
            if unit.nothing_to_do {
                assert(now == done);
            } else if let Some(dir) = &unit.state.global_project_dir {
                let ghost before = vs;
                let ghost had = paths@;
                let none: Option<FilePath> = None;
                let made = if self.session_only {
                    create_backup(
                        fs,
                        &unit.source,
                        &self.claude_home,
                        dir,
                        &none,
                        &none,
                        &unit.state.claude_json,
                        self.timestamp.as_str(),
                    )
                } else {
                    create_backup(
                        fs,
                        &unit.source,
                        &self.claude_home,
                        dir,
                        &unit.state.local_claude_dir,
                        &unit.state.mcp_json,
                        &unit.state.claude_json,
                        self.timestamp.as_str(),
                    )
                };
                match made {
                    Ok(path) => {
                        paths.push(path);
                    },
                    Err(e) => {
                        proof {
                            lemma_filter_prefix(units, f, i as int);
                            assert(backed_up(self.units@) == units.filter(f));
                            assert(backups_cut(before, fs.view(), *self, had, e));
                        }
                        return Err(e);
                    },
                }
                proof {
                    vs = vs.push(fs.view());
                    assert(now == done.push(*unit));
                    assert forall|x: int| #![trigger paths@[x]] 0 <= x < paths@.len() implies
                        backup_step(vs[x], vs[x + 1], unit_sources(*self, now[x]), Ok(paths@[x])) by {
                        if x < done.len() {
                            assert(paths@[x] == had[x]);
                            assert(vs[x] == before[x] && vs[x + 1] == before[x + 1]);
                            assert(now[x] == done[x]);
                        }
                    }
                }
            } else {
                assert(now == done);
            }
            i = i + 1;
        }
        proof {
            assert(units.take(i as int) =~= units);
            assert(backups_trace(vs, *self, backed_up(self.units@), paths@));
        }
        Ok(paths)
    }

    /// Looks whether the references at a unit's target name it.
    fn verify<F: Fs>(&self, fs: &F, unit: &Unit) -> (r: Result<(), Error>)
        ensures
            match r {
                Ok(_) => self.dry_run || is_verified(fs.view(), *unit, self.claude_home@),
                Err(e) => {
                    &&& !self.dry_run
                    &&& !is_verified(fs.view(), *unit, self.claude_home@)
                    &&& match fault_of(fs.view(), unit.target@, self.claude_home@) {
                        Some(fault) => reports(e, fault),
                        None => e == Error::Inconsistent(unit.target),
                    }
                },
            },
    {
        if self.dry_run {
            return Ok(());
        }
        let state = match scan(fs, &unit.target, &self.claude_home) {
            Ok(state) => state,
            Err(e) => {
                return Err(e);
            },
        };
        if !state.paths_consistent && state.global_project_dir.is_some() {
            return Err(Error::Inconsistent(unit.target.clone()));
        }
        Ok(())
    }

    /// Verifies every unit that had work. A session-only run has nothing to
    /// verify: it leaves the project directories alone.
    fn verify_all<F: Fs>(&self, fs: &F) -> (r: Result<(), Error>)
        ensures
            match r {
                Ok(_) => all_verified(fs.view(), *self),
                Err(e) => !all_verified(fs.view(), *self) && verify_fails(e, fs.view(), *self),
            },
    {
        if self.session_only {
            return Ok(());
        }
        let mut i: usize = 0;
        while i < self.units.len()
            invariant
                !self.session_only,
                i <= self.units@.len(),
                self.dry_run || forall|x: int|
                    0 <= x < i && !(#[trigger] self.units@[x]).nothing_to_do ==> is_verified(
                        fs.view(),
                        self.units@[x],
                        self.claude_home@,
                    ),
            decreases self.units@.len() - i,
        {
            if !self.units[i].nothing_to_do {
                if let Err(e) = self.verify(fs, &self.units[i]) {
                    assert(!self.units@[i as int].nothing_to_do);
                    assert(is_verify_error(e, fs.view(), *self, i as int));
                    return Err(e);
                }
            }
            i = i + 1;
        }
        Ok(())
    }

    fn update_history<F: Fs>(&self, fs: &mut F) -> (r: Vec<UpdateReport>)
        ensures
            history_step(old(fs).view(), final(fs).view(), *self, r@),
            self.dry_run ==> final(fs).view() == old(fs).view(),
    {
        self.update_optional(fs, &self.history_jsonl)
    }

    fn update_claude_json<F: Fs>(&self, fs: &mut F) -> (r: Vec<UpdateReport>)
        ensures
            claude_json_step(old(fs).view(), final(fs).view(), *self, r@),
            self.dry_run ==> final(fs).view() == old(fs).view(),
    {
        let mut list: Vec<UpdateReport> = Vec::new();
        if let Some(p) = &self.claude_json {
            let ghost a = fs.view();
            let r = rename_json_keys(fs, p, &self.subs, self.dry_run);
            let ghost outcome = r;
            if let Ok(report) = r {
                list.push(report);
            }
            proof {
                assert(list@ =~= crate::apply::ok_reports(outcome));
                assert(keys_step(a, fs.view(), *p, self.subs@, self.dry_run, outcome));
            }
        }
        list
    }
}

/// Everything that the search for links and texts gave, and what was done with
/// the links.
pub struct ScanOutcome {
    pub relink_candidates: Vec<LinkCandidate>,
    pub relink_failures: Vec<RelinkFailure>,
    pub relinked_count: usize,
    pub relink_log_path: Option<FilePath>,
    pub text_refs_report_path: Option<FilePath>,
    pub text_reference_findings: Vec<TextReference>,
}

/// The moves of a report are the units, with where their global directories
/// went.
pub open spec fn are_move_reports(
    r: Seq<MoveReport>,
    units: Seq<Unit>,
    renames: Seq<Option<GlobalRename>>,
) -> bool {
    &&& r.len() == units.len()
    &&& forall|i: int|
        0 <= i < r.len() ==> (#[trigger] r[i]).source == units[i].source && r[i].target
            == units[i].target && r[i].global_dir_rename == renames[i]
}

/// The candidates of a report are the links that are alive.
pub open spec fn are_candidate_reports(
    r: Seq<RelinkCandidateReport>,
    list: Seq<LinkCandidate>,
) -> bool {
    &&& r.len() == list.len()
    &&& forall|i: int|
        0 <= i < r.len() ==> (#[trigger] r[i]).old == list[i].path && r[i].new
            == list[i].new_target
}

/// What a run is called in its report.
pub open spec fn action_of(m: Migration) -> Seq<char> {
    if m.session_only {
        "session-only"@
    } else {
        "move"@
    }
}

/// `r` reports on the run.
pub open spec fn is_run_report(
    r: MigrationReport,
    m: Migration,
    files: Seq<UpdateReport>,
    backups: Seq<FilePath>,
    renames: Seq<Option<GlobalRename>>,
    o: ScanOutcome,
) -> bool {
    &&& r.action@ == action_of(m)
    &&& are_move_reports(r.moves@, active(m.units@), renames)
    &&& r.files_updated@ == files
    &&& r.backup_paths@ == backups
    &&& r.dry_run == m.dry_run
    &&& !r.nothing_to_do
    &&& r.relink_failures == o.relink_failures
    &&& if m.dry_run {
        &&& are_candidate_reports(r.relink_candidates@, alive(o.relink_candidates@))
        &&& r.text_reference_findings == o.text_reference_findings
    } else {
        &&& r.relink_candidates@.len() == 0
        &&& r.text_reference_findings@.len() == 0
    }
    &&& r.relinked_count == o.relinked_count
    &&& r.relink_log_path == o.relink_log_path
    &&& r.text_reference_count == o.text_reference_findings@.len()
    &&& r.text_refs_report_path == o.text_refs_report_path
    &&& r.verification_skipped == (m.session_only && !m.dry_run)
}

impl Migration {
    /// The moves of the units that had work.
    fn move_reports(&self, renames: Vec<Option<GlobalRename>>) -> (r: Vec<MoveReport>)
        requires
            renames@.len() == active(self.units@).len(),
        ensures
            are_move_reports(r@, active(self.units@), renames@),
    {
        let ghost units = self.units@;
        let ghost f = |u: Unit| !u.nothing_to_do;
        let ghost given = renames@;
        let mut rest = renames;
        let mut r: Vec<MoveReport> = Vec::new();
        let mut i: usize = 0;
        proof {
            assert(units.take(0) =~= Seq::empty());
            reveal(Seq::filter);
            assert(units.take(0).filter(f) =~= Seq::empty());
            assert(given.skip(0) =~= given);
        }
        while i < self.units.len()
            invariant
                units == self.units@,
                f == (|u: Unit| !u.nothing_to_do),
                given.len() == units.filter(f).len(),
                i <= units.len(),
                r@.len() == units.take(i as int).filter(f).len(),
                r@.len() <= given.len(),
                rest@ == given.skip(r@.len() as int),
                are_move_reports(r@, units.take(i as int).filter(f), given),
            decreases units.len() - i,
        {
            let unit = &self.units[i];
            let ghost done = units.take(i as int).filter(f);
            let ghost now = units.take(i + 1).filter(f);
            proof {
                reveal(Seq::filter);
                assert(units.take(i + 1).drop_last() =~= units.take(i as int));
                assert(units.take(i + 1).last() == *unit);
                assert(units =~= units.take(i + 1) + units.skip(i + 1));
                Seq::filter_distributes_over_add(units.take(i + 1), units.skip(i + 1), f);
            }
            if !unit.nothing_to_do {
                let ghost had = r@;
                assert(now == done.push(*unit));
                let rename = rest.remove(0);
                assert(given.skip(had.len() as int).remove(0) =~= given.skip(had.len() as int + 1));
                r.push(
                    MoveReport {
                        source: unit.source.clone(),
                        target: unit.target.clone(),
                        global_dir_rename: rename,
                    },
                );
                assert forall|x: int| 0 <= x < r@.len() implies (#[trigger] r@[x]).source
                    == now[x].source && r@[x].target == now[x].target && r@[x].global_dir_rename
                    == given[x] by {
                    if x < had.len() {
                        assert(r@[x] == had[x]);
                    }
                }
            } else {
                assert(now == done);
            }
            i = i + 1;
        }
        assert(units.take(i as int) =~= units);
        r
    }

    /// Reports on the run.
    fn report(
        &self,
        files_updated: Vec<UpdateReport>,
        backup_paths: Vec<FilePath>,
        renames: Vec<Option<GlobalRename>>,
        outcome: ScanOutcome,
        skipped_links: Vec<FilePath>,
    ) -> (r: MigrationReport)
        requires
            renames@.len() == active(self.units@).len(),
        ensures
            is_run_report(r, *self, files_updated@, backup_paths@, renames@, outcome),
            r.skipped_links == skipped_links,
    {
        let moves = self.move_reports(renames);
        let action = if self.session_only {
            "session-only".to_owned()
        } else {
            "move".to_owned()
        };
        let text_reference_count: usize = outcome.text_reference_findings.len();
        let mut relink_candidates: Vec<RelinkCandidateReport> = Vec::new();
        let text_reference_findings = if self.dry_run {
            relink_candidates = candidate_reports(&outcome.relink_candidates);
            outcome.text_reference_findings
        } else {
            Vec::new()
        };
        MigrationReport {
            action,
            moves,
            files_updated,
            backup_paths,
            dry_run: self.dry_run,
            nothing_to_do: false,
            relink_failures: outcome.relink_failures,
            relink_candidates,
            relinked_count: outcome.relinked_count,
            relink_log_path: outcome.relink_log_path,
            text_reference_count,
            text_refs_report_path: outcome.text_refs_report_path,
            text_reference_findings,
            skipped_links,
            verification_skipped: self.session_only && !self.dry_run,
        }
    }
}

/// The links that are alive, for a report.
fn candidate_reports(list: &Vec<LinkCandidate>) -> (r: Vec<RelinkCandidateReport>)
    ensures
        are_candidate_reports(r@, alive(list@)),
{
    let ghost all = list@;
    let ghost f = |c: LinkCandidate| c.alive;
    let mut r: Vec<RelinkCandidateReport> = Vec::new();
    let mut i: usize = 0;
    proof {
        assert(all.take(0) =~= Seq::empty());
        reveal(Seq::filter);
        assert(all.take(0).filter(f) =~= Seq::empty());
    }
    while i < list.len()
        invariant
            all == list@,
            f == (|c: LinkCandidate| c.alive),
            i <= all.len(),
            are_candidate_reports(r@, all.take(i as int).filter(f)),
        decreases all.len() - i,
    {
        let c = &list[i];
        let ghost done = all.take(i as int).filter(f);
        let ghost now = all.take(i + 1).filter(f);
        proof {
            reveal(Seq::filter);
            assert(all.take(i + 1).drop_last() =~= all.take(i as int));
            assert(all.take(i + 1).last() == *c);
        }
        if c.alive {
            let ghost had = r@;
            assert(now == done.push(*c));
            r.push(RelinkCandidateReport { old: c.path.clone(), new: c.new_target.clone() });
            assert forall|x: int| 0 <= x < r@.len() implies (#[trigger] r@[x]).old == now[x].path
                && r@[x].new == now[x].new_target by {
                if x < had.len() {
                    assert(r@[x] == had[x]);
                }
            }
        } else {
            assert(now == done);
        }
        i = i + 1;
    }
    assert(all.take(i as int) =~= all);
    r
}

/// Whether every unit is where it belongs.
pub open spec fn all_settled(m: Migration) -> bool {
    forall|i: int|
        0 <= i < m.units@.len() ==> is_settled(#[trigger] m.units@[i], m.session_only)
}

/// Nothing has been found out about the units yet.
pub open spec fn all_fresh(units: Seq<Unit>) -> bool {
    forall|i: int|
        0 <= i < units.len() ==> (#[trigger] units[i]).subprojects@.len() == 0
            && !units[i].nothing_to_do
}

/// `m` is the run `m0` with its units marked, and with what lies below them
/// found where the run moves directories.
pub open spec fn is_prepared(m0: Migration, m: Migration, marked: Seq<Unit>, v: FsView) -> bool {
    &&& m == (Migration { units: m.units, ..m0 })
    &&& are_marked(m0.units@, marked, m0.session_only)
    &&& if m0.session_only {
        m.units@ == marked
    } else {
        &&& keys_of_file(v, m0.claude_json) is Some
        &&& discovery_fault(
            v,
            marked,
            keys_of_file(v, m0.claude_json)->0,
            m0.claude_home@,
        ) is None
        &&& m.units@.len() == marked.len()
        &&& are_discovered(
            marked,
            m.units@,
            v,
            keys_of_file(v, m0.claude_json)->0,
            m0.claude_home@,
        )
    }
}

/// What a log in the run does: nothing where there is nothing to put in it.
pub open spec fn optional_log(
    a: FsView,
    b: FsView,
    is_due: bool,
    m: Migration,
    backups: Seq<Seq<char>>,
    suffix: Seq<char>,
    text: Seq<char>,
    r: Result<Option<FilePath>, Error>,
) -> bool {
    if is_due {
        log_step(a, b, m, backups, suffix, text, r)
    } else {
        b == a && (r matches Ok(path) && path is None)
    }
}

/// Where a log landed.
pub open spec fn landed(r: Result<Option<FilePath>, Error>) -> Option<FilePath> {
    match r {
        Ok(path) => path,
        Err(_) => None,
    }
}

/// The path that a log that could not be written is reported under.
pub open spec fn log_failure(
    r: Result<Option<FilePath>, Error>,
    place: Option<Seq<char>>,
    unknown: Seq<char>,
) -> Seq<Seq<char>> {
    match r {
        Ok(_) => Seq::empty(),
        Err(_) => seq![
            match place {
                Some(p) => p,
                None => unknown,
            },
        ],
    }
}

/// The states that a run goes through, and what comes of each step.
pub struct RunTrace {
    pub backed_up: FsView,
    pub moved: FsView,
    pub repointed: FsView,
    pub logged: FsView,
    pub reported: FsView,
    pub history: FsView,
    pub backups: Seq<FilePath>,
    pub renames: Seq<Option<GlobalRename>>,
    pub reports: Seq<UpdateReport>,
    pub entries: Seq<RelinkLogEntry>,
    pub failures: Seq<RelinkFailure>,
    pub log: Result<Option<FilePath>, Error>,
    pub text_log: Result<Option<FilePath>, Error>,
    pub history_reports: Seq<UpdateReport>,
    pub json_reports: Seq<UpdateReport>,
    pub outcome: ScanOutcome,
}

/// The checks before the first write all pass.
pub open spec fn checks_pass(v: FsView, m: Migration) -> bool {
    preflight_ok(v, m) && searchable(v, m)
}

/// The work of a run is done: checks, search, backups, the units, the links, the
/// logs, the shared files.
pub open spec fn run_work(t: RunTrace, m: Migration, a: FsView, b: FsView) -> bool {
    let paths = searched(a, m);
    let refs = t.outcome.text_reference_findings@;
    let log_place = artifact_path(m, texts(t.backups), "relink.tsv"@);
    let refs_place = artifact_path(m, texts(t.backups), "textrefs.tsv"@);
    &&& checks_pass(a, m)
    &&& are_candidates(t.outcome.relink_candidates@, a, paths, m.subs@)
    &&& reference_views(refs) == all_references(a, paths, m.subs@)
    &&& backups_step(a, t.backed_up, m, t.backups)
    &&& work_step(t.backed_up, t.moved, m, t.renames, t.reports)
    &&& repoint_step(
        t.moved,
        t.repointed,
        m,
        t.outcome.relink_candidates@,
        t.entries,
        t.failures,
    )
    &&& optional_log(
        t.repointed,
        t.logged,
        t.entries.len() > 0,
        m,
        texts(t.backups),
        "relink.tsv"@,
        relink_log(rows_of(t.entries)),
        t.log,
    )
    &&& optional_log(
        t.logged,
        t.reported,
        !m.dry_run && refs.len() > 0,
        m,
        texts(t.backups),
        "textrefs.tsv"@,
        refs_report(reference_views(refs)),
        t.text_log,
    )
    &&& history_step(t.reported, t.history, m, t.history_reports)
    &&& claude_json_step(t.history, b, m, t.json_reports)
    &&& t.outcome.relinked_count == t.entries.len()
    &&& t.outcome.relink_log_path == landed(t.log)
    &&& t.outcome.text_refs_report_path == landed(t.text_log)
    &&& crate::relink::failed_paths(t.outcome.relink_failures@)
        == crate::relink::failed_paths(t.failures) + log_failure(
        t.log,
        log_place,
        "<relink log>"@,
    ) + log_failure(t.text_log, refs_place, "<text references log>"@)
}

/// A run goes through: its work is done, verified and reported.
pub open spec fn run_trace(
    t: RunTrace,
    m: Migration,
    a: FsView,
    b: FsView,
    report: MigrationReport,
) -> bool {
    &&& run_work(t, m, a, b)
    &&& all_verified(b, m)
    &&& texts(report.skipped_links@) == skipped_links(a, m)
    &&& is_run_report(
        report,
        m,
        t.reports + t.history_reports + t.json_reports,
        t.backups,
        t.renames,
        t.outcome,
    )
}

/// The backups are made, and moving the units stops.
pub open spec fn work_stops(
    a: FsView,
    mid: FsView,
    b: FsView,
    m: Migration,
    paths: Seq<FilePath>,
    e: Error,
) -> bool {
    backups_step(a, mid, m, paths) && work_fail(mid, b, m, e)
}

/// The work is done, and what came of it is not what it should be.
pub open spec fn check_stops(t: RunTrace, a: FsView, b: FsView, m: Migration, e: Error) -> bool {
    run_work(t, m, a, b) && verify_fails(e, b, m)
}

/// Where a run that passed its checks stops: at a backup, at a unit, or once all
/// is done and does not verify. Links are repointed, logs written and the shared
/// files updated only behind the last unit.
pub open spec fn stops(m: Migration, a: FsView, b: FsView, e: Error) -> bool {
    &&& checks_pass(a, m)
    &&& {
        ||| backups_fail(a, b, m, e)
        ||| exists|mid: FsView, paths: Seq<FilePath>| #[trigger]
            work_stops(a, mid, b, m, paths, e)
        ||| exists|t: RunTrace| #[trigger] check_stops(t, a, b, m, e)
    }
}

/// What stops a run before the first write.
pub open spec fn is_refused(e: Error, m0: Migration, v: FsView) -> bool {
    ||| !m0.session_only && discovery_refused(e, m0, v)
    ||| exists|m: Migration, marked: Seq<Unit>| #[trigger]
        is_prepared(m0, m, marked, v) && !checks_pass(v, m) && (if preflight_ok(v, m) {
            is_list_error(e, v, m.claude_json)
        } else {
            preflight_error(e, v, m)
        })
}

/// The projects below the units cannot be found.
pub open spec fn discovery_refused(e: Error, m0: Migration, v: FsView) -> bool {
    match keys_of_file(v, m0.claude_json) {
        Some(keys) => exists|marked: Seq<Unit>| #[trigger]
            are_marked(m0.units@, marked, m0.session_only) && {
                let fault = discovery_fault(v, marked, keys, m0.claude_home@);
                fault is Some && reports(e, fault->0)
            },
        None => e is Fs || e is Json,
    }
}

/// The run passes all checks, once it is prepared.
pub open spec fn is_cleared(m0: Migration, v: FsView) -> bool {
    exists|m: Migration, marked: Seq<Unit>| #[trigger]
        is_prepared(m0, m, marked, v) && checks_pass(v, m)
}

/// A prepared run goes through.
pub open spec fn goes_through(
    m: Migration,
    a: FsView,
    b: FsView,
    report: MigrationReport,
) -> bool {
    exists|t: RunTrace| #[trigger] run_trace(t, m, a, b, report)
}

/// What a run does to the file system, and what comes of it.
pub open spec fn ran(
    m0: Migration,
    a: FsView,
    b: FsView,
    r: Result<MigrationReport, Error>,
) -> bool {
    if all_settled(m0) {
        &&& b == a
        &&& r matches Ok(report) && is_plain_report(
            report,
            if m0.session_only {
                "session-only-noop"@
            } else {
                "move"@
            },
            Seq::empty(),
            Seq::empty(),
            m0.dry_run,
            true,
        )
    } else {
        match r {
            Ok(report) => exists|m: Migration, marked: Seq<Unit>| #[trigger]
                is_prepared(m0, m, marked, a) && goes_through(m, a, b, report),
            Err(e) => {
                ||| b == a && is_refused(e, m0, a)
                ||| !m0.dry_run && exists|m: Migration, marked: Seq<Unit>| #[trigger]
                    is_prepared(m0, m, marked, a) && stops(m, a, b, e)
            },
        }
    }
}

/// A list from which nothing is picked out holds nothing to pick.
proof fn lemma_all_readable(v: FsView, files: Seq<Seq<char>>, i: int)
    requires
        unreadable(v, files).len() == 0,
        0 <= i < files.len(),
    ensures
        v.text(components(files[i])) is Some,
{
    let f = |f: Seq<char>| v.text(components(f)) is None;
    if f(files[i]) {
        files.lemma_filter_contains(f, i);
        assert(unreadable(v, files).contains(files[i]));
    }
}

/// The files of a unit that has work left are among those of the run.
pub(crate) proof fn lemma_unit_files(units: Seq<Unit>, i: int, f: Seq<char>)
    requires
        0 <= i < units.len(),
        !units[i].nothing_to_do,
        (state_files(units[i].state) + sub_files(units[i].subprojects@)).contains(f),
    ensures
        unit_files(units).contains(f),
    decreases units.len(),
{
    let own = state_files(units.last().state) + sub_files(units.last().subprojects@);
    let before = unit_files(units.drop_last());
    if i == units.len() - 1 {
        let x = choose|x: int| 0 <= x < own.len() && own[x] == f;
        assert((before + own)[before.len() + x] == f);
    } else {
        lemma_unit_files(units.drop_last(), i, f);
        let x = choose|x: int| 0 <= x < before.len() && before[x] == f;
        assert((before + own)[x] == f);
    }
}

pub(crate) proof fn lemma_sub_files(subs: Seq<(ProjectState, FilePath)>, i: int, f: Seq<char>)
    requires
        0 <= i < subs.len(),
        state_files(subs[i].0).contains(f),
    ensures
        sub_files(subs).contains(f),
    decreases subs.len(),
{
    let own = state_files(subs.last().0);
    let before = sub_files(subs.drop_last());
    if i == subs.len() - 1 {
        let x = choose|x: int| 0 <= x < own.len() && own[x] == f;
        assert((before + own)[before.len() + x] == f);
    } else {
        lemma_sub_files(subs.drop_last(), i, f);
        let x = choose|x: int| 0 <= x < before.len() && before[x] == f;
        assert((before + own)[x] == f);
    }
}

/// A file of the units can be read when every file of the run can.
proof fn lemma_file_readable(v: FsView, m: Migration, i: int, f: Seq<char>)
    requires
        unreadable(v, run_files(m)).len() == 0,
        0 <= i < m.units@.len(),
        !m.units@[i].nothing_to_do,
        (state_files(m.units@[i].state) + sub_files(m.units@[i].subprojects@)).contains(f),
    ensures
        v.text(components(f)) is Some,
{
    lemma_unit_files(m.units@, i, f);
    let all = unit_files(m.units@);
    let x = choose|x: int| 0 <= x < all.len() && all[x] == f;
    assert(run_files(m)[x] == f);
    lemma_all_readable(v, run_files(m), x);
}

/// A run whose files can be read, with absolute paths, is ready.
proof fn lemma_units_ready(v: FsView, m: Migration)
    requires
        unreadable(v, run_files(m)).len() == 0,
        all_absolute(m.units@),
        forall|i: int, j: int|
            0 <= i < m.units@.len() && 0 <= j < m.units@[i].subprojects@.len() ==> is_absolute(
                (#[trigger] m.units@[i].subprojects@[j]).1,
            ),
    ensures
        units_ready(v, m.units@),
{
    assert forall|i: int| 0 <= i < m.units@.len() && !(
    #[trigger] m.units@[i]).nothing_to_do implies unit_ready(v, m.units@[i]) by {
        let u = m.units@[i];
        let files = state_files(u.state);
        let below = sub_files(u.subprojects@);
        assert forall|x: int| 0 <= x < files.len() implies v.text(
            components(#[trigger] files[x]),
        ) is Some by {
            assert((files + below)[x] == files[x]);
            lemma_file_readable(v, m, i, files[x]);
        }
        assert forall|j: int| 0 <= j < u.subprojects@.len() implies state_readable(
            v,
            (#[trigger] u.subprojects@[j]).0,
        ) && is_absolute(u.subprojects@[j].1) by {
            let own = state_files(u.subprojects@[j].0);
            assert forall|x: int| 0 <= x < own.len() implies v.text(
                components(#[trigger] own[x]),
            ) is Some by {
                assert(own.contains(own[x]));
                lemma_sub_files(u.subprojects@, j, own[x]);
                let y = choose|y: int| 0 <= y < below.len() && below[y] == own[x];
                assert((files + below)[files.len() + y] == own[x]);
                lemma_file_readable(v, m, i, own[x]);
            }
            assert(is_absolute(m.units@[i].subprojects@[j].1));
        }
    }
}

/// A prepared run moves from and to absolute paths, down to the projects below
/// its units.
proof fn lemma_prepared_absolute(m0: Migration, m: Migration, marked: Seq<Unit>, v: FsView)
    requires
        is_prepared(m0, m, marked, v),
        all_absolute(m0.units@),
        all_fresh(m0.units@),
    ensures
        all_absolute(m.units@),
        forall|i: int, j: int|
            0 <= i < m.units@.len() && 0 <= j < m.units@[i].subprojects@.len() ==> is_absolute(
                (#[trigger] m.units@[i].subprojects@[j]).1,
            ),
{
    assert forall|i: int| 0 <= i < m.units@.len() implies is_absolute(
        (#[trigger] m.units@[i]).source,
    ) && is_absolute(m.units@[i].target) by {
        assert(same_move(m0.units@[i], marked[i]));
        assert(is_absolute(m0.units@[i].source));
    }
    assert forall|i: int, j: int|
        0 <= i < m.units@.len() && 0 <= j < m.units@[i].subprojects@.len() implies is_absolute(
        (#[trigger] m.units@[i].subprojects@[j]).1,
    ) by {
        assert(same_move(m0.units@[i], marked[i]));
        assert(m0.units@[i].subprojects@.len() == 0);
        assert(is_absolute(m0.units@[i].source));
        if !m0.session_only {
            let u = m.units@[i];
            let keys = keys_of_file(v, m0.claude_json)->0;
            let list = subproject_keys(keys, marked[i].source@);
            assert(!marked[i].nothing_to_do);
            assert(u.subprojects@[j].1@ == sub_target(list[j], marked[i].source@, marked[i].target@));
        }
    }
}

/// Whether every unit is where it belongs.
fn nothing_left(units: &Vec<Unit>) -> (r: bool)
    ensures
        r == forall|i: int| 0 <= i < units@.len() ==> (#[trigger] units@[i]).nothing_to_do,
{
    let mut i: usize = 0;
    while i < units.len()
        invariant
            i <= units@.len(),
            forall|x: int| 0 <= x < i ==> (#[trigger] units@[x]).nothing_to_do,
        decreases units@.len() - i,
    {
        if !units[i].nothing_to_do {
            assert(!units@[i as int].nothing_to_do);
            return false;
        }
        i = i + 1;
    }
    true
}

impl Migration {
    /// The failure of a log that could not be written.
    fn log_failed(
        &self,
        e: &Error,
        backup_paths: &Vec<FilePath>,
        suffix: &str,
        unknown: &str,
    ) -> (r: RelinkFailure)
        ensures
            r.path@ == (match artifact_path(*self, texts(backup_paths@), suffix@) {
                Some(p) => p,
                None => unknown@,
            }),
            r.error@ == e.text(),
    {
        let path = match self.artifact_log_path(backup_paths, suffix) {
            Ok(path) => path,
            Err(_) => FilePath::new(unknown),
        };
        RelinkFailure { path, error: e.message() }
    }

    /// Does the work of a run that has passed its checks.
    fn carry_out<F: Fs>(
        &self,
        fs: &mut F,
        relink_candidates: Vec<LinkCandidate>,
        text_references: Vec<TextReference>,
    ) -> (r: Result<MigrationReport, Error>)
        requires
            checks_pass(old(fs).view(), *self),
            are_candidates(
                relink_candidates@,
                old(fs).view(),
                searched(old(fs).view(), *self),
                self.subs@,
            ),
            reference_views(text_references@) == all_references(
                old(fs).view(),
                searched(old(fs).view(), *self),
                self.subs@,
            ),
        ensures
            match r {
                Ok(report) => goes_through(*self, old(fs).view(), final(fs).view(), report),
                Err(e) => stops(*self, old(fs).view(), final(fs).view(), e),
            },
            self.dry_run ==> final(fs).view() == old(fs).view() && (units_ready(
                old(fs).view(),
                self.units@,
            ) ==> r is Ok),
    {
        let ghost a = fs.view();
        let skipped_links = self.note_skipped_links(fs);
        let backup_paths = match self.create_backups_if_needed(fs) {
            Ok(paths) => paths,
            Err(e) => {
                return Err(e);
            },
        };
        let ghost backed_up = fs.view();
        let (renames, mut files) = match self.move_units(fs) {
            Ok(out) => out,
            Err(e) => {
                assert(work_stops(a, backed_up, fs.view(), *self, backup_paths@, e));
                return Err(e);
            },
        };
        let ghost moved = fs.view();
        let ghost work = files@;
        let ghost went = renames@;
        // Only now that the renames have landed: a move that fails must repoint
        // nothing.
        let (entries, mut relink_failures) = self.repoint_candidates(fs, &relink_candidates);
        let ghost repointed = fs.view();
        let ghost rows = entries@;
        let ghost failures = relink_failures@;
        let relinked_count: usize = entries.len();
        let log = self.write_relink_log(fs, entries, &backup_paths);
        let ghost logged = fs.view();
        let ghost log_result = log;
        let relink_log_path = match log {
            Ok(path) => path,
            Err(e) => {
                relink_failures.push(
                    self.log_failed(&e, &backup_paths, "relink.tsv", "<relink log>"),
                );
                None
            },
        };
        proof {
            assert(crate::relink::failed_paths(relink_failures@)
                =~= crate::relink::failed_paths(failures) + log_failure(
                log_result,
                artifact_path(*self, texts(backup_paths@), "relink.tsv"@),
                "<relink log>"@,
            ));
        }
        let ghost failures_then = relink_failures@;
        let text_log = self.write_text_refs_log(fs, &text_references, &backup_paths);
        let ghost reported = fs.view();
        let ghost text_result = text_log;
        let text_refs_report_path = match text_log {
            Ok(path) => path,
            Err(e) => {
                relink_failures.push(
                    self.log_failed(&e, &backup_paths, "textrefs.tsv", "<text references log>"),
                );
                None
            },
        };
        proof {
            assert(crate::relink::failed_paths(relink_failures@)
                =~= crate::relink::failed_paths(failures_then) + log_failure(
                text_result,
                artifact_path(*self, texts(backup_paths@), "textrefs.tsv"@),
                "<text references log>"@,
            ));
        }
        // The shared files, once each: one pass covers every unit and every
        // project below it.
        let mut history_files = self.update_history(fs);
        let ghost history = fs.view();
        let ghost history_reports = history_files@;
        let mut json_files = self.update_claude_json(fs);
        let ghost json_reports = json_files@;
        files.append(&mut history_files);
        files.append(&mut json_files);
        let outcome = ScanOutcome {
            relink_candidates,
            relink_failures,
            relinked_count,
            relink_log_path,
            text_refs_report_path,
            text_reference_findings: text_references,
        };
        let ghost t = RunTrace {
            backed_up,
            moved,
            repointed,
            logged,
            reported,
            history,
            backups: backup_paths@,
            renames: went,
            reports: work,
            entries: rows,
            failures,
            log: log_result,
            text_log: text_result,
            history_reports,
            json_reports,
            outcome,
        };
        assert(run_work(t, *self, a, fs.view()));
        if let Err(e) = self.verify_all(fs) {
            assert(check_stops(t, a, fs.view(), *self, e));
            return Err(e);
        }
        proof {
            lemma_work_len(backed_up, moved, *self, went, work);
        }
        let report = self.report(files, backup_paths, renames, outcome, skipped_links);
        assert(run_trace(t, *self, a, fs.view(), report));
        Ok(report)
    }

    /// Makes the run: settle, prepare, check, then do the work.
    pub fn run<F: Fs>(self, fs: &mut F) -> (r: Result<MigrationReport, Error>)
        requires
            all_absolute(self.units@),
            all_fresh(self.units@),
        ensures
            ran(self, old(fs).view(), final(fs).view(), r),
    {
        let ghost a = fs.view();
        let ghost m0 = self;
        let Migration {
            claude_home,
            units,
            subs,
            history_jsonl,
            claude_json,
            dry_run,
            no_backup,
            session_only,
            relink,
            scan_root,
            timestamp,
        } = self;
        let marked = mark_settled(units, session_only);
        let ghost marks = marked@;
        if nothing_left(&marked) {
            proof {
                assert forall|i: int| 0 <= i < m0.units@.len() implies is_settled(
                    #[trigger] m0.units@[i],
                    m0.session_only,
                ) by {
                    assert(marks[i].nothing_to_do);
                }
            }
            let action = if session_only {
                "session-only-noop"
            } else {
                "move"
            };
            let none: Vec<FilePath> = Vec::new();
            let skipped: Vec<FilePath> = Vec::new();
            assert(texts(none@) =~= Seq::empty());
            assert(texts(skipped@) =~= Seq::empty());
            return Ok(plain_report(action, none, skipped, dry_run, true));
        }
        proof {
            let i = choose|i: int| 0 <= i < marks.len() && !(#[trigger] marks[i]).nothing_to_do;
            assert(!is_settled(m0.units@[i], m0.session_only));
        }
        let units = if session_only {
            marked
        } else {
            match discover_all_subprojects(fs, marked, &claude_json, &claude_home) {
                Ok(units) => units,
                Err(e) => {
                    assert(are_marked(m0.units@, marks, m0.session_only));
                    assert(is_refused(e, m0, a));
                    return Err(e);
                },
            }
        };
        let m = Migration {
            claude_home,
            units,
            subs,
            history_jsonl,
            claude_json,
            dry_run,
            no_backup,
            session_only,
            relink,
            scan_root,
            timestamp,
        };
        assert(is_prepared(m0, m, marks, a));
        if let Err(e) = m.preflight(fs) {
            return Err(e);
        }
        // One search for the whole run, before any unit moves: afterwards a
        // link that the move broke looks like one that was broken before.
        let (candidates, references) = match m.scan_relink_candidates(fs) {
            Ok(found) => found,
            Err(e) => {
                return Err(e);
            },
        };
        proof {
            lemma_prepared_absolute(m0, m, marks, a);
            lemma_units_ready(a, m);
        }
        let r = m.carry_out(fs, candidates, references);
        assert(is_prepared(m0, m, marks, a) && checks_pass(a, m));
        r
    }
}

/// The units have moved, each with what became of its global directory.
proof fn lemma_work_len(
    a: FsView,
    b: FsView,
    m: Migration,
    renames: Seq<Option<GlobalRename>>,
    work: Seq<UpdateReport>,
)
    requires
        work_step(a, b, m, renames, work),
    ensures
        renames.len() == active(m.units@).len(),
{
}

} // verus!
