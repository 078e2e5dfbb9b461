//! What a run does to the projects, one step at a time.

use vstd::prelude::*;
use vstd::string::*;

use crate::encoder::encode;
use crate::encoder::EncoderError;
use crate::error::Error;
use crate::fs::moved;
use crate::fs::rename_owed;
use crate::fs::texts;
use crate::fs::Fs;
use crate::fs::FsView;
use crate::home::HomeView;
use crate::merge::index_step;
use crate::merge::merge_dirs;
use crate::merge::merge_sessions_index;
use crate::merge::merge_step;
use crate::merge::MAX_DEPTH;
use crate::path::components;
use crate::path::join_text;
use crate::path::strip_text;
use crate::path::under;
use crate::path::FilePath;
use crate::plan::if_some;
use crate::plan::state_files;
use crate::plan::Migration;
use crate::scanner::global_dir;
use crate::scanner::ProjectState;
use crate::substitution::Pairs;
use crate::unit::is_absolute;
use crate::unit::Unit;
use crate::updater::file_step;
use crate::updater::file_steps;
use crate::updater::files_step;
use crate::updater::update_file;
use crate::updater::update_files_parallel;
use crate::updater::UpdateReport;

verus! {

/// Where a project's global directory moves, as `(old, new)`.
pub type GlobalRename = (FilePath, FilePath);

pub open spec fn rename_view(r: Option<GlobalRename>) -> Option<(Seq<char>, Seq<char>)> {
    match r {
        Some((old, new)) => Some((old@, new@)),
        None => None,
    }
}

/// Where the global directory has to move for a project that lands at `target`:
/// nowhere when it is already there.
pub open spec fn rename_for(state: ProjectState, target: Seq<char>, home: HomeView) -> Option<
    (Seq<char>, Seq<char>),
> {
    match state.global_project_dir {
        Some(old) => if old.key() == components(global_dir(target, home)) {
            None
        } else {
            Some((old@, global_dir(target, home)))
        },
        None => None,
    }
}

/// What merging one global directory into another does.
pub open spec fn merged_global(
    a: FsView,
    mid: FsView,
    b: FsView,
    old: Seq<char>,
    new: Seq<char>,
    index: Result<(), Error>,
    r: Result<(), Error>,
) -> bool {
    &&& index_step(a, mid, old, new, index)
    &&& match index {
        Ok(_) => merge_step(mid, b, old, new, r),
        Err(e) => b == mid && r == index,
    }
}

pub open spec fn merged_global_step(
    a: FsView,
    b: FsView,
    old: Seq<char>,
    new: Seq<char>,
    r: Result<(), Error>,
) -> bool {
    exists|mid: FsView, index: Result<(), Error>| #[trigger]
        merged_global(a, mid, b, old, new, index, r)
}

/// What moving a directory that is not yet there does.
pub open spec fn moved_step(
    a: FsView,
    b: FsView,
    old: Seq<char>,
    new: Seq<char>,
    r: Result<(), Error>,
) -> bool {
    match r {
        Ok(_) => moved(a, b, components(old), components(new)),
        Err(e) => {
            &&& b == a && (e matches Error::Context(_, cause) && *cause is Fs)
            &&& !rename_owed(a, components(old), components(new))
        },
    }
}

/// What moving a global directory does to the file system, and what comes of
/// it.
pub open spec fn rename_step(
    a: FsView,
    b: FsView,
    dry_run: bool,
    rename: Option<(Seq<char>, Seq<char>)>,
    r: Result<(), Error>,
) -> bool {
    if dry_run || rename is None {
        b == a && r is Ok
    } else if a.dirs.contains(components((rename->0).1)) {
        merged_global_step(a, b, (rename->0).0, (rename->0).1, r)
    } else {
        moved_step(a, b, (rename->0).0, (rename->0).1, r)
    }
}

/// Where the file `f` of the global directory `old` is found in `new`.
pub open spec fn followed(f: Seq<char>, old: Seq<char>, new: Seq<char>) -> Seq<char> {
    join_text(new, strip_text(f, components(old).len() as int))
}

/// The session files and the session index of a project.
pub open spec fn session_list(state: ProjectState) -> Seq<Seq<char>> {
    texts(state.session_files@) + if_some(state.sessions_index)
}

/// Where the sessions are once the global directory has moved from `old` to
/// `new`; in a dry run it has not.
pub open spec fn session_places(
    state: ProjectState,
    old: Seq<char>,
    new: Seq<char>,
    dry_run: bool,
) -> Seq<Seq<char>> {
    if dry_run {
        session_list(state)
    } else {
        session_list(state).map_values(|f: Seq<char>| followed(f, old, new))
    }
}

/// Whether all sessions lie in their global directory.
pub open spec fn sessions_inside(state: ProjectState, old: Seq<char>) -> bool {
    forall|i: int|
        0 <= i < session_list(state).len() ==> under(
            components(#[trigger] session_list(state)[i]),
            components(old),
        )
}

/// The files at the places are updated.
pub open spec fn files_at_step(
    a: FsView,
    b: FsView,
    files: Seq<FilePath>,
    places: Seq<Seq<char>>,
    subs: Pairs,
    dry_run: bool,
    r: Result<Vec<UpdateReport>, Error>,
) -> bool {
    texts(files) == places && files_step(a, b, files, subs, dry_run, r)
}

/// The global directory behind the rename.
pub open spec fn new_dir(rename: Option<(Seq<char>, Seq<char>)>, dir: Seq<char>) -> Seq<char> {
    match rename {
        Some((_, new)) => new,
        None => dir,
    }
}

/// What updating the sessions of a project does, behind the rename of its
/// global directory.
pub open spec fn session_step(
    a: FsView,
    b: FsView,
    m: Migration,
    state: ProjectState,
    rename: Option<(Seq<char>, Seq<char>)>,
    r: Result<Vec<UpdateReport>, Error>,
) -> bool {
    match state.global_project_dir {
        Some(dir) => {
            if !m.dry_run && !sessions_inside(state, dir@) {
                b == a && (r matches Err(e) && e is SessionOutside)
            } else {
                exists|files: Seq<FilePath>| #[trigger]
                    files_at_step(
                        a,
                        b,
                        files,
                        session_places(state, dir@, new_dir(rename, dir@), m.dry_run),
                        m.subs@,
                        m.dry_run,
                        r,
                    )
            }
        },
        None => b == a && (r matches Ok(reports) && reports@.len() == 0),
    }
}

/// A file that may not be there is updated; an error is let pass.
pub open spec fn optional_step(
    a: FsView,
    b: FsView,
    path: Option<FilePath>,
    m: Migration,
    reports: Seq<UpdateReport>,
) -> bool {
    match path {
        Some(p) => exists|r: Result<UpdateReport, Error>| #[trigger]
            file_step(a, b, p, m.subs@, m.dry_run, r) && reports == ok_reports(r),
        None => b == a && reports.len() == 0,
    }
}

/// The report, where there is one.
pub open spec fn ok_reports(r: Result<UpdateReport, Error>) -> Seq<UpdateReport> {
    match r {
        Ok(report) => seq![report],
        Err(_) => Seq::empty(),
    }
}

/// What comes of a project: where its global directory went, and the reports
/// on its files.
pub type Outcome = (Option<GlobalRename>, Seq<UpdateReport>);

/// The states between the steps of one project, and their reports.
pub struct ProjectTrace {
    pub renamed: FsView,
    pub sessions: FsView,
    pub settings: FsView,
    pub session_reports: Vec<UpdateReport>,
    pub settings_reports: Seq<UpdateReport>,
    pub mcp_reports: Seq<UpdateReport>,
}

/// The sessions of a project are moved: its global directory, then what is in
/// its files.
pub open spec fn sessions_trace(
    t: ProjectTrace,
    a: FsView,
    m: Migration,
    state: ProjectState,
    target: Seq<char>,
    rename: Option<GlobalRename>,
) -> bool {
    &&& rename_view(rename) == rename_for(state, target, m.claude_home@)
    &&& rename_step(a, t.renamed, m.dry_run, rename_view(rename), Ok(()))
    &&& session_step(
        t.renamed,
        t.sessions,
        m,
        state,
        rename_view(rename),
        Ok(t.session_reports),
    )
}

pub open spec fn sessions_step(
    a: FsView,
    b: FsView,
    m: Migration,
    state: ProjectState,
    target: Seq<char>,
    rename: Option<GlobalRename>,
    reports: Vec<UpdateReport>,
) -> bool {
    exists|t: ProjectTrace| #[trigger]
        sessions_trace(t, a, m, state, target, rename) && t.sessions == b && t.session_reports
            == reports
}

/// A project is migrated: its sessions, then its local configuration.
pub open spec fn project_trace(
    t: ProjectTrace,
    a: FsView,
    b: FsView,
    m: Migration,
    state: ProjectState,
    target: Seq<char>,
    out: Outcome,
) -> bool {
    &&& sessions_trace(t, a, m, state, target, out.0)
    &&& optional_step(t.sessions, t.settings, state.settings_json, m, t.settings_reports)
    &&& optional_step(t.settings, b, state.mcp_json, m, t.mcp_reports)
    &&& out.1 == t.session_reports@ + t.settings_reports + t.mcp_reports
}

pub open spec fn project_step(
    a: FsView,
    b: FsView,
    m: Migration,
    state: ProjectState,
    target: Seq<char>,
    out: Outcome,
) -> bool {
    exists|t: ProjectTrace| #[trigger] project_trace(t, a, b, m, state, target, out)
}

/// The global directory has moved to `mid`, and updating the sessions fails.
pub open spec fn sessions_cut(
    a: FsView,
    mid: FsView,
    b: FsView,
    m: Migration,
    state: ProjectState,
    target: Seq<char>,
    e: Error,
) -> bool {
    let rename = rename_for(state, target, m.claude_home@);
    &&& rename_step(a, mid, m.dry_run, rename, Ok(()))
    &&& session_step(mid, b, m, state, rename, Err(e))
}

/// Where moving the sessions of a project stops: at the name of its global
/// directory, at the move of that directory, or at one of its files.
pub open spec fn sessions_fail(
    a: FsView,
    b: FsView,
    m: Migration,
    state: ProjectState,
    target: Seq<char>,
    e: Error,
) -> bool {
    ||| state.global_project_dir is Some && !absolute_text(target) && b == a && e is Encoder
    ||| rename_step(a, b, m.dry_run, rename_for(state, target, m.claude_home@), Err(e))
    ||| exists|mid: FsView| #[trigger] sessions_cut(a, mid, b, m, state, target, e)
}

/// All that is read of a project can be read as text.
pub open spec fn state_readable(v: FsView, state: ProjectState) -> bool {
    forall|i: int|
        0 <= i < state_files(state).len() ==> v.text(
            components(#[trigger] state_files(state)[i]),
        ) is Some
}

/// Whether the text is an absolute path.
pub open spec fn absolute_text(p: Seq<char>) -> bool {
    p.len() > 0 && p[0] == '/'
}

/// In a dry run nothing is written, and a project whose files can be read goes
/// through.
pub open spec fn dry_goes_through(
    a: FsView,
    b: FsView,
    m: Migration,
    state: ProjectState,
    target: Seq<char>,
    ok: bool,
) -> bool {
    m.dry_run ==> b == a && (state_readable(a, state) && absolute_text(target) ==> ok)
}

impl Migration {
    /// Where the global directory of a project has to move.
    pub fn global_rename_for(&self, state: &ProjectState, target: &FilePath) -> (r: Result<
        Option<GlobalRename>,
        Error,
    >)
        ensures
            match r {
                Ok(rename) => {
                    &&& state.global_project_dir is Some ==> is_absolute(*target)
                    &&& rename_view(rename) == rename_for(*state, target@, self.claude_home@)
                },
                Err(e) => {
                    &&& state.global_project_dir is Some && !is_absolute(*target)
                    &&& e matches Error::Encoder(EncoderError::RelativePath(text)) && text@
                        == target@
                },
            },
    {
        let old_global = match &state.global_project_dir {
            Some(dir) => dir,
            None => {
                return Ok(None);
            },
        };
        let name = match encode(target) {
            Ok(name) => name,
            Err(e) => {
                return Err(Error::Encoder(e));
            },
        };
        let new_global = self.claude_home.path.join("projects").join(name.as_str());
        if old_global.same(&new_global) {
            Ok(None)
        } else {
            Ok(Some((old_global.clone(), new_global)))
        }
    }

    /// Moves a global directory. Where there is one already, the sessions of
    /// both are put together.
    fn rename_global_dir<F: Fs>(&self, fs: &mut F, rename: &Option<GlobalRename>) -> (r: Result<
        (),
        Error,
    >)
        ensures
            rename_step(
                old(fs).view(),
                final(fs).view(),
                self.dry_run,
                rename_view(*rename),
                r,
            ),
    {
        if self.dry_run {
            return Ok(());
        }
        let (old_global, new_global) = match rename {
            Some((old_global, new_global)) => (old_global, new_global),
            None => {
                return Ok(());
            },
        };
        if fs.is_dir(new_global) {
            let ghost a = fs.view();
            let index = merge_sessions_index(fs, old_global, new_global);
            let ghost mid = fs.view();
            let r = match index {
                Ok(_) => merge_dirs(fs, old_global, new_global, MAX_DEPTH),
                Err(e) => Err(e),
            };
            assert(merged_global(a, mid, fs.view(), old_global@, new_global@, index, r));
            assert(merged_global_step(a, fs.view(), old_global@, new_global@, r));
            r
        } else {
            match fs.rename(old_global, new_global) {
                Ok(_) => Ok(()),
                Err(e) => Err(
                    Error::Context(
                        "renaming global project directory".to_owned(),
                        Box::new(Error::Fs(e)),
                    ),
                ),
            }
        }
    }

    /// Updates the session files and the session index of a project, where they
    /// are after its global directory has moved.
    fn update_session_files_for<F: Fs>(
        &self,
        fs: &mut F,
        state: &ProjectState,
        rename: &Option<GlobalRename>,
    ) -> (r: Result<Vec<UpdateReport>, Error>)
        ensures
            session_step(old(fs).view(), final(fs).view(), *self, *state, rename_view(*rename), r),
    {
        let old_global = match &state.global_project_dir {
            Some(dir) => dir,
            None => {
                return Ok(Vec::new());
            },
        };
        let new_global = match rename {
            Some((_, new_global)) => new_global,
            None => old_global,
        };
        let ghost old = old_global@;
        let ghost new = new_global@;
        let mut list: Vec<FilePath> = Vec::new();
        let mut i: usize = 0;
        while i < state.session_files.len()
            invariant
                i <= state.session_files@.len(),
                list@.len() == i,
                forall|x: int| 0 <= x < i ==> (#[trigger] list@[x])@ == state.session_files@[x]@,
            decreases state.session_files@.len() - i,
        {
            list.push(state.session_files[i].clone());
            i = i + 1;
        }
        if let Some(index) = &state.sessions_index {
            list.push(index.clone());
        }
        assert(texts(list@) =~= session_list(*state));
        let ghost all = session_list(*state);
        let mut files: Vec<FilePath> = Vec::new();
        i = 0;
        while i < list.len()
            invariant
                old == old_global@,
                new == new_global@,
                old_global == state.global_project_dir->0,
                state.global_project_dir is Some,
                new == new_dir(rename_view(*rename), old),
                all == session_list(*state),
                all == texts(list@),
                all.len() == list@.len(),
                i <= list@.len(),
                files@.len() == i,
                !self.dry_run ==> forall|x: int|
                    0 <= x < i ==> under(components(#[trigger] all[x]), components(old)),
                forall|x: int|
                    0 <= x < i ==> (#[trigger] files@[x])@ == (if self.dry_run {
                        all[x]
                    } else {
                        followed(all[x], old, new)
                    }),
            decreases list@.len() - i,
        {
            let file = &list[i];
            assert(all[i as int] == file@);
            if self.dry_run {
                files.push(file.clone());
            } else {
                match file.strip_prefix(old_global) {
                    Some(below) => {
                        files.push(new_global.join(below.as_str()));
                    },
                    None => {
                        assert(!sessions_inside(*state, old));
                        return Err(Error::SessionOutside(file.clone()));
                    },
                }
            }
            i = i + 1;
        }
        let ghost a = fs.view();
        let r = update_files_parallel(fs, &files, &self.subs, self.dry_run);
        proof {
            assert(texts(files@) =~= session_places(*state, old, new, self.dry_run));
            assert(files_at_step(
                a,
                fs.view(),
                files@,
                session_places(*state, old, new_dir(rename_view(*rename), old), self.dry_run),
                self.subs@,
                self.dry_run,
                r,
            ));
        }
        r
    }

    /// Updates a file that may not be there. An error is let pass.
    pub fn update_optional<F: Fs>(&self, fs: &mut F, path: &Option<FilePath>) -> (r: Vec<UpdateReport>)
        ensures
            optional_step(old(fs).view(), final(fs).view(), *path, *self, r@),
            self.dry_run ==> final(fs).view() == old(fs).view(),
    {
        let mut reports: Vec<UpdateReport> = Vec::new();
        if let Some(p) = path {
            let ghost a = fs.view();
            let r = update_file(fs, p, &self.subs, self.dry_run);
            let ghost outcome = r;
            if let Ok(report) = r {
                reports.push(report);
            }
            proof {
                assert(reports@ =~= ok_reports(outcome));
                assert(file_step(a, fs.view(), *p, self.subs@, self.dry_run, outcome));
            }
        }
        reports
    }

    /// Moves the sessions of a project: its global directory, then what its
    /// session files say.
    fn migrate_sessions<F: Fs>(&self, fs: &mut F, state: &ProjectState, target: &FilePath) -> (r:
        Result<(Option<GlobalRename>, Vec<UpdateReport>), Error>)
        ensures
            match r {
                Ok(out) => sessions_step(
                    old(fs).view(),
                    final(fs).view(),
                    *self,
                    *state,
                    target@,
                    out.0,
                    out.1,
                ),
                Err(e) => sessions_fail(
                    old(fs).view(),
                    final(fs).view(),
                    *self,
                    *state,
                    target@,
                    e,
                ),
            },
            dry_goes_through(old(fs).view(), final(fs).view(), *self, *state, target@, r is Ok),
    {
        let ghost a = fs.view();
        let rename = match self.global_rename_for(state, target) {
            Ok(rename) => rename,
            Err(e) => {
                return Err(e);
            },
        };
        let done = self.rename_global_dir(fs, &rename);
        assert(done is Ok ==> done->Ok_0 == ());
        if let Err(e) = done {
            return Err(e);
        }
        let ghost renamed = fs.view();
        let r = self.update_session_files_for(fs, state, &rename);
        proof {
            if self.dry_run {
                lemma_dry_sessions(renamed, fs.view(), *self, *state, rename_view(rename), r);
            }
        }
        let reports = match r {
            Ok(reports) => reports,
            Err(e) => {
                assert(sessions_cut(a, renamed, fs.view(), *self, *state, target@, e));
                return Err(e);
            },
        };
        let ghost t = ProjectTrace {
            renamed,
            sessions: fs.view(),
            settings: fs.view(),
            session_reports: reports,
            settings_reports: Seq::empty(),
            mcp_reports: Seq::empty(),
        };
        assert(sessions_trace(t, a, *self, *state, target@, rename));
        assert(sessions_step(a, fs.view(), *self, *state, target@, rename, reports));
        Ok((rename, reports))
    }

    /// Everything that a single project owns: its global directory, the session
    /// files in it, its settings and its MCP configuration.
    fn migrate_project<F: Fs>(&self, fs: &mut F, state: &ProjectState, target: &FilePath) -> (r:
        Result<(Option<GlobalRename>, Vec<UpdateReport>), Error>)
        ensures
            match r {
                Ok(out) => project_step(
                    old(fs).view(),
                    final(fs).view(),
                    *self,
                    *state,
                    target@,
                    (out.0, out.1@),
                ),
                Err(e) => sessions_fail(
                    old(fs).view(),
                    final(fs).view(),
                    *self,
                    *state,
                    target@,
                    e,
                ),
            },
            dry_goes_through(old(fs).view(), final(fs).view(), *self, *state, target@, r is Ok),
    {
        let ghost a = fs.view();
        let (rename, mut reports) = match self.migrate_sessions(fs, state, target) {
            Ok(out) => out,
            Err(e) => {
                return Err(e);
            },
        };
        let ghost t0 = choose|t: ProjectTrace| #[trigger]
            sessions_trace(t, a, *self, *state, target@, rename) && t.sessions == fs.view()
                && t.session_reports == reports;
        let mut settings = self.update_optional(fs, &state.settings_json);
        let ghost settings_view = fs.view();
        let ghost settings_reports = settings@;
        let mut mcp = self.update_optional(fs, &state.mcp_json);
        let ghost t = ProjectTrace {
            settings: settings_view,
            settings_reports,
            mcp_reports: mcp@,
            ..t0
        };
        reports.append(&mut settings);
        reports.append(&mut mcp);
        assert(sessions_trace(t, a, *self, *state, target@, rename));
        assert(project_trace(t, a, fs.view(), *self, *state, target@, (rename, reports@)));
        Ok((rename, reports))
    }
}

/// A dry run of the sessions writes nothing, and goes through where they can be
/// read.
pub proof fn lemma_dry_sessions(
    a: FsView,
    b: FsView,
    m: Migration,
    state: ProjectState,
    rename: Option<(Seq<char>, Seq<char>)>,
    r: Result<Vec<UpdateReport>, Error>,
)
    requires
        m.dry_run,
        session_step(a, b, m, state, rename, r),
    ensures
        b == a,
        state_readable(a, state) ==> r is Ok,
{
    if let Some(dir) = state.global_project_dir {
        let places = session_places(state, dir@, new_dir(rename, dir@), true);
        let files = choose|files: Seq<FilePath>| #[trigger]
            files_at_step(a, b, files, places, m.subs@, true, r);
        lemma_dry_files(a, b, files, m.subs@, r);
        if state_readable(a, state) {
            assert forall|i: int| 0 <= i < files.len() implies a.text(
                (#[trigger] files[i]).key(),
            ) is Some by {
                assert(texts(files)[i] == files[i]@);
                assert(places[i] == session_list(state)[i]);
                assert(state_files(state)[i] == session_list(state)[i]);
            }
        }
    }
}

/// A dry run over some files writes nothing, and goes through where they can be
/// read.
proof fn lemma_dry_files(
    a: FsView,
    b: FsView,
    files: Seq<FilePath>,
    subs: Pairs,
    r: Result<Vec<UpdateReport>, Error>,
)
    requires
        files_step(a, b, files, subs, true, r),
    ensures
        b == a,
        (forall|i: int| 0 <= i < files.len() ==> a.text((#[trigger] files[i]).key()) is Some)
            ==> r is Ok,
{
    match r {
        Ok(reports) => {
            let vs = choose|vs: Seq<FsView>| #[trigger]
                file_steps(vs, files, subs, true, reports@) && vs[0] == a && vs.last() == b;
            lemma_dry_steps(vs, files, subs, reports@, reports@.len() as int);
        },
        Err(e) => {
            let (vs, reports) = choose|vs: Seq<FsView>, reports: Seq<UpdateReport>| #[trigger]
                file_steps(vs, files, subs, true, reports) && vs[0] == a && vs.last() == b
                    && reports.len() < files.len() && file_step(
                    b,
                    b,
                    files[reports.len() as int],
                    subs,
                    true,
                    Err(e),
                );
            lemma_dry_steps(vs, files, subs, reports, reports.len() as int);
        },
    }
}

proof fn lemma_dry_steps(
    vs: Seq<FsView>,
    files: Seq<FilePath>,
    subs: Pairs,
    reports: Seq<UpdateReport>,
    n: int,
)
    requires
        file_steps(vs, files, subs, true, reports),
        0 <= n <= reports.len(),
    ensures
        vs[n] == vs[0],
    decreases n,
{
    if n > 0 {
        lemma_dry_steps(vs, files, subs, reports, n - 1);
        assert(file_step(vs[n - 1], vs[n - 1 + 1], files[n - 1], subs, true, Ok(reports[n - 1])));
    }
}

/// The states that a chain of steps goes through, and what comes of each.
pub struct ChainTrace {
    pub vs: Seq<FsView>,
    pub outs: Seq<Outcome>,
}

/// The reports of a chain, one step after the other.
pub open spec fn all_reports(outs: Seq<Outcome>) -> Seq<UpdateReport>
    decreases outs.len(),
{
    if outs.len() == 0 {
        Seq::empty()
    } else {
        all_reports(outs.drop_last()) + outs.last().1
    }
}

/// The first of the projects are migrated one after the other.
pub open spec fn subprojects_trace(
    t: ChainTrace,
    m: Migration,
    subs: Seq<(ProjectState, FilePath)>,
) -> bool {
    &&& t.vs.len() == t.outs.len() + 1
    &&& t.outs.len() <= subs.len()
    &&& forall|i: int|
        #![trigger t.outs[i]]
        0 <= i < t.outs.len() ==> project_step(
            t.vs[i],
            t.vs[i + 1],
            m,
            subs[i].0,
            subs[i].1@,
            t.outs[i],
        )
}

/// The first of the projects are migrated, and the next one fails.
pub open spec fn subprojects_cut(
    t: ChainTrace,
    b: FsView,
    m: Migration,
    subs: Seq<(ProjectState, FilePath)>,
    e: Error,
) -> bool {
    let n = t.outs.len() as int;
    &&& subprojects_trace(t, m, subs)
    &&& n < subs.len()
    &&& sessions_fail(t.vs.last(), b, m, subs[n].0, subs[n].1@, e)
}

pub open spec fn subprojects_fail(
    a: FsView,
    b: FsView,
    m: Migration,
    subs: Seq<(ProjectState, FilePath)>,
    e: Error,
) -> bool {
    exists|t: ChainTrace| #[trigger] subprojects_cut(t, b, m, subs, e) && t.vs[0] == a
}

/// What moving a project directory does to the file system, and what comes of
/// it. Where the target is there already, the two are put together.
pub open spec fn dir_step(
    a: FsView,
    b: FsView,
    dry_run: bool,
    u: Unit,
    r: Result<(), Error>,
) -> bool {
    if dry_run || u.source.key() == u.target.key() || !a.dirs.contains(u.source.key()) {
        b == a && r is Ok
    } else if a.dirs.contains(u.target.key()) {
        match r {
            Ok(_) => merge_step(a, b, u.source@, u.target@, Ok(())),
            Err(e) => (e matches Error::Context(_, cause) && merge_step(
                a,
                b,
                u.source@,
                u.target@,
                Err(*cause),
            )),
        }
    } else {
        moved_step(a, b, u.source@, u.target@, r)
    }
}

/// The states between the steps of one unit.
pub struct UnitTrace {
    pub project: FsView,
    pub subprojects: FsView,
    pub reports: Seq<UpdateReport>,
    pub chain: ChainTrace,
}

/// What refers to the project of a unit is moved, then what refers to those
/// below it.
pub open spec fn references_trace(
    t: UnitTrace,
    a: FsView,
    m: Migration,
    u: Unit,
    out: Outcome,
) -> bool {
    &&& project_step(a, t.project, m, u.state, u.target@, (out.0, t.reports))
    &&& subprojects_trace(t.chain, m, u.subprojects@)
    &&& t.chain.outs.len() == u.subprojects@.len()
    &&& t.chain.vs[0] == t.project
    &&& t.chain.vs.last() == t.subprojects
    &&& out.1 == t.reports + all_reports(t.chain.outs)
}

/// A unit is moved: the project, those below it, then its directory.
pub open spec fn unit_trace(
    t: UnitTrace,
    a: FsView,
    b: FsView,
    m: Migration,
    u: Unit,
    out: Outcome,
) -> bool {
    &&& references_trace(t, a, m, u, out)
    &&& dir_step(t.subprojects, b, m.dry_run, u, Ok(()))
}

/// The project of a unit is migrated to `mid`, and one below it fails.
pub open spec fn below_cut(
    a: FsView,
    mid: FsView,
    b: FsView,
    m: Migration,
    u: Unit,
    out: Outcome,
    e: Error,
) -> bool {
    &&& project_step(a, mid, m, u.state, u.target@, out)
    &&& subprojects_fail(mid, b, m, u.subprojects@, e)
}

/// Everything that refers to a unit is moved, and its directory cannot be.
pub open spec fn dir_cut(
    t: UnitTrace,
    a: FsView,
    b: FsView,
    m: Migration,
    u: Unit,
    out: Outcome,
    e: Error,
) -> bool {
    &&& references_trace(t, a, m, u, out)
    &&& dir_step(t.subprojects, b, m.dry_run, u, Err(e))
}

/// Where moving a unit stops: at its own sessions, at a project below it, or at
/// its directory.
pub open spec fn unit_fail(a: FsView, b: FsView, m: Migration, u: Unit, e: Error) -> bool {
    ||| sessions_fail(a, b, m, u.state, u.target@, e)
    ||| !m.session_only && exists|mid: FsView, out: Outcome| #[trigger]
        below_cut(a, mid, b, m, u, out, e)
    ||| !m.session_only && exists|t: UnitTrace, out: Outcome| #[trigger]
        dir_cut(t, a, b, m, u, out, e)
}

/// What moving a unit does, and what comes of it. A session-only run moves its
/// sessions and nothing else.
pub open spec fn unit_step(a: FsView, b: FsView, m: Migration, u: Unit, out: Outcome) -> bool {
    if m.session_only {
        exists|reports: Vec<UpdateReport>| #[trigger]
            sessions_step(a, b, m, u.state, u.target@, out.0, reports) && out.1 == reports@
    } else {
        exists|t: UnitTrace| #[trigger] unit_trace(t, a, b, m, u, out)
    }
}

/// The units that have work left.
pub open spec fn active(units: Seq<Unit>) -> Seq<Unit> {
    units.filter(|u: Unit| !u.nothing_to_do)
}

/// The first of the units are moved one after the other.
pub open spec fn units_trace(t: ChainTrace, m: Migration, units: Seq<Unit>) -> bool {
    &&& t.vs.len() == t.outs.len() + 1
    &&& t.outs.len() == units.len()
    &&& forall|i: int|
        #![trigger t.outs[i]]
        0 <= i < t.outs.len() ==> unit_step(t.vs[i], t.vs[i + 1], m, units[i], t.outs[i])
}

/// What moving all units does, and what comes of it: where their global
/// directories went, and the reports on their files.
pub open spec fn work_step(
    a: FsView,
    b: FsView,
    m: Migration,
    renames: Seq<Option<GlobalRename>>,
    reports: Seq<UpdateReport>,
) -> bool {
    exists|t: ChainTrace| #[trigger]
        units_trace(t, m, active(m.units@)) && t.vs[0] == a && t.vs.last() == b && renames
            == t.outs.map_values(|o: Outcome| o.0) && reports == all_reports(t.outs)
}

/// The first of the units are moved, and the next one fails.
pub open spec fn work_cut(t: ChainTrace, b: FsView, m: Migration, e: Error) -> bool {
    let n = t.outs.len() as int;
    &&& n < active(m.units@).len()
    &&& units_trace(t, m, active(m.units@).take(n))
    &&& unit_fail(t.vs.last(), b, m, active(m.units@)[n], e)
}

pub open spec fn work_fail(a: FsView, b: FsView, m: Migration, e: Error) -> bool {
    exists|t: ChainTrace| #[trigger] work_cut(t, b, m, e) && t.vs[0] == a
}

/// What passes a test among the first `i` items comes first among all that
/// pass, and item `i` behind it.
pub(crate) proof fn lemma_filter_prefix<T>(s: Seq<T>, f: spec_fn(T) -> bool, i: int)
    requires
        0 <= i < s.len(),
        f(s[i]),
    ensures
        s.take(i).filter(f).len() < s.filter(f).len(),
        s.filter(f).take(s.take(i).filter(f).len() as int) == s.take(i).filter(f),
        s.filter(f)[s.take(i).filter(f).len() as int] == s[i],
{
    reveal(Seq::filter);
    let done = s.take(i).filter(f);
    let rest = s.skip(i + 1).filter(f);
    assert(s.take(i + 1).drop_last() =~= s.take(i));
    assert(s.take(i + 1).filter(f) =~= done.push(s[i]));
    assert(s =~= s.take(i + 1) + s.skip(i + 1));
    Seq::filter_distributes_over_add(s.take(i + 1), s.skip(i + 1), f);
    assert(s.filter(f) =~= done.push(s[i]) + rest);
    assert(s.filter(f).take(done.len() as int) =~= done);
}

/// All that is read of a unit can be read, and every path that it moves to is
/// absolute.
pub open spec fn unit_ready(v: FsView, u: Unit) -> bool {
    &&& state_readable(v, u.state)
    &&& is_absolute(u.target)
    &&& forall|i: int|
        0 <= i < u.subprojects@.len() ==> state_readable(v, (#[trigger] u.subprojects@[i]).0)
            && is_absolute(u.subprojects@[i].1)
}

/// All units that have work left are ready for it.
pub open spec fn units_ready(v: FsView, units: Seq<Unit>) -> bool {
    forall|i: int|
        0 <= i < units.len() && !(#[trigger] units[i]).nothing_to_do ==> unit_ready(v, units[i])
}

impl Migration {
    /// Migrates the projects below a unit. Their directories travel with it,
    /// their global directories do not.
    fn migrate_subprojects<F: Fs>(&self, fs: &mut F, unit: &Unit) -> (r: Result<
        Vec<UpdateReport>,
        Error,
    >)
        ensures
            match r {
                Ok(reports) => exists|t: ChainTrace| #[trigger]
                    subprojects_trace(t, *self, unit.subprojects@) && t.outs.len()
                        == unit.subprojects@.len() && t.vs[0] == old(fs).view() && t.vs.last()
                        == final(fs).view() && reports@ == all_reports(t.outs),
                Err(e) => subprojects_fail(
                    old(fs).view(),
                    final(fs).view(),
                    *self,
                    unit.subprojects@,
                    e,
                ),
            },
            self.dry_run ==> final(fs).view() == old(fs).view() && (unit_ready(
                old(fs).view(),
                *unit,
            ) ==> r is Ok),
    {
        let ghost start = fs.view();
        let ghost subs = unit.subprojects@;
        let mut reports: Vec<UpdateReport> = Vec::new();
        let ghost mut t = ChainTrace { vs: seq![fs.view()], outs: Seq::empty() };
        let mut i: usize = 0;
        while i < unit.subprojects.len()
            invariant
                start == old(fs).view(),
                subs == unit.subprojects@,
                i <= subs.len(),
                t.outs.len() == i,
                subprojects_trace(t, *self, subs),
                t.vs[0] == start,
                t.vs.last() == fs.view(),
                reports@ == all_reports(t.outs),
                self.dry_run ==> fs.view() == start,
            decreases subs.len() - i,
        {
            let ghost before = t;
            let (rename, mut more) = match self.migrate_project(
                fs,
                &unit.subprojects[i].0,
                &unit.subprojects[i].1,
            ) {
                Ok(out) => out,
                Err(e) => {
                    assert(subprojects_cut(before, fs.view(), *self, subs, e));
                    return Err(e);
                },
            };
            let ghost out = (rename, more@);
            reports.append(&mut more);
            proof {
                t = ChainTrace { vs: before.vs.push(fs.view()), outs: before.outs.push(out) };
                assert(t.outs.drop_last() =~= before.outs);
                assert forall|x: int| #![trigger t.outs[x]] 0 <= x < t.outs.len() implies
                    project_step(t.vs[x], t.vs[x + 1], *self, subs[x].0, subs[x].1@, t.outs[x]) by {
                    if x < i {
                        assert(t.outs[x] == before.outs[x]);
                        assert(t.vs[x] == before.vs[x] && t.vs[x + 1] == before.vs[x + 1]);
                    }
                }
            }
            i = i + 1;
        }
        assert(subprojects_trace(t, *self, unit.subprojects@));
        Ok(reports)
    }

    /// Moves the project directory of a unit.
    fn move_project_dir<F: Fs>(&self, fs: &mut F, unit: &Unit) -> (r: Result<(), Error>)
        ensures
            dir_step(old(fs).view(), final(fs).view(), self.dry_run, *unit, r),
    {
        if self.dry_run || unit.source.same(&unit.target) || !fs.is_dir(&unit.source) {
            return Ok(());
        }
        if fs.is_dir(&unit.target) {
            let merged = merge_dirs(fs, &unit.source, &unit.target, MAX_DEPTH);
            assert(merged is Ok ==> merged->Ok_0 == ());
            match merged {
                Ok(_) => Ok(()),
                Err(e) => Err(
                    Error::Context(
                        "merging project directory into existing target".to_owned(),
                        Box::new(e),
                    ),
                ),
            }
        } else {
            match fs.rename(&unit.source, &unit.target) {
                Ok(_) => Ok(()),
                Err(e) => Err(
                    Error::Context("moving project directory".to_owned(), Box::new(Error::Fs(e))),
                ),
            }
        }
    }

    /// Moves one unit.
    fn move_unit<F: Fs>(&self, fs: &mut F, unit: &Unit) -> (r: Result<
        (Option<GlobalRename>, Vec<UpdateReport>),
        Error,
    >)
        ensures
            match r {
                Ok(out) => unit_step(
                    old(fs).view(),
                    final(fs).view(),
                    *self,
                    *unit,
                    (out.0, out.1@),
                ),
                Err(e) => unit_fail(old(fs).view(), final(fs).view(), *self, *unit, e),
            },
            self.dry_run ==> final(fs).view() == old(fs).view() && (unit_ready(
                old(fs).view(),
                *unit,
            ) ==> r is Ok),
    {
        let ghost a = fs.view();
        if self.session_only {
            let (rename, reports) = match self.migrate_sessions(fs, &unit.state, &unit.target) {
                Ok(out) => out,
                Err(e) => {
                    return Err(e);
                },
            };
            let ghost out: Outcome = (rename, reports@);
            assert(sessions_step(
                a,
                fs.view(),
                *self,
                unit.state,
                unit.target@,
                out.0,
                reports,
            ));
            assert(unit_step(a, fs.view(), *self, *unit, out));
            return Ok((rename, reports));
        }
        let (rename, mut reports) = match self.migrate_project(fs, &unit.state, &unit.target) {
            Ok(out) => out,
            Err(e) => {
                return Err(e);
            },
        };
        let ghost project = fs.view();
        let ghost first = reports@;
        let mut more = match self.migrate_subprojects(fs, unit) {
            Ok(more) => more,
            Err(e) => {
                assert(below_cut(a, project, fs.view(), *self, *unit, (rename, first), e));
                return Err(e);
            },
        };
        let ghost chain = choose|t: ChainTrace| #[trigger]
            subprojects_trace(t, *self, unit.subprojects@) && t.outs.len()
                == unit.subprojects@.len() && t.vs[0] == project && t.vs.last() == fs.view()
                && more@ == all_reports(t.outs);
        let ghost subprojects = fs.view();
        reports.append(&mut more);
        let ghost t = UnitTrace { project, subprojects, reports: first, chain };
        let ghost out: Outcome = (rename, reports@);
        assert(references_trace(t, a, *self, *unit, out));
        let done = self.move_project_dir(fs, unit);
        assert(done is Ok ==> done->Ok_0 == ());
        if let Err(e) = done {
            assert(dir_cut(t, a, fs.view(), *self, *unit, out, e));
            return Err(e);
        }
        assert(unit_trace(t, a, fs.view(), *self, *unit, out));
        Ok((rename, reports))
    }

    /// Moves every unit that has work left. No two units meet: the plan's check
    /// refuses moves whose paths nest.
    pub fn move_units<F: Fs>(&self, fs: &mut F) -> (r: Result<
        (Vec<Option<GlobalRename>>, Vec<UpdateReport>),
        Error,
    >)
        ensures
            match r {
                Ok(out) => work_step(
                    old(fs).view(),
                    final(fs).view(),
                    *self,
                    out.0@,
                    out.1@,
                ),
                Err(e) => work_fail(old(fs).view(), final(fs).view(), *self, e),
            },
            self.dry_run ==> final(fs).view() == old(fs).view() && (units_ready(
                old(fs).view(),
                self.units@,
            ) ==> r is Ok),
    {
        let ghost start = fs.view();
        let ghost units = self.units@;
        let ghost f = |u: Unit| !u.nothing_to_do;
        let mut renames: Vec<Option<GlobalRename>> = Vec::new();
        let mut reports: Vec<UpdateReport> = Vec::new();
        let ghost mut t = ChainTrace { vs: seq![fs.view()], outs: Seq::empty() };
        let mut i: usize = 0;
        proof {
            assert(units.take(0) =~= Seq::empty());
            reveal(Seq::filter);
            assert(units.take(0).filter(f) =~= Seq::empty());
            assert(renames@ =~= t.outs.map_values(|o: Outcome| o.0));
        }
        while i < self.units.len()
            invariant
                start == old(fs).view(),
                units == self.units@,
                f == (|u: Unit| !u.nothing_to_do),
                i <= units.len(),
                units_trace(t, *self, units.take(i as int).filter(f)),
                t.vs[0] == start,
                t.vs.last() == fs.view(),
                renames@ == t.outs.map_values(|o: Outcome| o.0),
                reports@ == all_reports(t.outs),
                self.dry_run ==> fs.view() == start,
            decreases units.len() - i,
        {
            let unit = &self.units[i];
            let ghost done = units.take(i as int).filter(f);
            let ghost now = units.take(i + 1).filter(f);
            proof {
                reveal(Seq::filter);
                assert(units.take(i + 1).drop_last() =~= units.take(i as int));
                assert(units.take(i + 1).last() == *unit);
            }
            if !unit.nothing_to_do {
                let ghost before = t;
                let (rename, mut more) = match self.move_unit(fs, unit) {
                    Ok(out) => out,
                    Err(e) => {
                        proof {
                            lemma_filter_prefix(units, f, i as int);
                            assert(active(self.units@) == units.filter(f));
                            assert(work_cut(before, fs.view(), *self, e));
                        }
                        return Err(e);
                    },
                };
                let ghost out = (rename, more@);
                let ghost had = renames@;
                renames.push(rename);
                reports.append(&mut more);
                proof {
                    assert(now == done.push(*unit));
                    t = ChainTrace { vs: before.vs.push(fs.view()), outs: before.outs.push(out) };
                    assert(t.outs.drop_last() =~= before.outs);
                    assert(renames@ =~= t.outs.map_values(|o: Outcome| o.0));
                    assert forall|x: int| #![trigger t.outs[x]] 0 <= x < t.outs.len() implies
                        unit_step(t.vs[x], t.vs[x + 1], *self, now[x], t.outs[x]) by {
                        if x < done.len() {
                            assert(t.outs[x] == before.outs[x]);
                            assert(t.vs[x] == before.vs[x] && t.vs[x + 1] == before.vs[x + 1]);
                            assert(now[x] == done[x]);
                        }
                    }
                }
            } else {
                assert(now == done);
            }
            i = i + 1;
        }
        proof {
            assert(units.take(i as int) =~= units);
            assert(units_trace(t, *self, active(self.units@)));
        }
        Ok((renames, reports))
    }
}

} // verus!
