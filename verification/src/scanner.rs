//! What is known about a project: its directories and the files that name it.

use vstd::prelude::*;
use vstd::string::*;

use crate::encoder::encode;
use crate::encoder::encoded;
use crate::encoder::EncoderError;
use crate::error::Error;
use crate::fs::texts;
use crate::fs::Fs;
use crate::fs::FsView;
use crate::home::Home;
use crate::home::HomeView;
use crate::path::components;
use crate::path::has_parent;
use crate::path::is_name;
use crate::path::join_text;
use crate::path::opt_text;
use crate::path::parent_text;
use crate::path::same_text;
use crate::path::FilePath;
use crate::substitution::boundary;
use crate::substitution::holds_at;
use crate::substitution::is_segment_boundary;
use crate::substitution::text_at;
use crate::text::chars_of;

verus! {

/// The state of a project and of what refers to it.
#[derive(Debug)]
pub struct ProjectState {
    pub project_path: FilePath,
    pub project_dir_exists: bool,
    pub local_claude_dir: Option<FilePath>,
    pub global_project_dir: Option<FilePath>,
    pub session_files: Vec<FilePath>,
    pub sessions_index: Option<FilePath>,
    pub settings_json: Option<FilePath>,
    pub mcp_json: Option<FilePath>,
    pub history_jsonl: Option<FilePath>,
    pub claude_json: Option<FilePath>,
    pub paths_consistent: bool,
}

impl ProjectState {
    /// Whether the project is there at all: as a directory, or by its global
    /// data.
    pub open spec fn has_data(&self) -> bool {
        self.project_dir_exists || self.global_project_dir is Some
    }

    pub fn has_claude_data(&self) -> (r: bool)
        ensures
            r == self.has_data(),
    {
        self.project_dir_exists || self.global_project_dir.is_some()
    }
}

/// Whether a file name ends in `.jsonl`, in any case, with something before it.
pub open spec fn session_name(n: Seq<char>) -> bool {
    let at = n.len() - 6;
    &&& at > 0
    &&& n[at] == '.'
    &&& n[at + 1] == 'j' || n[at + 1] == 'J'
    &&& n[at + 2] == 's' || n[at + 2] == 'S'
    &&& n[at + 3] == 'o' || n[at + 3] == 'O'
    &&& n[at + 4] == 'n' || n[at + 4] == 'N'
    &&& n[at + 5] == 'l' || n[at + 5] == 'L'
}

/// The name of the file at `e`, where its path ends in one.
pub open spec fn name_of(e: Seq<char>) -> Option<Seq<char>> {
    if components(e).len() > 0 && is_name(components(e).last()) {
        Some(components(e).last())
    } else {
        None
    }
}

pub open spec fn is_session(e: Seq<char>) -> bool {
    name_of(e) matches Some(n) && session_name(n)
}

pub open spec fn is_index(e: Seq<char>) -> bool {
    name_of(e) == Some("sessions-index.json"@)
}

/// Where the sessions of subagents of the session directory `e` lie.
pub open spec fn subagents_dir(e: Seq<char>) -> Seq<char> {
    join_text(e, "subagents"@)
}

pub open spec fn has_subagents(v: FsView, e: Seq<char>) -> bool {
    v.dirs.contains(components(e)) && v.dirs.contains(components(subagents_dir(e)))
}

/// The session files among the paths.
pub open spec fn sessions_among(list: Seq<Seq<char>>) -> Seq<Seq<char>> {
    list.filter(|e: Seq<char>| is_session(e))
}

/// The session files that an entry of a global directory accounts for: itself,
/// and those of its subagents.
pub open spec fn sessions_at(v: FsView, e: Seq<char>) -> Seq<Seq<char>> {
    (if is_session(e) {
        seq![e]
    } else {
        Seq::empty()
    }) + (if has_subagents(v, e) {
        sessions_among(v.listing[subagents_dir(e)])
    } else {
        Seq::empty()
    })
}

/// The session files of a global directory with the given entries.
pub open spec fn sessions_of(v: FsView, entries: Seq<Seq<char>>) -> Seq<Seq<char>>
    decreases entries.len(),
{
    if entries.len() == 0 {
        Seq::empty()
    } else {
        sessions_of(v, entries.drop_last()) + sessions_at(v, entries.last())
    }
}

/// The session index of a global directory with the given entries.
pub open spec fn index_of(entries: Seq<Seq<char>>) -> Option<Seq<char>>
    decreases entries.len(),
{
    if entries.len() == 0 {
        None
    } else if is_index(entries.last()) {
        Some(entries.last())
    } else {
        index_of(entries.drop_last())
    }
}

/// Whether the subagents of all entries can be listed.
pub open spec fn listable(v: FsView, entries: Seq<Seq<char>>) -> bool {
    forall|i: int|
        0 <= i < entries.len() && has_subagents(v, #[trigger] entries[i]) ==> v.listing.contains_key(
            subagents_dir(entries[i]),
        )
}

/// The global directory of the project `p`.
pub open spec fn global_dir(p: Seq<char>, home: HomeView) -> Seq<char> {
    global_dir_in(p, home.path)
}

/// The global directory of the project `p` in the data directory `dir`.
pub open spec fn global_dir_in(p: Seq<char>, dir: Seq<char>) -> Seq<char> {
    join_text(join_text(dir, "projects"@), encoded(p))
}

pub open spec fn has_global(v: FsView, p: Seq<char>, home: HomeView) -> bool {
    v.dirs.contains(components(global_dir(p, home)))
}

/// The entries of the project's global directory.
pub open spec fn global_entries(v: FsView, p: Seq<char>, home: HomeView) -> Seq<Seq<char>> {
    if has_global(v, p, home) {
        v.listing[global_dir(p, home)]
    } else {
        Seq::empty()
    }
}

/// Whether the project can be scanned: what there is of its global directory
/// can be listed.
pub open spec fn scannable(v: FsView, p: Seq<char>, home: HomeView) -> bool {
    has_global(v, p, home) ==> v.listing.contains_key(global_dir(p, home)) && listable(
        v,
        v.listing[global_dir(p, home)],
    )
}

/// The path `p`, where something is there.
pub open spec fn if_present(v: FsView, p: Seq<char>) -> Option<Seq<char>> {
    if v.present.contains(components(p)) {
        Some(p)
    } else {
        None
    }
}

/// Whether the text names the path `p`, and not only one that starts like it.
pub open spec fn mentions(text: Seq<char>, p: Seq<char>) -> bool {
    exists|i: int|
        0 <= i <= text.len() && #[trigger] text_at(text, i, p) && boundary(text, i + p.len())
}

/// Whether the first session file that can be read, else the session index,
/// names the project. With neither there is nothing to contradict it.
pub open spec fn consistent(
    v: FsView,
    p: Seq<char>,
    sessions: Seq<Seq<char>>,
    index: Option<Seq<char>>,
) -> bool {
    if sessions.len() > 0 && v.text(components(sessions[0])) is Some {
        mentions(v.text(components(sessions[0]))->0, p)
    } else if index is Some && v.text(components(index->0)) is Some {
        mentions(v.text(components(index->0))->0, p)
    } else {
        true
    }
}

/// The path of the registry file, beside the data directory `home`.
pub open spec fn claude_json_path(home: HomeView) -> Option<Seq<char>> {
    if has_parent(components(home.path)) {
        Some(join_text(parent_text(home.path), home.registry))
    } else {
        None
    }
}

/// Why a project cannot be scanned.
pub enum Fault {
    /// Its path is not absolute.
    Relative(Seq<char>),
    /// Its global directory, or that of a subagent, cannot be listed.
    Unlistable,
}

/// What stands in the way of scanning the project `p`, if anything does.
pub open spec fn fault_of(v: FsView, p: Seq<char>, home: HomeView) -> Option<Fault> {
    if !(p.len() > 0 && p[0] == '/') {
        Some(Fault::Relative(p))
    } else if !scannable(v, p, home) {
        Some(Fault::Unlistable)
    } else {
        None
    }
}

/// `e` reports the fault.
pub open spec fn reports(e: Error, fault: Fault) -> bool {
    match fault {
        Fault::Relative(p) => e matches Error::Encoder(EncoderError::RelativePath(text)) && text@
            == p,
        Fault::Unlistable => e is Fs,
    }
}

/// Whether there is a project at `p`: a directory, or global data.
pub open spec fn has_project(v: FsView, p: Seq<char>, home: HomeView) -> bool {
    v.dirs.contains(components(p)) || has_global(v, p, home)
}

/// `state` is the state of the project `p` on the file system `v`.
pub open spec fn describes(
    state: ProjectState,
    v: FsView,
    p: Seq<char>,
    home: HomeView,
) -> bool {
    let local = join_text(p, home.local_dir);
    let entries = global_entries(v, p, home);
    &&& state.project_path@ == p
    &&& state.project_dir_exists == v.dirs.contains(components(p))
    &&& opt_text(state.local_claude_dir) == if v.dirs.contains(components(local)) {
        Some(local)
    } else {
        None
    }
    &&& opt_text(state.global_project_dir) == if has_global(v, p, home) {
        Some(global_dir(p, home))
    } else {
        None
    }
    &&& texts(state.session_files@) == sessions_of(v, entries)
    &&& opt_text(state.sessions_index) == index_of(entries)
    &&& opt_text(state.settings_json) == if_present(v, join_text(local, "settings.json"@))
    &&& opt_text(state.mcp_json) == if_present(v, join_text(p, ".mcp.json"@))
    &&& opt_text(state.history_jsonl) == if_present(v, join_text(home.path, "history.jsonl"@))
    &&& opt_text(state.claude_json) == match claude_json_path(home) {
        Some(path) => if_present(v, path),
        None => None,
    }
    &&& state.paths_consistent == consistent(v, p, sessions_of(v, entries), index_of(entries))
}

fn is_session_name(name: &String) -> (r: bool)
    ensures
        r == session_name(name@),
{
    let n = chars_of(name.as_str());
    if n.len() <= 6 {
        return false;
    }
    let at: usize = n.len() - 6;
    n[at] == '.' && (n[at + 1] == 'j' || n[at + 1] == 'J') && (n[at + 2] == 's' || n[at + 2] == 'S')
        && (n[at + 3] == 'o' || n[at + 3] == 'O') && (n[at + 4] == 'n' || n[at + 4] == 'N') && (n[at
        + 5] == 'l' || n[at + 5] == 'L')
}

fn is_session_path(path: &FilePath) -> (r: bool)
    ensures
        r == is_session(path@),
{
    match path.file_name() {
        Some(name) => is_session_name(&name),
        None => false,
    }
}

fn is_index_path(path: &FilePath) -> (r: bool)
    ensures
        r == is_index(path@),
{
    match path.file_name() {
        Some(name) => same_text(name.as_str(), "sessions-index.json"),
        None => false,
    }
}

/// The path, where something is there.
fn when_present<F: Fs>(fs: &F, path: FilePath) -> (r: Option<FilePath>)
    ensures
        opt_text(r) == if_present(fs.view(), path@),
{
    if fs.path_exists(&path) {
        Some(path)
    } else {
        None
    }
}

/// Whether the text names the path.
fn text_mentions(text: &String, path: &FilePath) -> (r: bool)
    ensures
        r == mentions(text@, path@),
{
    let chars = chars_of(text.as_str());
    let name = chars_of(path.as_str());
    let n: usize = chars.len();
    let mut i: usize = 0;
    while i < n
        invariant
            n == chars@.len(),
            chars@ == text@,
            name@ == path@,
            i <= n,
            forall|j: int|
                0 <= j < i ==> !(#[trigger] text_at(text@, j, path@) && boundary(
                    text@,
                    j + path@.len(),
                )),
        decreases n - i,
    {
        if holds_at(&chars, i, &name) && is_segment_boundary(&chars, i + name.len()) {
            return true;
        }
        i = i + 1;
    }
    let r = name.len() == 0;
    proof {
        assert(text_at(text@, n as int, path@) == (path@.len() == 0)) by {
            if path@.len() == 0 {
                assert(text@.subrange(n as int, n as int) =~= path@);
            }
        }
    }
    r
}

/// Whether the files that record the project's path name it.
fn check_paths_consistent<F: Fs>(
    fs: &F,
    project_path: &FilePath,
    session_files: &Vec<FilePath>,
    sessions_index: &Option<FilePath>,
) -> (r: bool)
    ensures
        r == consistent(
            fs.view(),
            project_path@,
            texts(session_files@),
            opt_text(*sessions_index),
        ),
{
    if session_files.len() > 0 {
        assert(texts(session_files@)[0] == session_files@[0]@);
        if let Ok(content) = fs.read_to_string(&session_files[0]) {
            return text_mentions(&content, project_path);
        }
    }
    if let Some(index_path) = sessions_index {
        if let Ok(content) = fs.read_to_string(index_path) {
            return text_mentions(&content, project_path);
        }
    }
    true
}

/// Appends the session files among `list`.
fn push_sessions(list: &Vec<FilePath>, out: &mut Vec<FilePath>)
    ensures
        texts(final(out)@) == texts(old(out)@) + sessions_among(texts(list@)),
{
    let ghost f = |e: Seq<char>| is_session(e);
    let ghost all = texts(list@);
    let mut i: usize = 0;
    proof {
        assert(all.take(0) =~= Seq::empty());
        reveal(Seq::filter);
        assert(texts(out@) =~= texts(old(out)@) + all.take(0).filter(f));
    }
    while i < list.len()
        invariant
            f == (|e: Seq<char>| is_session(e)),
            all == texts(list@),
            all.len() == list@.len(),
            i <= list@.len(),
            texts(out@) == texts(old(out)@) + all.take(i as int).filter(f),
        decreases list@.len() - i,
    {
        let ghost before = out@;
        let found = is_session_path(&list[i]);
        if found {
            out.push(list[i].clone());
        }
        i = i + 1;
        proof {
            reveal(Seq::filter);
            assert(all.take(i as int).drop_last() =~= all.take(i - 1));
            assert(all.take(i as int).last() == list@[i - 1]@);
            if found {
                assert(texts(before.push(list@[i - 1])) =~= texts(before).push(list@[i - 1]@));
            }
            assert(texts(out@) =~= texts(old(out)@) + all.take(i as int).filter(f));
        }
    }
    assert(all.take(i as int) =~= all);
}

/// Scans a project.
pub fn scan<F: Fs>(fs: &F, project_path: &FilePath, claude_home: &Home) -> (r: Result<
    ProjectState,
    Error,
>)
    ensures
        match r {
            Ok(state) => fault_of(fs.view(), project_path@, claude_home@) is None && describes(
                state,
                fs.view(),
                project_path@,
                claude_home@,
            ),
            Err(e) => fault_of(fs.view(), project_path@, claude_home@) is Some && reports(
                e,
                fault_of(fs.view(), project_path@, claude_home@)->0,
            ),
        },
{
    let name = match encode(project_path) {
        Ok(name) => name,
        Err(e) => {
            return Err(Error::Encoder(e));
        },
    };
    let project_dir_exists = fs.is_dir(project_path);

    let local_claude = project_path.join(claude_home.local_dir.as_str());
    let settings_path = local_claude.join("settings.json");
    let settings_json = when_present(fs, settings_path);
    let mcp_json = when_present(fs, project_path.join(".mcp.json"));
    let local_claude_dir = if fs.is_dir(&local_claude) {
        Some(local_claude)
    } else {
        None
    };

    let global = claude_home.path.join("projects").join(name.as_str());
    let ghost v = fs.view();
    let ghost all = global_entries(v, project_path@, claude_home@);
    let mut session_files: Vec<FilePath> = Vec::new();
    let mut sessions_index: Option<FilePath> = None;
    let mut global_project_dir: Option<FilePath> = None;
    assert(texts(session_files@) =~= Seq::empty());
    if fs.is_dir(&global) {
        let entries = match fs.list_dir(&global) {
            Ok(entries) => entries,
            Err(e) => {
                return Err(Error::Fs(e));
            },
        };
        let mut i: usize = 0;
        proof {
            assert(all.take(0) =~= Seq::empty());
        }
        while i < entries.len()
            invariant
                v == fs.view(),
                project_path@.len() > 0 && project_path@[0] == '/',
                has_global(v, project_path@, claude_home@),
                v.listing.contains_key(global_dir(project_path@, claude_home@)),
                all == v.listing[global_dir(project_path@, claude_home@)],
                all == texts(entries@),
                all.len() == entries@.len(),
                i <= entries@.len(),
                listable(v, all.take(i as int)),
                texts(session_files@) == sessions_of(v, all.take(i as int)),
                opt_text(sessions_index) == index_of(all.take(i as int)),
            decreases entries@.len() - i,
        {
            let entry = &entries[i];
            let ghost e = entry@;
            assert(all[i as int] == e);
            let ghost before = session_files@;
            if is_index_path(entry) {
                sessions_index = Some(entry.clone());
            } else if is_session_path(entry) {
                session_files.push(entry.clone());
            }
            proof {
                if is_index(e) {
                    reveal_strlit("sessions-index.json");
                    assert(!is_session(e));
                }
                assert(texts(session_files@) =~= texts(before) + (if is_session(e) {
                    seq![e]
                } else {
                    Seq::empty()
                }));
            }
            if fs.is_dir(entry) {
                let subagents = entry.join("subagents");
                if fs.is_dir(&subagents) {
                    let sub_entries = match fs.list_dir(&subagents) {
                        Ok(sub_entries) => sub_entries,
                        Err(error) => {
                            assert(has_subagents(v, all[i as int]));
                            return Err(Error::Fs(error));
                        },
                    };
                    push_sessions(&sub_entries, &mut session_files);
                }
            }
            i = i + 1;
            proof {
                let now = all.take(i as int);
                assert(now.drop_last() =~= all.take(i - 1));
                assert(now.last() == e);
                assert(texts(session_files@) =~= sessions_of(v, now));
                assert forall|j: int| 0 <= j < now.len() && has_subagents(
                    v,
                    #[trigger] now[j],
                ) implies v.listing.contains_key(subagents_dir(now[j])) by {
                    if j < i - 1 {
                        assert(now[j] == all.take(i - 1)[j]);
                    }
                }
            }
        }
        assert(all.take(i as int) =~= all);
        global_project_dir = Some(global);
    }
    let history_jsonl = when_present(fs, claude_home.path.join("history.jsonl"));
    let claude_json = match claude_home.path.parent() {
        Some(home) => when_present(fs, home.join(claude_home.registry.as_str())),
        None => None,
    };
    let paths_consistent = check_paths_consistent(
        fs,
        project_path,
        &session_files,
        &sessions_index,
    );
    Ok(
        ProjectState {
            project_path: project_path.clone(),
            project_dir_exists,
            local_claude_dir,
            global_project_dir,
            session_files,
            sessions_index,
            settings_json,
            mcp_json,
            history_jsonl,
            claude_json,
            paths_consistent,
        },
    )
}

} // verus!
