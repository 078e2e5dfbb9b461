//! Units: one move with everything that was found out about it before the
//! first write.

use vstd::prelude::*;
use vstd::string::*;

use crate::error::Error;
use crate::fs::Fs;
use crate::fs::FsView;
use crate::home::Home;
use crate::home::HomeView;
use crate::json::key_list;
use crate::json::lemma_lists_keys;
use crate::json::parse_json;
use crate::json::parsed;
use crate::json::project_keys;
use crate::json::projects;
use crate::path::FilePath;
use crate::scanner::describes;
use crate::scanner::fault_of;
use crate::scanner::has_global;
use crate::scanner::has_project;
use crate::scanner::reports;
use crate::scanner::scan;
use crate::scanner::Fault;
use crate::scanner::ProjectState;
use crate::substitution::text_at;

verus! {

/// How a run is to be made.
pub struct MigrateOpts {
    pub dry_run: bool,
    pub force: bool,
    pub no_backup: bool,
    pub session_only: bool,
    /// Repoint the links that lead into a moved project.
    pub relink: bool,
    /// Directories to search for such links, besides those of the projects.
    pub scan_root: Vec<FilePath>,
}

/// One project on the move.
pub struct Unit {
    pub source: FilePath,
    pub target: FilePath,
    pub state: ProjectState,
    /// The projects registered below the source, each with its state and the
    /// path it moves to. Empty until they are looked for.
    pub subprojects: Vec<(ProjectState, FilePath)>,
    /// The project is where it belongs, and its references say so.
    pub nothing_to_do: bool,
}

/// Whether the path is absolute.
pub open spec fn is_absolute(p: FilePath) -> bool {
    p@.len() > 0 && p@[0] == '/'
}

fn require_absolute(source: &FilePath, target: &FilePath) -> (r: Result<(), Error>)
    ensures
        match r {
            Ok(_) => is_absolute(*source) && is_absolute(*target),
            Err(e) => if !is_absolute(*source) {
                e == Error::RelativeSource(*source)
            } else {
                !is_absolute(*target) && e == Error::RelativeTarget(*target)
            },
        },
{
    if !source.is_absolute() {
        return Err(Error::RelativeSource(source.clone()));
    }
    if !target.is_absolute() {
        return Err(Error::RelativeTarget(target.clone()));
    }
    Ok(())
}

/// Whether the state that a unit starts from is that of its source: otherwise
/// the move seems to have been made before, and the target's state counts.
pub open spec fn from_source(v: FsView, source: FilePath, home: HomeView) -> bool {
    has_project(v, source@, home)
}

/// Why a move cannot be made a unit of.
pub open spec fn unit_error(
    e: Error,
    v: FsView,
    source: FilePath,
    target: FilePath,
    home: HomeView,
    opts: MigrateOpts,
) -> bool {
    let apart = source.key() != target.key();
    if !is_absolute(source) {
        e == Error::RelativeSource(source)
    } else if !is_absolute(target) {
        e == Error::RelativeTarget(target)
    } else if fault_of(v, source@, home) is Some {
        reports(e, fault_of(v, source@, home)->0)
    } else if from_source(v, source, home) {
        apart && !opts.session_only && if fault_of(v, target@, home) is Some {
            reports(e, fault_of(v, target@, home)->0)
        } else {
            has_global(v, target@, home) && !opts.force && e == Error::OccupiedTarget(target)
        }
    } else if !apart || opts.session_only {
        e == Error::MissingSource(source)
    } else if fault_of(v, target@, home) is Some {
        reports(e, fault_of(v, target@, home)->0)
    } else {
        !has_project(v, target@, home) && e == Error::MissingSource(source)
    }
}

/// Whether a move can be made a unit of.
pub open spec fn unit_possible(
    v: FsView,
    source: FilePath,
    target: FilePath,
    home: HomeView,
    opts: MigrateOpts,
) -> bool {
    let apart = source.key() != target.key();
    &&& is_absolute(source)
    &&& is_absolute(target)
    &&& fault_of(v, source@, home) is None
    &&& if from_source(v, source, home) {
        apart && !opts.session_only ==> fault_of(v, target@, home) is None && (has_global(
            v,
            target@,
            home,
        ) ==> opts.force)
    } else {
        apart && !opts.session_only && fault_of(v, target@, home) is None && has_project(
            v,
            target@,
            home,
        )
    }
}

impl Unit {
    /// A unit that nothing has been done with yet.
    pub open spec fn is_fresh(&self, source: FilePath, target: FilePath) -> bool {
        &&& self.source == source
        &&& self.target == target
        &&& self.subprojects@.len() == 0
        &&& !self.nothing_to_do
    }

    /// A unit from a state that was scanned before.
    pub fn from_state(source: &FilePath, target: &FilePath, state: ProjectState) -> (r: Result<
        Self,
        Error,
    >)
        ensures
            match r {
                Ok(unit) => is_absolute(*source) && is_absolute(*target) && unit.is_fresh(
                    *source,
                    *target,
                ) && unit.state == state,
                Err(e) => if !is_absolute(*source) {
                    e == Error::RelativeSource(*source)
                } else {
                    !is_absolute(*target) && e == Error::RelativeTarget(*target)
                },
            },
    {
        if let Err(e) = require_absolute(source, target) {
            return Err(e);
        }
        Ok(
            Unit {
                source: source.clone(),
                target: target.clone(),
                state,
                subprojects: Vec::new(),
                nothing_to_do: false,
            },
        )
    }

    /// Scans a move. With neither a directory nor data at the source, the move
    /// may have been made already: then the target's state shows what is left
    /// to do.
    pub fn scan<F: Fs>(
        fs: &F,
        source: &FilePath,
        target: &FilePath,
        claude_home: &Home,
        opts: &MigrateOpts,
    ) -> (r: Result<Self, Error>)
        ensures
            match r {
                Ok(unit) => {
                    &&& unit_possible(fs.view(), *source, *target, claude_home@, *opts)
                    &&& unit.is_fresh(*source, *target)
                    &&& describes(
                        unit.state,
                        fs.view(),
                        if from_source(fs.view(), *source, claude_home@) {
                            source@
                        } else {
                            target@
                        },
                        claude_home@,
                    )
                },
                Err(e) => {
                    &&& !unit_possible(fs.view(), *source, *target, claude_home@, *opts)
                    &&& unit_error(e, fs.view(), *source, *target, claude_home@, *opts)
                },
            },
    {
        if let Err(e) = require_absolute(source, target) {
            return Err(e);
        }
        let source_state = match scan(fs, source, claude_home) {
            Ok(state) => state,
            Err(e) => {
                return Err(e);
            },
        };
        let same = source.same(target);
        if source_state.has_claude_data() {
            if !same && !opts.session_only {
                let target_state = match scan(fs, target, claude_home) {
                    Ok(state) => state,
                    Err(e) => {
                        return Err(e);
                    },
                };
                if target_state.global_project_dir.is_some() && !opts.force {
                    return Err(Error::OccupiedTarget(target.clone()));
                }
            }
            return Unit::from_state(source, target, source_state);
        }
        // In a session-only run there is nothing to fall back to: without data
        // at the source there is nothing to move.
        if same || opts.session_only {
            return Err(Error::MissingSource(source.clone()));
        }
        let target_state = match scan(fs, target, claude_home) {
            Ok(state) => state,
            Err(e) => {
                return Err(e);
            },
        };
        if !target_state.has_claude_data() {
            return Err(Error::MissingSource(source.clone()));
        }
        Unit::from_state(source, target, target_state)
    }
}

/// The keys of the registered projects, where the file can be read.
pub open spec fn keys_of_file(v: FsView, path: Option<FilePath>) -> Option<Seq<Seq<char>>> {
    match path {
        Some(p) => match v.text(p.key()) {
            Some(text) => match parsed(text) {
                Some(root) => match projects(root) {
                    Some(m) => Some(key_list(m)),
                    None => Some(Seq::empty()),
                },
                None => None,
            },
            None => None,
        },
        None => Some(Seq::empty()),
    }
}

/// Reads the paths of the registered projects.
pub fn read_project_keys<F: Fs>(fs: &F, claude_json: &Option<FilePath>) -> (r: Result<
    Vec<String>,
    Error,
>)
    ensures
        match r {
            Ok(keys) => keys_of_file(fs.view(), *claude_json) == Some(
                keys@.map_values(|k: String| k@),
            ),
            Err(e) => keys_of_file(fs.view(), *claude_json) is None && (if fs.view().text(
                claude_json->0.key(),
            ) is None {
                e is Fs
            } else {
                e is Json
            }),
        },
{
    let none: Vec<String> = Vec::new();
    assert(none@.map_values(|k: String| k@) =~= Seq::empty());
    let path = match claude_json {
        Some(path) => path,
        None => {
            return Ok(none);
        },
    };
    let content = match fs.read_to_string(path) {
        Ok(content) => content,
        Err(e) => {
            return Err(Error::Fs(e));
        },
    };
    let root = match parse_json(content.as_str()) {
        Ok(root) => root,
        Err(message) => {
            return Err(Error::Json(message));
        },
    };
    match project_keys(&root) {
        Some(keys) => {
            proof {
                lemma_lists_keys(keys@, projects(root)->0);
            }
            Ok(keys)
        },
        None => Ok(none),
    }
}

/// Whether `key` lies below `source`.
pub open spec fn is_subproject(key: Seq<char>, source: Seq<char>) -> bool {
    text_at(key, 0, source.push('/'))
}

/// Where the project at `key`, below `source`, lands.
pub open spec fn sub_target(key: Seq<char>, source: Seq<char>, target: Seq<char>) -> Seq<char> {
    target + key.skip(source.len() as int)
}

/// The keys below `source`.
pub open spec fn subproject_keys(keys: Seq<Seq<char>>, source: Seq<char>) -> Seq<Seq<char>> {
    keys.filter(|k: Seq<char>| is_subproject(k, source))
}

/// The first of the projects that cannot be scanned.
pub open spec fn first_fault(v: FsView, list: Seq<Seq<char>>, home: HomeView) -> Option<Fault>
    decreases list.len(),
{
    if list.len() == 0 {
        None
    } else {
        match first_fault(v, list.drop_last(), home) {
            Some(fault) => Some(fault),
            None => fault_of(v, list.last(), home),
        }
    }
}

/// The states and new paths of the projects at `list`, which all lie below
/// `source`.
pub open spec fn are_subprojects(
    subs: Seq<(ProjectState, FilePath)>,
    v: FsView,
    list: Seq<Seq<char>>,
    source: Seq<char>,
    target: Seq<char>,
    home: HomeView,
) -> bool {
    &&& subs.len() == list.len()
    &&& forall|i: int|
        0 <= i < subs.len() ==> describes((#[trigger] subs[i]).0, v, list[i], home) && subs[i].1@
            == sub_target(list[i], source, target)
}

proof fn lemma_first_fault(v: FsView, list: Seq<Seq<char>>, home: HomeView, n: int)
    requires
        0 <= n <= list.len(),
        first_fault(v, list.take(n), home) is Some,
    ensures
        first_fault(v, list, home) == first_fault(v, list.take(n), home),
    decreases list.len(),
{
    if n < list.len() {
        assert(list.drop_last().take(n) =~= list.take(n));
        lemma_first_fault(v, list.drop_last(), home, n);
    } else {
        assert(list.take(n) =~= list);
    }
}

/// Scans the projects registered below `source`.
pub fn discover_subprojects<F: Fs>(
    fs: &F,
    source: &FilePath,
    target: &FilePath,
    keys: &Vec<String>,
    claude_home: &Home,
) -> (r: Result<Vec<(ProjectState, FilePath)>, Error>)
    ensures
        ({
            let list = subproject_keys(keys@.map_values(|k: String| k@), source@);
            match r {
                Ok(subs) => first_fault(fs.view(), list, claude_home@) is None && are_subprojects(
                    subs@,
                    fs.view(),
                    list,
                    source@,
                    target@,
                    claude_home@,
                ),
                Err(e) => first_fault(fs.view(), list, claude_home@) is Some && reports(
                    e,
                    first_fault(fs.view(), list, claude_home@)->0,
                ),
            }
        }),
{
    let ghost v = fs.view();
    let ghost home = claude_home@;
    let ghost all = keys@.map_values(|k: String| k@);
    let ghost f = |k: Seq<char>| is_subproject(k, source@);
    let mut start = source.as_str().to_owned();
    start.push('/');
    let prefix = crate::text::chars_of(start.as_str());
    let mut subs: Vec<(ProjectState, FilePath)> = Vec::new();
    let mut i: usize = 0;
    proof {
        assert(all.take(0) =~= Seq::empty());
        reveal(Seq::filter);
        assert(all.take(0).filter(f) =~= Seq::empty());
    }
    while i < keys.len()
        invariant
            v == fs.view(),
            home == claude_home@,
            all == keys@.map_values(|k: String| k@),
            all.len() == keys@.len(),
            f == (|k: Seq<char>| is_subproject(k, source@)),
            prefix@ == source@.push('/'),
            i <= keys@.len(),
            first_fault(v, all.take(i as int).filter(f), home) is None,
            are_subprojects(
                subs@,
                v,
                all.take(i as int).filter(f),
                source@,
                target@,
                home,
            ),
        decreases keys@.len() - i,
    {
        let key = &keys[i];
        let ghost before = all.take(i as int).filter(f);
        let ghost now = all.take(i + 1).filter(f);
        proof {
            reveal(Seq::filter);
            assert(all.take(i + 1).drop_last() =~= all.take(i as int));
            assert(all.take(i + 1).last() == key@);
        }
        let chars = crate::text::chars_of(key.as_str());
        if crate::substitution::holds_at(&chars, 0, &prefix) {
            assert(now == before.push(key@));
            assert(now.drop_last() =~= before);
            let rest = crate::text::string_of(&chars, prefix.len() - 1, chars.len());
            let mut place = target.as_str().to_owned();
            place.append(rest.as_str());
            assert(rest@ =~= key@.skip(source@.len() as int));
            let state = match scan(fs, &FilePath::new(key.as_str()), claude_home) {
                Ok(state) => state,
                Err(e) => {
                    proof {
                        assert(first_fault(v, now, home) is Some);
                        lemma_filter_take(all, f, i + 1);
                        lemma_first_fault(v, all.filter(f), home, now.len() as int);
                    }
                    return Err(e);
                },
            };
            let ghost had = subs@;
            subs.push((state, FilePath::from_string(place)));
            assert forall|x: int| 0 <= x < subs@.len() implies describes(
                (#[trigger] subs@[x]).0,
                v,
                now[x],
                home,
            ) && subs@[x].1@ == sub_target(now[x], source@, target@) by {
                if x < had.len() {
                    assert(subs@[x] == had[x]);
                }
            }
        } else {
            assert(now == before);
        }
        i = i + 1;
    }
    assert(all.take(i as int) =~= all);
    Ok(subs)
}

/// What a start of the list lets through is a start of what the list does.
proof fn lemma_filter_take(all: Seq<Seq<char>>, f: spec_fn(Seq<char>) -> bool, n: int)
    requires
        0 <= n <= all.len(),
    ensures
        all.take(n).filter(f).len() <= all.filter(f).len(),
        all.filter(f).take(all.take(n).filter(f).len() as int) == all.take(n).filter(f),
{
    assert(all =~= all.take(n) + all.skip(n));
    Seq::filter_distributes_over_add(all.take(n), all.skip(n), f);
    let a = all.take(n).filter(f);
    let b = all.skip(n).filter(f);
    assert((a + b).take(a.len() as int) =~= a);
}

} // verus!
