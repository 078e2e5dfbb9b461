//! Runs: any number of moves made as one, and everything that is settled about
//! them before the first write.

use vstd::prelude::*;
use vstd::string::*;

use crate::error::Error;
use crate::fs::can_rename;
use crate::fs::renamable;
use crate::fs::rename_error;
use crate::fs::texts;
use crate::fs::Fs;
use crate::fs::FsView;
use crate::home::Home;
use crate::home::HomeView;
use crate::links::finding;
use crate::links::is_candidate;
use crate::links::is_candidate_for;
use crate::links::is_list_error;
use crate::links::list_unreadable;
use crate::links::references;
use crate::links::relink_candidate;
use crate::links::roots;
use crate::links::scan_roots;
use crate::links::text_references;
use crate::links::walk_scan_roots;
use crate::links::walked;
use crate::links::Finding;
use crate::links::LinkCandidate;
use crate::links::TextReference;
use crate::path::components;
use crate::path::FilePath;
use crate::scanner::describes;
use crate::scanner::reports;
use crate::scanner::Fault;
use crate::scanner::ProjectState;
use crate::substitution::pairs_of;
use crate::substitution::Pairs;
use crate::substitution::Substitutions;
use crate::unit::are_subprojects;
use crate::unit::discover_subprojects;
use crate::unit::first_fault;
use crate::unit::from_source;
use crate::unit::is_absolute;
use crate::unit::keys_of_file;
use crate::unit::read_project_keys;
use crate::unit::subproject_keys;
use crate::unit::unit_error;
use crate::unit::unit_possible;
use crate::unit::MigrateOpts;
use crate::unit::Unit;

verus! {

/// One run over any number of moves.
///
/// Each unit has work of its own: its global session directory and the files in
/// it, its local configuration, its project directory. `history.jsonl` and
/// the registry file belong to no unit; they are rewritten once for all.
pub struct Migration {
    pub claude_home: Home,
    pub units: Vec<Unit>,
    /// Applied to every file that the run rewrites, in one pass each.
    pub subs: Substitutions,
    pub history_jsonl: Option<FilePath>,
    pub claude_json: Option<FilePath>,
    pub dry_run: bool,
    pub no_backup: bool,
    pub session_only: bool,
    pub relink: bool,
    pub scan_root: Vec<FilePath>,
    /// When the run was started, as it stands in the names of what it leaves.
    pub timestamp: String,
}

/// The substitutions of the units: a move onto itself has none.
pub open spec fn unit_pairs(units: Seq<Unit>) -> Pairs
    decreases units.len(),
{
    if units.len() == 0 {
        Seq::empty()
    } else {
        let u = units.last();
        let before = unit_pairs(units.drop_last());
        if u.source.key() == u.target.key() {
            before
        } else {
            before.push((u.source@, u.target@))
        }
    }
}

/// Every unit moves from an absolute path to an absolute path.
pub open spec fn all_absolute(units: Seq<Unit>) -> bool {
    forall|i: int|
        0 <= i < units.len() ==> is_absolute((#[trigger] units[i]).source) && is_absolute(
            units[i].target,
        )
}

/// The run is set up for the units as the options say.
pub open spec fn is_set_up(
    m: Migration,
    units: Seq<Unit>,
    home: HomeView,
    opts: MigrateOpts,
    timestamp: Seq<char>,
) -> bool {
    &&& units.len() > 0
    &&& m.claude_home@ == home
    &&& m.units@ == units
    &&& m.subs@ == unit_pairs(units)
    &&& m.history_jsonl == units[0].state.history_jsonl
    &&& m.claude_json == units[0].state.claude_json
    &&& m.dry_run == opts.dry_run
    &&& m.no_backup == opts.no_backup
    &&& m.session_only == opts.session_only
    &&& m.relink == opts.relink
    &&& texts(m.scan_root@) == texts(opts.scan_root@)
    &&& m.timestamp@ == timestamp
}

fn copy_path(p: &Option<FilePath>) -> (r: Option<FilePath>)
    ensures
        r == *p,
{
    match p {
        Some(path) => Some(path.clone()),
        None => None,
    }
}

fn copy_paths(list: &Vec<FilePath>) -> (r: Vec<FilePath>)
    ensures
        texts(r@) == texts(list@),
{
    let mut r: Vec<FilePath> = Vec::new();
    let mut i: usize = 0;
    while i < list.len()
        invariant
            i <= list@.len(),
            r@.len() == i,
            forall|x: int| 0 <= x < i ==> (#[trigger] r@[x])@ == list@[x]@,
        decreases list@.len() - i,
    {
        r.push(list[i].clone());
        i = i + 1;
    }
    assert(texts(r@) =~= texts(list@));
    r
}

/// The moves that become the first units.
pub open spec fn are_units(
    units: Seq<Unit>,
    v: FsView,
    moves: Seq<(FilePath, FilePath)>,
    home: HomeView,
    opts: MigrateOpts,
) -> bool {
    &&& units.len() <= moves.len()
    &&& forall|i: int|
        #![trigger units[i]]
        0 <= i < units.len() ==> {
            &&& unit_possible(v, moves[i].0, moves[i].1, home, opts)
            &&& units[i].is_fresh(moves[i].0, moves[i].1)
            &&& describes(
                units[i].state,
                v,
                if from_source(v, moves[i].0, home) {
                    moves[i].0@
                } else {
                    moves[i].1@
                },
                home,
            )
        }
}

impl Migration {
    /// Scans the moves and sets up a run for them.
    pub fn new<F: Fs>(
        fs: &F,
        moves: &Vec<(FilePath, FilePath)>,
        claude_home: &Home,
        opts: &MigrateOpts,
        timestamp: &str,
    ) -> (r: Result<Self, Error>)
        ensures
            match r {
                Ok(m) => {
                    &&& are_units(m.units@, fs.view(), moves@, claude_home@, *opts)
                    &&& m.units@.len() == moves@.len()
                    &&& all_absolute(m.units@)
                    &&& is_set_up(m, m.units@, claude_home@, *opts, timestamp@)
                },
                Err(e) => {
                    ||| moves@.len() == 0 && e is NothingToMigrate
                    ||| exists|units: Seq<Unit>| #[trigger]
                        are_units(units, fs.view(), moves@, claude_home@, *opts) && units.len()
                            < moves@.len() && !unit_possible(
                            fs.view(),
                            moves@[units.len() as int].0,
                            moves@[units.len() as int].1,
                            claude_home@,
                            *opts,
                        ) && unit_error(
                            e,
                            fs.view(),
                            moves@[units.len() as int].0,
                            moves@[units.len() as int].1,
                            claude_home@,
                            *opts,
                        )
                },
            },
    {
        let mut units: Vec<Unit> = Vec::new();
        let mut i: usize = 0;
        while i < moves.len()
            invariant
                i <= moves@.len(),
                units@.len() == i,
                are_units(units@, fs.view(), moves@, claude_home@, *opts),
            decreases moves@.len() - i,
        {
            match Unit::scan(fs, &moves[i].0, &moves[i].1, claude_home, opts) {
                Ok(unit) => {
                    units.push(unit);
                },
                Err(e) => {
                    assert(are_units(units@, fs.view(), moves@, claude_home@, *opts));
                    return Err(e);
                },
            }
            i = i + 1;
        }
        assert(all_absolute(units@)) by {
            assert forall|x: int| 0 <= x < units@.len() implies is_absolute(
                (#[trigger] units@[x]).source,
            ) && is_absolute(units@[x].target) by {
                assert(units@[x].is_fresh(moves@[x].0, moves@[x].1));
            }
        }
        Migration::from_units(units, claude_home, opts, timestamp)
    }

    /// Sets up a run for units that were scanned before.
    pub fn from_units(
        units: Vec<Unit>,
        claude_home: &Home,
        opts: &MigrateOpts,
        timestamp: &str,
    ) -> (r: Result<Self, Error>)
        ensures
            match r {
                Ok(m) => is_set_up(m, units@, claude_home@, *opts, timestamp@),
                Err(e) => units@.len() == 0 && e is NothingToMigrate,
            },
    {
        if units.len() == 0 {
            return Err(Error::NothingToMigrate);
        }
        let mut pairs: Vec<(String, String)> = Vec::new();
        let mut i: usize = 0;
        assert(units@.take(0) =~= Seq::empty());
        assert(pairs_of(pairs@) =~= unit_pairs(units@.take(0)));
        while i < units.len()
            invariant
                i <= units@.len(),
                pairs_of(pairs@) == unit_pairs(units@.take(i as int)),
            decreases units@.len() - i,
        {
            let unit = &units[i];
            let ghost before = pairs@;
            if !unit.source.same(&unit.target) {
                pairs.push((unit.source.as_str().to_owned(), unit.target.as_str().to_owned()));
                assert(pairs_of(pairs@) =~= pairs_of(before).push((unit.source@, unit.target@)));
            }
            i = i + 1;
            proof {
                assert(units@.take(i as int).drop_last() =~= units@.take(i - 1));
                assert(units@.take(i as int).last() == units@[i - 1]);
            }
        }
        assert(units@.take(i as int) =~= units@);
        let history_jsonl = copy_path(&units[0].state.history_jsonl);
        let claude_json = copy_path(&units[0].state.claude_json);
        Ok(
            Migration {
                claude_home: claude_home.clone(),
                units,
                subs: Substitutions::new(pairs),
                history_jsonl,
                claude_json,
                dry_run: opts.dry_run,
                no_backup: opts.no_backup,
                session_only: opts.session_only,
                relink: opts.relink,
                scan_root: copy_paths(&opts.scan_root),
                timestamp: timestamp.to_owned(),
            },
        )
    }
}

/// Whether a unit is where it belongs. A session-only run leaves the project
/// directories alone, so there the paths decide.
pub open spec fn is_settled(u: Unit, session_only: bool) -> bool {
    u.source.key() == u.target.key() && (session_only || (u.state.paths_consistent
        && u.state.project_dir_exists))
}

/// Both units are the same but for what is still to be found out.
pub open spec fn same_move(a: Unit, b: Unit) -> bool {
    a.source == b.source && a.target == b.target && a.state == b.state
}

/// `b` are the units `a` with those marked that are where they belong.
pub open spec fn are_marked(a: Seq<Unit>, b: Seq<Unit>, session_only: bool) -> bool {
    &&& a.len() == b.len()
    &&& forall|i: int|
        #![trigger b[i]]
        0 <= i < b.len() ==> same_move(a[i], b[i]) && b[i].subprojects == a[i].subprojects
            && b[i].nothing_to_do == is_settled(a[i], session_only)
}

/// `b` are the units `a` with the projects below them found.
pub open spec fn are_discovered(
    a: Seq<Unit>,
    b: Seq<Unit>,
    v: FsView,
    keys: Seq<Seq<char>>,
    home: HomeView,
) -> bool {
    &&& b.len() <= a.len()
    &&& forall|i: int|
        #![trigger b[i]]
        0 <= i < b.len() ==> {
            &&& same_move(a[i], b[i])
            &&& b[i].nothing_to_do == a[i].nothing_to_do
            &&& if a[i].nothing_to_do {
                b[i].subprojects@.len() == 0
            } else {
                first_fault(v, subproject_keys(keys, a[i].source@), home) is None
                    && are_subprojects(
                    b[i].subprojects@,
                    v,
                    subproject_keys(keys, a[i].source@),
                    a[i].source@,
                    a[i].target@,
                    home,
                )
            }
        }
}

/// The first of the units below which a project cannot be scanned.
pub open spec fn discovery_fault(
    v: FsView,
    units: Seq<Unit>,
    keys: Seq<Seq<char>>,
    home: HomeView,
) -> Option<Fault>
    decreases units.len(),
{
    if units.len() == 0 {
        None
    } else {
        match discovery_fault(v, units.drop_last(), keys, home) {
            Some(fault) => Some(fault),
            None => if units.last().nothing_to_do {
                None
            } else {
                first_fault(v, subproject_keys(keys, units.last().source@), home)
            },
        }
    }
}

proof fn lemma_discovery_fault(
    v: FsView,
    units: Seq<Unit>,
    keys: Seq<Seq<char>>,
    home: HomeView,
    n: int,
)
    requires
        0 <= n <= units.len(),
        discovery_fault(v, units.take(n), keys, home) is Some,
    ensures
        discovery_fault(v, units, keys, home) == discovery_fault(v, units.take(n), keys, home),
    decreases units.len(),
{
    if n < units.len() {
        assert(units.drop_last().take(n) =~= units.take(n));
        lemma_discovery_fault(v, units.drop_last(), keys, home, n);
    } else {
        assert(units.take(n) =~= units);
    }
}

/// Marks the units that are where they belong.
pub fn mark_settled(units: Vec<Unit>, session_only: bool) -> (r: Vec<Unit>)
    ensures
        are_marked(units@, r@, session_only),
{
    let ghost all = units@;
    let mut rest = units;
    let mut r: Vec<Unit> = Vec::new();
    let ghost mut n: int = 0;
    assert(all.skip(0) =~= all);
    while rest.len() > 0
        invariant
            0 <= n <= all.len(),
            rest@ == all.skip(n),
            r@.len() == n,
            forall|i: int|
                #![trigger r@[i]]
                0 <= i < n ==> same_move(all[i], r@[i]) && r@[i].subprojects == all[i].subprojects
                    && r@[i].nothing_to_do == is_settled(all[i], session_only),
        decreases rest@.len(),
    {
        let mut unit = rest.remove(0);
        assert(unit == all[n]);
        assert(all.skip(n).remove(0) =~= all.skip(n + 1));
        unit.nothing_to_do = unit.source.same(&unit.target) && (session_only || (
        unit.state.paths_consistent && unit.state.project_dir_exists));
        r.push(unit);
        proof {
            n = n + 1;
        }
    }
    r
}

/// Finds the projects below the units. The keys still name the old paths.
pub fn discover_all_subprojects<F: Fs>(
    fs: &F,
    units: Vec<Unit>,
    claude_json: &Option<FilePath>,
    claude_home: &Home,
) -> (r: Result<Vec<Unit>, Error>)
    ensures
        match r {
            Ok(found) => {
                &&& keys_of_file(fs.view(), *claude_json) is Some
                &&& discovery_fault(
                    fs.view(),
                    units@,
                    keys_of_file(fs.view(), *claude_json)->0,
                    claude_home@,
                ) is None
                &&& found@.len() == units@.len()
                &&& are_discovered(
                    units@,
                    found@,
                    fs.view(),
                    keys_of_file(fs.view(), *claude_json)->0,
                    claude_home@,
                )
            },
            Err(e) => match keys_of_file(fs.view(), *claude_json) {
                Some(keys) => {
                    let fault = discovery_fault(fs.view(), units@, keys, claude_home@);
                    fault is Some && reports(e, fault->0)
                },
                None => e is Fs || e is Json,
            },
        },
{
    let keys = match read_project_keys(fs, claude_json) {
        Ok(keys) => keys,
        Err(e) => {
            return Err(e);
        },
    };
    let ghost v = fs.view();
    let ghost names = keys@.map_values(|k: String| k@);
    let ghost all = units@;
    let mut rest = units;
    let mut r: Vec<Unit> = Vec::new();
    let ghost mut n: int = 0;
    assert(all.skip(0) =~= all);
    assert(all.take(0) =~= Seq::empty());
    while rest.len() > 0
        invariant
            v == fs.view(),
            all == units@,
            names == keys@.map_values(|k: String| k@),
            keys_of_file(v, *claude_json) == Some(names),
            0 <= n <= all.len(),
            rest@ == all.skip(n),
            r@.len() == n,
            discovery_fault(v, all.take(n), names, claude_home@) is None,
            are_discovered(all, r@, v, names, claude_home@),
        decreases rest@.len(),
    {
        let mut unit = rest.remove(0);
        let ghost had = r@;
        proof {
            assert(unit == all[n]);
            assert(all.skip(n).remove(0) =~= all.skip(n + 1));
            assert(all.take(n + 1).drop_last() =~= all.take(n));
            assert(all.take(n + 1).last() == unit);
        }
        if unit.nothing_to_do {
            unit.subprojects = Vec::new();
        } else {
            unit.subprojects = match discover_subprojects(
                fs,
                &unit.source,
                &unit.target,
                &keys,
                claude_home,
            ) {
                Ok(subprojects) => subprojects,
                Err(e) => {
                    proof {
                        lemma_discovery_fault(v, all, names, claude_home@, n + 1);
                    }
                    return Err(e);
                },
            };
        }
        r.push(unit);
        proof {
            assert forall|i: int| #![trigger r@[i]] 0 <= i < r@.len() implies same_move(
                all[i],
                r@[i],
            ) && r@[i].nothing_to_do == all[i].nothing_to_do && (if all[i].nothing_to_do {
                r@[i].subprojects@.len() == 0
            } else {
                first_fault(v, subproject_keys(names, all[i].source@), claude_home@) is None
                    && are_subprojects(
                    r@[i].subprojects@,
                    v,
                    subproject_keys(names, all[i].source@),
                    all[i].source@,
                    all[i].target@,
                    claude_home@,
                )
            }) by {
                if i < n {
                    assert(r@[i] == had[i]);
                }
            }
            n = n + 1;
        }
    }
    assert(all.take(n) =~= all);
    Ok(r)
}

/// The path, where there is one.
pub open spec fn if_some(p: Option<FilePath>) -> Seq<Seq<char>> {
    match p {
        Some(path) => seq![path@],
        None => Seq::empty(),
    }
}

/// The files of a project that a run rewrites.
pub open spec fn state_files(s: ProjectState) -> Seq<Seq<char>> {
    texts(s.session_files@) + if_some(s.sessions_index) + if_some(s.settings_json) + if_some(
        s.mcp_json,
    )
}

pub open spec fn sub_files(subs: Seq<(ProjectState, FilePath)>) -> Seq<Seq<char>>
    decreases subs.len(),
{
    if subs.len() == 0 {
        Seq::empty()
    } else {
        sub_files(subs.drop_last()) + state_files(subs.last().0)
    }
}

/// The files of the units that have work left, with those of the projects
/// below them.
pub open spec fn unit_files(units: Seq<Unit>) -> Seq<Seq<char>>
    decreases units.len(),
{
    if units.len() == 0 {
        Seq::empty()
    } else if units.last().nothing_to_do {
        unit_files(units.drop_last())
    } else {
        unit_files(units.drop_last()) + (state_files(units.last().state) + sub_files(
            units.last().subprojects@,
        ))
    }
}

/// Every file that the run rewrites.
pub open spec fn run_files(m: Migration) -> Seq<Seq<char>> {
    unit_files(m.units@) + if_some(m.history_jsonl) + if_some(m.claude_json)
}

/// Those of the files that cannot be read as text.
pub open spec fn unreadable(v: FsView, files: Seq<Seq<char>>) -> Seq<Seq<char>> {
    files.filter(|f: Seq<char>| v.text(components(f)) is None)
}

/// Whether the unit's project directory is there to be moved.
pub open spec fn moves_directory(v: FsView, u: Unit) -> bool {
    !u.nothing_to_do && u.source.key() != u.target.key() && v.dirs.contains(u.source.key())
}

/// Whether the project directories of the first `n` units can be moved.
pub open spec fn directories_movable(v: FsView, units: Seq<Unit>, n: int) -> bool {
    forall|i: int|
        0 <= i < n && moves_directory(v, #[trigger] units[i]) ==> renamable(
            v,
            units[i].source.key(),
            units[i].target.key(),
        )
}

/// Whether nothing that can be seen beforehand stands in the way of the run:
/// every file can be read, and every directory moved.
pub open spec fn preflight_ok(v: FsView, m: Migration) -> bool {
    &&& unreadable(v, run_files(m)).len() == 0
    &&& m.session_only || directories_movable(v, m.units@, m.units@.len() as int)
}

/// `e` reports what stands in the way of the run.
pub open spec fn preflight_error(e: Error, v: FsView, m: Migration) -> bool {
    if unreadable(v, run_files(m)).len() > 0 {
        e matches Error::Unreadable(paths) && texts(paths@) == unreadable(v, run_files(m))
    } else {
        exists|i: int|
            0 <= i < m.units@.len() && directories_movable(v, m.units@, i) && moves_directory(
                v,
                #[trigger] m.units@[i],
            ) && !renamable(v, m.units@[i].source.key(), m.units@[i].target.key()) && (
            e matches Error::Context(what, cause) && what@ == "cannot move "@ + m.units@[i].source@
                + "; nothing was changed"@ && rename_error(
                *cause,
                v,
                m.units@[i].source,
                m.units@[i].target,
            ))
    }
}

fn push_some(out: &mut Vec<FilePath>, p: &Option<FilePath>)
    ensures
        texts(final(out)@) == texts(old(out)@) + if_some(*p),
{
    if let Some(path) = p {
        out.push(path.clone());
    }
    assert(texts(out@) =~= texts(old(out)@) + if_some(*p));
}

fn push_state_files(out: &mut Vec<FilePath>, s: &ProjectState)
    ensures
        texts(final(out)@) == texts(old(out)@) + state_files(*s),
{
    let ghost start = texts(out@);
    let mut more = copy_paths(&s.session_files);
    let ghost sessions = more@;
    let ghost before = out@;
    out.append(&mut more);
    assert(texts(out@) =~= texts(before) + texts(sessions));
    push_some(out, &s.sessions_index);
    push_some(out, &s.settings_json);
    push_some(out, &s.mcp_json);
    assert(texts(out@) =~= start + state_files(*s));
}

fn push_unit_files(out: &mut Vec<FilePath>, u: &Unit)
    ensures
        texts(final(out)@) == texts(old(out)@) + (state_files(u.state) + sub_files(
            u.subprojects@,
        )),
{
    let ghost start = texts(out@);
    push_state_files(out, &u.state);
    let ghost subs = u.subprojects@;
    let mut i: usize = 0;
    assert(subs.take(0) =~= Seq::empty());
    assert(texts(out@) =~= start + state_files(u.state) + sub_files(subs.take(0)));
    while i < u.subprojects.len()
        invariant
            subs == u.subprojects@,
            i <= subs.len(),
            texts(out@) == start + state_files(u.state) + sub_files(subs.take(i as int)),
        decreases subs.len() - i,
    {
        push_state_files(out, &u.subprojects[i].0);
        i = i + 1;
        proof {
            assert(subs.take(i as int).drop_last() =~= subs.take(i - 1));
            assert(subs.take(i as int).last() == subs[i - 1]);
            assert(texts(out@) =~= start + state_files(u.state) + sub_files(subs.take(i as int)));
        }
    }
    assert(subs.take(i as int) =~= subs);
    assert(texts(out@) =~= start + (state_files(u.state) + sub_files(subs)));
}

/// The files that cannot be read as text.
fn find_unreadable<F: Fs>(fs: &F, files: &Vec<FilePath>) -> (r: Vec<FilePath>)
    ensures
        texts(r@) == unreadable(fs.view(), texts(files@)),
{
    let ghost v = fs.view();
    let ghost f = |f: Seq<char>| v.text(components(f)) is None;
    let ghost all = texts(files@);
    let mut r: Vec<FilePath> = Vec::new();
    let mut i: usize = 0;
    proof {
        assert(all.take(0) =~= Seq::empty());
        reveal(Seq::filter);
        assert(texts(r@) =~= all.take(0).filter(f));
    }
    while i < files.len()
        invariant
            v == fs.view(),
            f == (|f: Seq<char>| v.text(components(f)) is None),
            all == texts(files@),
            all.len() == files@.len(),
            i <= files@.len(),
            texts(r@) == all.take(i as int).filter(f),
        decreases files@.len() - i,
    {
        let ghost before = r@;
        let bad = fs.read_to_string(&files[i]).is_err();
        if bad {
            r.push(files[i].clone());
        }
        i = i + 1;
        proof {
            reveal(Seq::filter);
            assert(all.take(i as int).drop_last() =~= all.take(i - 1));
            assert(all.take(i as int).last() == files@[i - 1]@);
            if bad {
                assert(texts(before.push(files@[i - 1])) =~= texts(before).push(files@[i - 1]@));
            }
            assert(texts(r@) =~= all.take(i as int).filter(f));
        }
    }
    assert(all.take(i as int) =~= all);
    r
}

impl Migration {
    /// Reads every file that the run will rewrite, and looks at every directory
    /// that it will move, before the first write. Failing halfway would leave
    /// some references moved and others not.
    pub fn preflight<F: Fs>(&self, fs: &F) -> (r: Result<(), Error>)
        ensures
            match r {
                Ok(_) => preflight_ok(fs.view(), *self),
                Err(e) => !preflight_ok(fs.view(), *self) && preflight_error(e, fs.view(), *self),
            },
    {
        let ghost v = fs.view();
        let ghost units = self.units@;
        let mut files: Vec<FilePath> = Vec::new();
        let mut i: usize = 0;
        assert(units.take(0) =~= Seq::empty());
        assert(texts(files@) =~= unit_files(units.take(0)));
        while i < self.units.len()
            invariant
                units == self.units@,
                i <= units.len(),
                texts(files@) == unit_files(units.take(i as int)),
            decreases units.len() - i,
        {
            if !self.units[i].nothing_to_do {
                push_unit_files(&mut files, &self.units[i]);
            }
            i = i + 1;
            proof {
                assert(units.take(i as int).drop_last() =~= units.take(i - 1));
                assert(units.take(i as int).last() == units[i - 1]);
            }
        }
        assert(units.take(i as int) =~= units);
        push_some(&mut files, &self.history_jsonl);
        push_some(&mut files, &self.claude_json);
        let bad = find_unreadable(fs, &files);
        assert(texts(bad@).len() == bad@.len());
        if bad.len() > 0 {
            return Err(Error::Unreadable(bad));
        }
        if self.session_only {
            return Ok(());
        }
        i = 0;
        while i < self.units.len()
            invariant
                v == fs.view(),
                units == self.units@,
                i <= units.len(),
                !self.session_only,
                unreadable(v, run_files(*self)).len() == 0,
                directories_movable(v, units, i as int),
            decreases units.len() - i,
        {
            let unit = &self.units[i];
            if !unit.nothing_to_do && !unit.source.same(&unit.target) && fs.is_dir(&unit.source) {
                if let Err(e) = can_rename(fs, &unit.source, &unit.target) {
                    let mut what = "cannot move ".to_owned();
                    what.append(unit.source.as_str());
                    what.append("; nothing was changed");
                    assert(moves_directory(v, self.units@[i as int]));
                    return Err(Error::Context(what, Box::new(e)));
                }
            }
            i = i + 1;
        }
        Ok(())
    }
}

/// The candidates are what is found at the paths that have one.
pub open spec fn are_candidates(
    c: Seq<LinkCandidate>,
    v: FsView,
    paths: Seq<Seq<char>>,
    subs: Pairs,
) -> bool {
    let links = paths.filter(|p: Seq<char>| is_candidate(v, p, subs));
    &&& c.len() == links.len()
    &&& forall|i: int| 0 <= i < c.len() ==> is_candidate_for(#[trigger] c[i], v, links[i], subs)
}

/// The references in the files, one file after the other.
pub open spec fn all_references(v: FsView, paths: Seq<Seq<char>>, subs: Pairs) -> Seq<
    (Seq<char>, Finding),
>
    decreases paths.len(),
{
    if paths.len() == 0 {
        Seq::empty()
    } else {
        all_references(v, paths.drop_last(), subs) + references(
            v,
            paths.last(),
            subs,
        ).map_values(|f: Finding| (paths.last(), f))
    }
}

/// What the references say, each with its file.
pub open spec fn reference_views(r: Seq<TextReference>) -> Seq<(Seq<char>, Finding)> {
    r.map_values(|t: TextReference| (t.file@, finding(t)))
}

/// The paths that a run with links searches.
pub open spec fn searched(v: FsView, m: Migration) -> Seq<Seq<char>> {
    if m.relink {
        walked(v, roots(v, m.claude_json, texts(m.scan_root@), m.claude_home@.local_dir))
    } else {
        Seq::empty()
    }
}

/// Whether the paths to search for links can be told.
pub open spec fn searchable(v: FsView, m: Migration) -> bool {
    m.relink ==> !list_unreadable(v, m.claude_json)
}

impl Migration {
    /// Searches for links and for texts that point into the moving projects.
    /// Both come from one walk, and before anything is moved: afterwards a link
    /// that the move broke looks like one that was broken before.
    pub fn scan_relink_candidates<F: Fs>(&self, fs: &F) -> (r: Result<
        (Vec<LinkCandidate>, Vec<TextReference>),
        Error,
    >)
        ensures
            match r {
                Ok(found) => {
                    &&& searchable(fs.view(), *self)
                    &&& are_candidates(found.0@, fs.view(), searched(fs.view(), *self), self.subs@)
                    &&& reference_views(found.1@) == all_references(
                        fs.view(),
                        searched(fs.view(), *self),
                        self.subs@,
                    )
                },
                Err(e) => !searchable(fs.view(), *self) && is_list_error(
                    e,
                    fs.view(),
                    self.claude_json,
                ),
            },
    {
        let ghost v = fs.view();
        let ghost subs = self.subs@;
        let ghost f = |p: Seq<char>| is_candidate(v, p, subs);
        let mut candidates: Vec<LinkCandidate> = Vec::new();
        let mut texts_found: Vec<TextReference> = Vec::new();
        proof {
            reveal(Seq::filter);
            assert(Seq::<Seq<char>>::empty().filter(f) =~= Seq::empty());
            assert(reference_views(texts_found@) =~= Seq::empty());
        }
        if !self.relink {
            return Ok((candidates, texts_found));
        }
        let found_roots = match scan_roots(
            fs,
            &self.claude_json,
            &self.scan_root,
            self.claude_home.local_dir.as_str(),
        ) {
            Ok(found_roots) => found_roots,
            Err(e) => {
                return Err(e);
            },
        };
        let paths = walk_scan_roots(fs, &found_roots);
        let ghost all = texts(paths@);
        let mut i: usize = 0;
        assert(all.take(0) =~= Seq::empty());
        while i < paths.len()
            invariant
                v == fs.view(),
                subs == self.subs@,
                f == (|p: Seq<char>| is_candidate(v, p, subs)),
                all == texts(paths@),
                all.len() == paths@.len(),
                i <= paths@.len(),
                are_candidates(candidates@, v, all.take(i as int), subs),
                reference_views(texts_found@) == all_references(v, all.take(i as int), subs),
            decreases paths@.len() - i,
        {
            let path = &paths[i];
            let ghost had = candidates@;
            let ghost before = all.take(i as int);
            let ghost now = all.take(i + 1);
            proof {
                reveal(Seq::filter);
                assert(now.drop_last() =~= before);
                assert(now.last() == path@);
            }
            if let Some(c) = relink_candidate(fs, path, &self.subs) {
                candidates.push(c);
                assert(now.filter(f) == before.filter(f).push(path@));
                assert forall|x: int| 0 <= x < candidates@.len() implies is_candidate_for(
                    #[trigger] candidates@[x],
                    v,
                    now.filter(f)[x],
                    subs,
                ) by {
                    if x < had.len() {
                        assert(candidates@[x] == had[x]);
                    }
                }
            } else {
                assert(now.filter(f) == before.filter(f));
            }
            let mut refs = text_references(fs, path, &self.subs);
            let ghost more = refs@;
            let ghost old_refs = texts_found@;
            texts_found.append(&mut refs);
            proof {
                let fs_ = references(v, path@, subs);
                assert(more.map_values(|t: TextReference| finding(t)) == fs_);
                assert(more.len() == fs_.len());
                assert(reference_views(more) =~= fs_.map_values(|x: Finding| (now.last(), x))) by {
                    assert forall|x: int| 0 <= x < more.len() implies #[trigger] reference_views(
                        more,
                    )[x] == (now.last(), fs_[x]) by {
                        assert(more[x].file@ == path@);
                        assert(more.map_values(|t: TextReference| finding(t))[x] == finding(
                            more[x],
                        ));
                    }
                }
                assert(reference_views(texts_found@) =~= reference_views(old_refs)
                    + reference_views(more));
            }
            i = i + 1;
        }
        assert(all.take(i as int) =~= all);
        Ok((candidates, texts_found))
    }
}

} // verus!
