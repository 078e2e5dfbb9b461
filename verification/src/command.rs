//! Commands: what a command line asks for, with its paths resolved, and how it
//! is done.

use vstd::prelude::*;
use vstd::string::*;

use crate::backup::backup_step;
use crate::backup::create_backup;
use crate::backup::note_passed_links;
use crate::backup::passed_links;
use crate::backup::restore_backup;
use crate::backup::restore_step;
use crate::backup::sources;
use crate::backup::BackupManifest;
use crate::batch::plan_fault;
use crate::batch::plan_problems;
use crate::batch::reported;
use crate::batch::BatchPlan;
use crate::batch::Move;
use crate::batch::PlanRules;
use crate::batch::RawMove;
use crate::cli::Cli;
use crate::cli::Commands;
use crate::error::Error;
use crate::error::FsError;
use crate::fs::texts;
use crate::fs::Fs;
use crate::fs::FsView;
use crate::home::Home;
use crate::home::HomeView;
use crate::links::keys_of;
use crate::links::path_text;
use crate::links::push_components;
use crate::migration::all_fresh;
use crate::migration::is_plain_report;
use crate::migration::plain_report;
use crate::migration::ran;
use crate::migration::MigrationReport;
use crate::path::components;
use crate::path::dot;
use crate::path::dot_dot;
use crate::path::has_parent;
use crate::path::is_name;
use crate::path::join_text;
use crate::path::FilePath;
use crate::path::Key;
use crate::plan::all_absolute;
use crate::plan::are_units;
use crate::plan::is_set_up;
use crate::plan::Migration;
use crate::scanner::describes;
use crate::scanner::fault_of;
use crate::scanner::has_global;
use crate::scanner::reports;
use crate::scanner::scan;
use crate::scanner::ProjectState;
use crate::unit::is_absolute;
use crate::unit::unit_error;
use crate::unit::unit_possible;
use crate::unit::MigrateOpts;
use crate::unit::Unit;

verus! {

/// What is to be done.
pub enum Command {
    Move { source: FilePath, target: FilePath, opts: MigrateOpts },
    Batch { moves: Vec<Move>, opts: MigrateOpts },
    Backup { path: FilePath },
    Restore { backup_file: FilePath },
}

/// What the system makes of a path that was given: the path with all links
/// followed, where something is there, and the path made absolute.
pub struct Resolved {
    pub canonical: Result<FilePath, FsError>,
    pub absolute: Result<FilePath, FsError>,
}

/// One more component read: `.` says nothing, `..` goes back up, and at the top
/// does nothing.
pub open spec fn pop_step(stack: Key, c: Seq<char>) -> Key {
    if c == dot() {
        stack
    } else if c == dot_dot() {
        if has_parent(stack) {
            stack.drop_last()
        } else {
            stack
        }
    } else {
        stack.push(c)
    }
}

/// The components `k` without `.` and `..`.
pub open spec fn tidied(k: Key) -> Key
    decreases k.len(),
{
    if k.len() == 0 {
        Seq::empty()
    } else {
        pop_step(tidied(k.drop_last()), k.last())
    }
}

/// Takes `.` and `..` out of a path, without looking at the file system.
pub fn normalize_path(path: &FilePath) -> (r: FilePath)
    ensures
        r@ == path_text(tidied(path.key())),
{
    let parts = path.components();
    let mut stack: Vec<Vec<char>> = Vec::new();
    let ghost k = path.key();
    let mut i: usize = 0;
    assert(k.take(0) =~= Seq::empty());
    assert(keys_of(stack@) =~= tidied(k.take(0)));
    while i < parts.len()
        invariant
            k == path.key(),
            parts@.len() == k.len(),
            forall|x: int| 0 <= x < parts@.len() ==> (#[trigger] parts@[x])@ == k[x],
            i <= parts@.len(),
            keys_of(stack@) == tidied(k.take(i as int)),
        decreases parts@.len() - i,
    {
        let c = &parts[i];
        let ghost before = keys_of(stack@);
        if crate::links::is_text(c, '.', 1) {
        } else if crate::links::is_text(c, '.', 2) {
            let n: usize = stack.len();
            if n > 0 {
                assert(before.last() == stack@[n - 1]@);
                if !crate::links::is_text(&stack[n - 1], '/', 1) {
                    let top = stack.pop();
                    assert(keys_of(stack@) =~= before.drop_last());
                }
            }
        } else {
            let copy = crate::path::copy_range(c, 0, c.len());
            assert(copy@ =~= c@);
            stack.push(copy);
            assert(keys_of(stack@) =~= before.push(c@));
        }
        i = i + 1;
        proof {
            assert(k.take(i as int).drop_last() =~= k.take(i - 1));
            assert(k.take(i as int).last() == k[i - 1]);
            assert(keys_of(stack@) == pop_step(before, c@));
        }
    }
    assert(k.take(i as int) =~= k);
    let r = push_components(FilePath::new(""), &stack, 0);
    proof {
        reveal_strlit("");
        assert(""@ =~= Seq::empty());
        crate::links::lemma_pushed_empty(keys_of(stack@));
        assert(keys_of(stack@).skip(0) =~= keys_of(stack@));
    }
    r
}

/// A source: the path with its links followed, or by the text alone when
/// nothing is there any more, as on a run that is made again.
pub open spec fn source_path(r: Resolved) -> Option<Seq<char>> {
    match r.canonical {
        Ok(p) => Some(p@),
        Err(_) => target_path(r),
    }
}

/// A target: the path made absolute, by the text alone.
pub open spec fn target_path(r: Resolved) -> Option<Seq<char>> {
    match r.absolute {
        Ok(p) => Some(path_text(tidied(p.key()))),
        Err(_) => None,
    }
}

/// `e` says why the path can be made absolute in no way.
pub open spec fn says_why(e: Error, r: Resolved) -> bool {
    r.absolute matches Err(cause) && e is Fs && e->Fs_0@ == cause@
}

/// `e` says why the path cannot be followed.
pub open spec fn says_why_gone(e: Error, r: Resolved) -> bool {
    r.canonical matches Err(cause) && e is Fs && e->Fs_0@ == cause@
}

fn copy_error(e: &FsError) -> (r: Error)
    ensures
        r is Fs,
        r->Fs_0@ == e@,
{
    Error::Fs(FsError::new(e.message()))
}

fn resolve_target(r: &Resolved) -> (p: Result<FilePath, Error>)
    ensures
        match p {
            Ok(path) => target_path(*r) == Some(path@),
            Err(e) => target_path(*r) is None && says_why(e, *r),
        },
{
    match &r.absolute {
        Ok(path) => Ok(normalize_path(path)),
        Err(e) => Err(copy_error(e)),
    }
}

fn resolve_source(r: &Resolved) -> (p: Result<FilePath, Error>)
    ensures
        match p {
            Ok(path) => source_path(*r) == Some(path@),
            Err(e) => source_path(*r) is None && says_why(e, *r),
        },
{
    match &r.canonical {
        Ok(path) => Ok(path.clone()),
        Err(_) => resolve_target(r),
    }
}

/// The paths that a command line names, in the order in which they have to be
/// resolved.
pub open spec fn named_paths(cli: Cli, raw: Seq<RawMove>) -> Seq<Seq<char>> {
    match cli.command {
        Some(Commands::Backup { path }) => seq![path@],
        Some(Commands::Restore { backup_file }) => seq![backup_file@],
        None => if cli.batch is Some {
            raw_paths(raw)
        } else {
            texts(cli.paths@)
        },
    }
}

/// The source and the target of each line.
pub open spec fn raw_paths(raw: Seq<RawMove>) -> Seq<Seq<char>>
    decreases raw.len(),
{
    if raw.len() == 0 {
        Seq::empty()
    } else {
        raw_paths(raw.drop_last()).push(raw.last().source@).push(raw.last().target@)
    }
}

/// The paths to resolve for a command line. `raw` are the lines of the batch
/// file, where one was given.
pub fn paths_to_resolve(cli: &Cli, raw: &Vec<RawMove>) -> (r: Vec<FilePath>)
    ensures
        texts(r@) == named_paths(*cli, raw@),
{
    let mut r: Vec<FilePath> = Vec::new();
    match &cli.command {
        Some(Commands::Backup { path }) => {
            r.push(path.clone());
            assert(texts(r@) =~= seq![path@]);
            return r;
        },
        Some(Commands::Restore { backup_file }) => {
            r.push(backup_file.clone());
            assert(texts(r@) =~= seq![backup_file@]);
            return r;
        },
        None => {},
    }
    let mut i: usize = 0;
    if cli.batch.is_some() {
        assert(raw@.take(0) =~= Seq::empty());
        assert(texts(r@) =~= raw_paths(raw@.take(0)));
        while i < raw.len()
            invariant
                i <= raw@.len(),
                texts(r@) == raw_paths(raw@.take(i as int)),
            decreases raw@.len() - i,
        {
            let ghost before = r@;
            r.push(FilePath::new(raw[i].source.as_str()));
            r.push(FilePath::new(raw[i].target.as_str()));
            i = i + 1;
            proof {
                assert(raw@.take(i as int).drop_last() =~= raw@.take(i - 1));
                assert(raw@.take(i as int).last() == raw@[i - 1]);
                assert(texts(r@) =~= texts(before).push(raw@[i - 1].source@).push(
                    raw@[i - 1].target@,
                ));
            }
        }
        assert(raw@.take(i as int) =~= raw@);
        return r;
    }
    while i < cli.paths.len()
        invariant
            i <= cli.paths@.len(),
            r@.len() == i,
            forall|x: int| 0 <= x < i ==> (#[trigger] r@[x])@ == cli.paths@[x]@,
        decreases cli.paths@.len() - i,
    {
        r.push(cli.paths[i].clone());
        i = i + 1;
    }
    assert(texts(r@) =~= texts(cli.paths@));
    r
}

/// The options that a command line gives.
pub open spec fn are_options(o: MigrateOpts, cli: Cli) -> bool {
    &&& o.dry_run == cli.dry_run
    &&& o.force == cli.force
    &&& o.no_backup == cli.no_backup
    &&& o.session_only == cli.session_only
    &&& o.relink == cli.relink
    &&& texts(o.scan_root@) == texts(cli.scan_root@)
}

/// The last component of a path, where it is a name.
pub open spec fn last_name(p: Seq<char>) -> Option<Seq<char>> {
    let k = components(p);
    if k.len() > 0 && is_name(k.last()) {
        Some(k.last())
    } else {
        None
    }
}

/// Whether the source is moved into the target instead of to it, as `mv` does:
/// the target is a directory, and the source is there or has been moved there
/// before.
pub open spec fn goes_into(v: FsView, source: Seq<char>, target: Seq<char>) -> bool {
    &&& v.dirs.contains(components(target))
    &&& components(target) != components(source)
    &&& last_name(source) is Some
    &&& v.dirs.contains(components(source)) || v.present.contains(
        components(join_text(target, last_name(source)->0)),
    )
}

/// Where a single source ends up. In a session-only run the target is taken as
/// it is.
pub open spec fn move_target(
    v: FsView,
    source: Seq<char>,
    target: Seq<char>,
    session_only: bool,
) -> Seq<char> {
    if !session_only && goes_into(v, source, target) {
        join_text(target, last_name(source)->0)
    } else {
        target
    }
}

/// The moves of a batch file.
pub open spec fn are_batch_moves(
    moves: Seq<Move>,
    raw: Seq<RawMove>,
    resolved: Seq<Resolved>,
) -> bool {
    &&& moves.len() <= raw.len()
    &&& forall|i: int|
        #![trigger moves[i]]
        0 <= i < moves.len() ==> source_path(resolved[2 * i]) == Some(moves[i].source@)
            && target_path(resolved[2 * i + 1]) == Some(moves[i].target@) && moves[i].line == Some(
            raw[i].line,
        )
}

/// The moves of several sources into the directory `dir`.
pub open spec fn are_moves_into(
    moves: Seq<Move>,
    resolved: Seq<Resolved>,
    n: int,
    dir: Seq<char>,
) -> bool {
    &&& moves.len() <= n
    &&& forall|i: int|
        #![trigger moves[i]]
        0 <= i < moves.len() ==> source_path(resolved[i]) == Some(moves[i].source@) && last_name(
            moves[i].source@,
        ) is Some && moves[i].target@ == join_text(dir, last_name(moves[i].source@)->0)
            && moves[i].line is None
}

/// The path on line `i` of a batch file that cannot be resolved: its source, else its
/// target.
pub open spec fn stuck_path(resolved: Seq<Resolved>, i: int) -> Option<Resolved> {
    if source_path(resolved[2 * i]) is None {
        Some(resolved[2 * i])
    } else if target_path(resolved[2 * i + 1]) is None {
        Some(resolved[2 * i + 1])
    } else {
        None
    }
}

/// Some line of a batch file cannot be resolved, and `e` reports the first of them.
pub open spec fn batch_stuck(e: Error, raw: Seq<RawMove>, resolved: Seq<Resolved>) -> bool {
    exists|i: int|
        0 <= i < raw.len() && (#[trigger] stuck_path(resolved, i) matches Some(p) && says_why(e, p))
            && forall|j: int| 0 <= j < i ==> #[trigger] stuck_path(resolved, j) is None
}

/// What is made of a command line.
pub open spec fn is_command(
    r: Result<Command, Error>,
    cli: Cli,
    raw: Seq<RawMove>,
    resolved: Seq<Resolved>,
    v: FsView,
) -> bool {
    match cli.command {
        Some(Commands::Backup { path }) => match resolved[0].canonical {
            Ok(p) => (r matches Ok(Command::Backup { path }) && path@ == p@),
            Err(_) => (r matches Err(e) && says_why_gone(e, resolved[0])),
        },
        Some(Commands::Restore { backup_file }) => match resolved[0].canonical {
            Ok(p) => (r matches Ok(Command::Restore { backup_file }) && backup_file@ == p@),
            Err(_) => (r matches Err(e) && says_why_gone(e, resolved[0])),
        },
        None => if cli.batch is Some {
            match r {
                Ok(Command::Batch { moves, opts }) => {
                    &&& are_options(opts, cli)
                    &&& moves@.len() == raw.len()
                    &&& are_batch_moves(moves@, raw, resolved)
                },
                Ok(_) => false,
                Err(e) => batch_stuck(e, raw, resolved),
            }
        } else {
            is_path_command(r, cli, resolved, v)
        },
    }
}

/// What is made of the paths on a command line.
pub open spec fn is_path_command(
    r: Result<Command, Error>,
    cli: Cli,
    resolved: Seq<Resolved>,
    v: FsView,
) -> bool {
    let n = cli.paths@.len() as int;
    if n == 0 {
        r matches Err(e) && e is MissingArguments
    } else if n == 1 {
        r matches Err(e) && e is MissingTarget
    } else if n == 2 {
        match r {
            Ok(Command::Move { source, target, opts }) => {
                &&& are_options(opts, cli)
                &&& source_path(resolved[0]) == Some(source@)
                &&& target_path(resolved[1]) is Some
                &&& target@ == move_target(
                    v,
                    source@,
                    target_path(resolved[1])->0,
                    cli.session_only,
                )
            },
            Ok(_) => false,
            Err(e) => (stuck_path(resolved, 0) matches Some(p) && says_why(e, p)),
        }
    } else {
        let dir = target_path(resolved[n - 1]);
        match r {
            Ok(Command::Batch { moves, opts }) => {
                &&& are_options(opts, cli)
                &&& dir is Some
                &&& v.dirs.contains(components(dir->0))
                &&& moves@.len() == n - 1
                &&& are_moves_into(moves@, resolved, n - 1, dir->0)
            },
            Ok(_) => false,
            Err(e) => if dir is None {
                says_why(e, resolved[n - 1])
            } else if !v.dirs.contains(components(dir->0)) {
                e matches Error::NotADirectory(p) && p@ == dir->0
            } else {
                exists|moves: Seq<Move>| #[trigger]
                    are_moves_into(moves, resolved, n - 1, dir->0) && moves.len() < n - 1 && {
                        let source = source_path(resolved[moves.len() as int]);
                        if source is None {
                            says_why(e, resolved[moves.len() as int])
                        } else {
                            last_name(source->0) is None && (e matches Error::NamelessSource(p) && p@
                                == source->0)
                        }
                    }
            },
        }
    }
}

fn read_options(cli: &Cli) -> (r: MigrateOpts)
    ensures
        are_options(r, *cli),
{
    let mut scan_root: Vec<FilePath> = Vec::new();
    let mut i: usize = 0;
    while i < cli.scan_root.len()
        invariant
            i <= cli.scan_root@.len(),
            scan_root@.len() == i,
            forall|x: int| 0 <= x < i ==> (#[trigger] scan_root@[x])@ == cli.scan_root@[x]@,
        decreases cli.scan_root@.len() - i,
    {
        scan_root.push(cli.scan_root[i].clone());
        i = i + 1;
    }
    assert(texts(scan_root@) =~= texts(cli.scan_root@));
    MigrateOpts {
        dry_run: cli.dry_run,
        force: cli.force,
        no_backup: cli.no_backup,
        session_only: cli.session_only,
        relink: cli.relink,
        scan_root,
    }
}

proof fn lemma_raw_paths(raw: Seq<RawMove>)
    ensures
        raw_paths(raw).len() == 2 * raw.len(),
    decreases raw.len(),
{
    if raw.len() > 0 {
        lemma_raw_paths(raw.drop_last());
    }
}

impl Command {
    /// Makes a command of a command line. `raw` are the lines of its batch
    /// file, and `resolved` is what the system makes of the paths that
    /// `paths_to_resolve` gives for them.
    pub fn from_cli<F: Fs>(cli: &Cli, raw: &Vec<RawMove>, resolved: &Vec<Resolved>, fs: &F) -> (r:
        Result<Command, Error>)
        requires
            resolved@.len() == named_paths(*cli, raw@).len(),
        ensures
            is_command(r, *cli, raw@, resolved@, fs.view()),
    {
        match &cli.command {
            Some(Commands::Backup { path }) => {
                return match &resolved[0].canonical {
                    Ok(p) => Ok(Command::Backup { path: p.clone() }),
                    Err(e) => Err(copy_error(e)),
                };
            },
            Some(Commands::Restore { backup_file }) => {
                return match &resolved[0].canonical {
                    Ok(p) => Ok(Command::Restore { backup_file: p.clone() }),
                    Err(e) => Err(copy_error(e)),
                };
            },
            None => {},
        }
        let opts = read_options(cli);
        if cli.batch.is_some() {
            return match Command::batch_moves(raw, resolved) {
                Ok(moves) => Ok(Command::Batch { moves, opts }),
                Err(e) => Err(e),
            };
        }
        let n: usize = cli.paths.len();
        assert(resolved@.len() == n);
        if n == 0 {
            return Err(Error::MissingArguments);
        }
        if n == 1 {
            return Err(Error::MissingTarget);
        }
        if n == 2 {
            let source = match resolve_source(&resolved[0]) {
                Ok(source) => source,
                Err(e) => {
                    return Err(e);
                },
            };
            let mut target = match resolve_target(&resolved[1]) {
                Ok(target) => target,
                Err(e) => {
                    return Err(e);
                },
            };
            if !cli.session_only && fs.is_dir(&target) && !target.same(&source) {
                if let Some(name) = source.file_name() {
                    let inside = target.join(name.as_str());
                    if fs.is_dir(&source) || fs.path_exists(&inside) {
                        target = inside;
                    }
                }
            }
            return Ok(Command::Move { source, target, opts });
        }
        let dir = match resolve_target(&resolved[n - 1]) {
            Ok(dir) => dir,
            Err(e) => {
                return Err(e);
            },
        };
        if !fs.is_dir(&dir) {
            return Err(Error::NotADirectory(dir));
        }
        match Command::moves_into(resolved, n - 1, &dir) {
            Ok(moves) => Ok(Command::Batch { moves, opts }),
            Err(e) => Err(e),
        }
    }

    /// The moves of a batch file. A line states its target outright: the name
    /// of the source is not put behind it.
    fn batch_moves(raw: &Vec<RawMove>, resolved: &Vec<Resolved>) -> (r: Result<Vec<Move>, Error>)
        requires
            resolved@.len() == raw_paths(raw@).len(),
        ensures
            match r {
                Ok(moves) => moves@.len() == raw@.len() && are_batch_moves(
                    moves@,
                    raw@,
                    resolved@,
                ),
                Err(e) => batch_stuck(e, raw@, resolved@),
            },
    {
        let total: usize = resolved.len();
        proof {
            lemma_raw_paths(raw@);
        }
        let mut moves: Vec<Move> = Vec::new();
        let mut i: usize = 0;
        while i < raw.len()
            invariant
                total == resolved@.len(),
                total == 2 * raw@.len(),
                i <= raw@.len(),
                moves@.len() == i,
                are_batch_moves(moves@, raw@, resolved@),
                forall|j: int| 0 <= j < i ==> #[trigger] stuck_path(resolved@, j) is None,
            decreases raw@.len() - i,
        {
            let at: usize = i + i;
            assert(at == 2 * i);
            let source = match resolve_source(&resolved[at]) {
                Ok(source) => source,
                Err(e) => {
                    assert(stuck_path(resolved@, i as int) == Some(resolved@[2 * (i as int)]));
                    return Err(e);
                },
            };
            let target = match resolve_target(&resolved[at + 1]) {
                Ok(target) => target,
                Err(e) => {
                    assert(stuck_path(resolved@, i as int) == Some(resolved@[2 * (i as int) + 1]));
                    return Err(e);
                },
            };
            assert(stuck_path(resolved@, i as int) is None);
            moves.push(Move { source, target, line: Some(raw[i].line) });
            i = i + 1;
        }
        Ok(moves)
    }

    /// The moves of the first `n` sources into a directory.
    fn moves_into(resolved: &Vec<Resolved>, n: usize, dir: &FilePath) -> (r: Result<
        Vec<Move>,
        Error,
    >)
        requires
            n <= resolved@.len(),
        ensures
            match r {
                Ok(moves) => moves@.len() == n && are_moves_into(
                    moves@,
                    resolved@,
                    n as int,
                    dir@,
                ),
                Err(e) => exists|moves: Seq<Move>| #[trigger]
                    are_moves_into(moves, resolved@, n as int, dir@) && moves.len() < n && {
                        let source = source_path(resolved@[moves.len() as int]);
                        if source is None {
                            says_why(e, resolved@[moves.len() as int])
                        } else {
                            last_name(source->0) is None && (e matches Error::NamelessSource(p) && p@
                                == source->0)
                        }
                    },
            },
    {
        let mut moves: Vec<Move> = Vec::new();
        let mut i: usize = 0;
        while i < n
            invariant
                n <= resolved@.len(),
                i <= n,
                moves@.len() == i,
                are_moves_into(moves@, resolved@, n as int, dir@),
            decreases n - i,
        {
            let source = match resolve_source(&resolved[i]) {
                Ok(source) => source,
                Err(e) => {
                    assert(are_moves_into(moves@, resolved@, n as int, dir@));
                    return Err(e);
                },
            };
            let name = match source.file_name() {
                Some(name) => name,
                None => {
                    assert(are_moves_into(moves@, resolved@, n as int, dir@));
                    return Err(Error::NamelessSource(source));
                },
            };
            moves.push(Move { target: dir.join(name.as_str()), source, line: None });
            i = i + 1;
        }
        Ok(moves)
    }
}

/// `chrono::Local::now` tells the time by the clock and the time zone of the
/// machine, and `format` writes it as year, month and day, then hour, minute
/// and second. Nothing is stated of it: it is different each time.
#[verifier::external_body]
fn local_timestamp() -> (r: String) {
    chrono::Local::now().format("%Y%m%d-%H%M%S").to_string()
}

/// The rules of a plan that is made with the options.
pub open spec fn rules_of(o: MigrateOpts) -> PlanRules {
    PlanRules { force: o.force, session_only: o.session_only }
}

/// The moves of a plan that become the first units, with the states that the
/// plan's check found.
pub open spec fn are_plan_units(
    units: Seq<Unit>,
    v: FsView,
    moves: Seq<Move>,
    home: HomeView,
) -> bool {
    &&& units.len() <= moves.len()
    &&& forall|i: int|
        #![trigger units[i]]
        0 <= i < units.len() ==> {
            &&& is_absolute(moves[i].source)
            &&& is_absolute(moves[i].target)
            &&& units[i].is_fresh(moves[i].source, moves[i].target)
            &&& describes(units[i].state, v, moves[i].source@, home)
        }
}

/// Why the moves of a plan are not run.
pub open spec fn plan_refused(
    e: Error,
    v: FsView,
    moves: Seq<Move>,
    home: HomeView,
    o: MigrateOpts,
) -> bool {
    let fault = plan_fault(v, moves, home, rules_of(o), moves.len() as int);
    let problems = plan_problems(v, moves, home, rules_of(o));
    if fault is Some {
        reports(e, fault->0)
    } else if problems.len() > 0 {
        e matches Error::Plan(p) && p.problem_texts() == reported(problems)
    } else if moves.len() == 0 {
        e is NothingToMigrate
    } else {
        exists|i: int|
            0 <= i < moves.len() && !is_absolute((#[trigger] moves[i]).target) && e
                == Error::RelativeTarget(moves[i].target) && forall|x: int|
                0 <= x < i ==> is_absolute((#[trigger] moves[x]).target)
    }
}

/// Whether the moves of a plan are run.
pub open spec fn plan_accepted(
    v: FsView,
    moves: Seq<Move>,
    home: HomeView,
    o: MigrateOpts,
) -> bool {
    &&& plan_fault(v, moves, home, rules_of(o), moves.len() as int) is None
    &&& plan_problems(v, moves, home, rules_of(o)).len() == 0
    &&& moves.len() > 0
    &&& forall|i: int| 0 <= i < moves.len() ==> is_absolute((#[trigger] moves[i]).target)
}

/// What running a plan does to the file system, and what comes of it.
pub open spec fn batch_ran(
    a: FsView,
    b: FsView,
    moves: Seq<Move>,
    home: HomeView,
    o: MigrateOpts,
    timestamp: Seq<char>,
    r: Result<MigrationReport, Error>,
) -> bool {
    if plan_accepted(a, moves, home, o) {
        exists|m: Migration| #[trigger]
            is_set_up(m, m.units@, home, o, timestamp) && m.units@.len() == moves.len()
                && are_plan_units(m.units@, a, moves, home) && ran(m, a, b, r)
    } else {
        b == a && (r matches Err(e) && plan_refused(e, a, moves, home, o))
    }
}

/// What running a single move does to the file system, and what comes of it.
pub open spec fn move_ran(
    a: FsView,
    b: FsView,
    source: FilePath,
    target: FilePath,
    home: HomeView,
    o: MigrateOpts,
    timestamp: Seq<char>,
    r: Result<MigrationReport, Error>,
) -> bool {
    if unit_possible(a, source, target, home, o) {
        exists|m: Migration| #[trigger]
            is_set_up(m, m.units@, home, o, timestamp) && m.units@.len() == 1 && are_units(
                m.units@,
                a,
                seq![(source, target)],
                home,
                o,
            ) && ran(m, a, b, r)
    } else {
        b == a && (r matches Err(e) && unit_error(e, a, source, target, home, o))
    }
}

/// A backup was made for `state`.
pub open spec fn backup_made(
    a: FsView,
    b: FsView,
    path: FilePath,
    home: HomeView,
    timestamp: Seq<char>,
    state: ProjectState,
    made: Result<FilePath, Error>,
) -> bool {
    &&& describes(state, a, path@, home)
    &&& backup_step(
        a,
        b,
        sources(
            path@,
            home,
            state.global_project_dir->0@,
            state.local_claude_dir,
            state.mcp_json,
            state.claude_json,
            timestamp,
        ),
        made,
    )
}

/// What the command `backup` does, and what comes of it.
pub open spec fn backup_ran(
    a: FsView,
    b: FsView,
    path: FilePath,
    home: HomeView,
    timestamp: Seq<char>,
    r: Result<MigrationReport, Error>,
) -> bool {
    if fault_of(a, path@, home) is Some {
        b == a && (r matches Err(e) && reports(e, fault_of(a, path@, home)->0))
    } else if !has_global(a, path@, home) {
        b == a && (r matches Err(e) && e is NothingToBackUp)
    } else {
        exists|state: ProjectState, made: Result<FilePath, Error>| #[trigger]
            backup_made(a, b, path, home, timestamp, state, made) && match made {
                Ok(p) => (r matches Ok(report) && is_plain_report(
                    report,
                    "backup"@,
                    seq![p@],
                    passed_links(a, state.global_project_dir) + passed_links(
                        a,
                        state.local_claude_dir,
                    ),
                    false,
                    false,
                )),
                Err(e) => r == Err::<MigrationReport, Error>(e),
            }
    }
}

/// What the command `restore` does, and what comes of it.
pub open spec fn restore_ran(
    a: FsView,
    b: FsView,
    path: FilePath,
    manifest: Seq<char>,
    r: Result<MigrationReport, Error>,
) -> bool {
    exists|done: Result<BackupManifest, Error>| #[trigger]
        restore_step(a, b, path.key(), done, manifest) && match done {
            Ok(_) => (r matches Ok(report) && is_plain_report(
                report,
                "restore"@,
                seq![path@],
                Seq::empty(),
                false,
                false,
            )),
            Err(e) => r == Err::<MigrationReport, Error>(e),
        }
}

/// The options of a command that moves projects.
pub open spec fn move_options(c: Command) -> Option<MigrateOpts> {
    match c {
        Command::Move { opts, .. } => Some(opts),
        Command::Batch { opts, .. } => Some(opts),
        _ => None,
    }
}

/// The moves that a command asks for.
pub open spec fn asked_moves(c: Command) -> Seq<Move> {
    match c {
        Command::Move { source, target, .. } => seq![(Move { source, target, line: None })],
        Command::Batch { moves, .. } => moves@,
        _ => Seq::empty(),
    }
}

/// What a command does to the file system, and what comes of it.
pub open spec fn executed(
    c: Command,
    a: FsView,
    b: FsView,
    home: HomeView,
    timestamp: Seq<char>,
    r: Result<MigrationReport, Error>,
) -> bool {
    match c {
        Command::Move { source, target, opts } => if opts.session_only {
            batch_ran(
                a,
                b,
                seq![(Move { source, target, line: None })],
                home,
                opts,
                timestamp,
                r,
            )
        } else {
            move_ran(a, b, source, target, home, opts, timestamp, r)
        },
        Command::Batch { moves, opts } => batch_ran(a, b, moves@, home, opts, timestamp, r),
        Command::Backup { path } => backup_ran(a, b, path, home, timestamp, r),
        Command::Restore { backup_file } => restore_ran(a, b, backup_file, home.manifest, r),
    }
}

/// Runs a plan, once it has been checked as a whole.
fn execute_batch<F: Fs>(
    fs: &mut F,
    moves: Vec<Move>,
    claude_home: &Home,
    opts: &MigrateOpts,
    timestamp: &str,
) -> (r: Result<MigrationReport, Error>)
    ensures
        batch_ran(
            old(fs).view(),
            final(fs).view(),
            moves@,
            claude_home@,
            *opts,
            timestamp@,
            r,
        ),
{
    let ghost a = fs.view();
    let ghost given = moves@;
    let ghost home = claude_home@;
    let rules = PlanRules { force: opts.force, session_only: opts.session_only };
    let plan = BatchPlan { moves };
    let states = match plan.validate(fs, claude_home, &rules) {
        Ok(states) => states,
        Err(e) => {
            return Err(e);
        },
    };
    let ghost found = states@;
    let mut rest = states;
    let mut units: Vec<Unit> = Vec::new();
    let mut i: usize = 0;
    proof {
        assert(found.skip(0) =~= found);
        lemma_sources_absolute(a, given, home, rules, given.len() as int);
    }
    while i < plan.moves.len()
        invariant
            a == fs.view(),
            a == old(fs).view(),
            given == plan.moves@,
            given == moves@,
            home == claude_home@,
            rules == rules_of(*opts),
            plan_fault(a, given, home, rules, given.len() as int) is None,
            plan_problems(a, given, home, rules).len() == 0,
            forall|x: int| 0 <= x < given.len() ==> is_absolute((#[trigger] given[x]).source),
            found.len() == given.len(),
            forall|x: int|
                0 <= x < given.len() ==> describes(
                    #[trigger] found[x],
                    a,
                    given[x].source@,
                    home,
                ),
            i <= given.len(),
            rest@ == found.skip(i as int),
            units@.len() == i,
            are_plan_units(units@, a, given, home),
        decreases given.len() - i,
    {
        let state = rest.remove(0);
        assert(state == found[i as int]);
        assert(found.skip(i as int).remove(0) =~= found.skip(i + 1));
        let mv = &plan.moves[i];
        match Unit::from_state(&mv.source, &mv.target, state) {
            Ok(unit) => {
                units.push(unit);
            },
            Err(e) => {
                assert(is_absolute(given[i as int].source));
                assert(!is_absolute(given[i as int].target));
                assert forall|x: int| 0 <= x < i implies is_absolute(
                    (#[trigger] given[x]).target,
                ) by {
                    assert(units@[x].is_fresh(given[x].source, given[x].target));
                }
                return Err(e);
            },
        }
        i = i + 1;
    }
    proof {
        assert forall|x: int| 0 <= x < given.len() implies is_absolute(
            (#[trigger] given[x]).target,
        ) by {
            assert(units@[x].is_fresh(given[x].source, given[x].target));
        }
        assert(all_absolute(units@)) by {
            assert forall|x: int| 0 <= x < units@.len() implies is_absolute(
                (#[trigger] units@[x]).source,
            ) && is_absolute(units@[x].target) by {
                assert(units@[x].is_fresh(given[x].source, given[x].target));
            }
        }
        assert(all_fresh(units@)) by {
            assert forall|x: int| 0 <= x < units@.len() implies (
            #[trigger] units@[x]).subprojects@.len() == 0 && !units@[x].nothing_to_do by {
                assert(units@[x].is_fresh(given[x].source, given[x].target));
            }
        }
    }
    let m = match Migration::from_units(units, claude_home, opts, timestamp) {
        Ok(m) => m,
        Err(e) => {
            return Err(e);
        },
    };
    assert(is_set_up(m, m.units@, home, *opts, timestamp@));
    m.run(fs)
}

/// The sources of a plan that can be looked at are absolute.
proof fn lemma_sources_absolute(
    v: FsView,
    moves: Seq<Move>,
    home: HomeView,
    rules: PlanRules,
    n: int,
)
    requires
        0 <= n <= moves.len(),
        plan_fault(v, moves, home, rules, n) is None,
    ensures
        forall|i: int| 0 <= i < n ==> is_absolute((#[trigger] moves[i]).source),
    decreases n,
{
    if n > 0 {
        lemma_sources_absolute(v, moves, home, rules, n - 1);
        assert(fault_of(v, moves[n - 1].source@, home) is None);
    }
}

/// Runs a single move.
fn execute_move<F: Fs>(
    fs: &mut F,
    source: FilePath,
    target: FilePath,
    claude_home: &Home,
    opts: &MigrateOpts,
    timestamp: &str,
) -> (r: Result<MigrationReport, Error>)
    ensures
        move_ran(
            old(fs).view(),
            final(fs).view(),
            source,
            target,
            claude_home@,
            *opts,
            timestamp@,
            r,
        ),
{
    let ghost a = fs.view();
    let ghost pair = (source, target);
    let mut moves: Vec<(FilePath, FilePath)> = Vec::new();
    moves.push((source, target));
    assert(moves@ =~= seq![pair]);
    let m = match Migration::new(fs, &moves, claude_home, opts, timestamp) {
        Ok(m) => m,
        Err(e) => {
            proof {
                let units = choose|units: Seq<Unit>| #[trigger]
                    are_units(units, a, moves@, claude_home@, *opts) && units.len() < moves@.len()
                        && !unit_possible(
                        a,
                        moves@[units.len() as int].0,
                        moves@[units.len() as int].1,
                        claude_home@,
                        *opts,
                    ) && unit_error(
                        e,
                        a,
                        moves@[units.len() as int].0,
                        moves@[units.len() as int].1,
                        claude_home@,
                        *opts,
                    );
                assert(units.len() == 0);
            }
            return Err(e);
        },
    };
    proof {
        assert(m.units@[0].is_fresh(pair.0, pair.1));
        assert(all_fresh(m.units@)) by {
            assert forall|x: int| 0 <= x < m.units@.len() implies (
            #[trigger] m.units@[x]).subprojects@.len() == 0 && !m.units@[x].nothing_to_do by {
                assert(m.units@[x].is_fresh(moves@[x].0, moves@[x].1));
            }
        }
        assert(is_set_up(m, m.units@, claude_home@, *opts, timestamp@));
    }
    m.run(fs)
}

/// Backs up what refers to a project.
fn execute_backup<F: Fs>(
    fs: &mut F,
    path: &FilePath,
    claude_home: &Home,
    timestamp: &str,
) -> (r: Result<MigrationReport, Error>)
    ensures
        backup_ran(
            old(fs).view(),
            final(fs).view(),
            *path,
            claude_home@,
            timestamp@,
            r,
        ),
{
    let ghost a = fs.view();
    let state = match scan(fs, path, claude_home) {
        Ok(state) => state,
        Err(e) => {
            return Err(e);
        },
    };
    let dir = match &state.global_project_dir {
        Some(dir) => dir,
        None => {
            return Err(Error::NothingToBackUp);
        },
    };
    let mut skipped: Vec<FilePath> = Vec::new();
    assert(texts(skipped@) =~= Seq::empty());
    note_passed_links(fs, &state.global_project_dir, &mut skipped);
    note_passed_links(fs, &state.local_claude_dir, &mut skipped);
    proof {
        assert(texts(skipped@) =~= passed_links(a, state.global_project_dir) + passed_links(
            a,
            state.local_claude_dir,
        ));
    }
    let made = create_backup(
        fs,
        path,
        claude_home,
        dir,
        &state.local_claude_dir,
        &state.mcp_json,
        &state.claude_json,
        timestamp,
    );
    let ghost outcome = made;
    assert(backup_made(a, fs.view(), *path, claude_home@, timestamp@, state, outcome));
    match made {
        Ok(p) => {
            let mut paths: Vec<FilePath> = Vec::new();
            paths.push(p);
            assert(texts(paths@) =~= seq![p@]);
            Ok(plain_report("backup", paths, skipped, false, false))
        },
        Err(e) => Err(e),
    }
}

/// Brings back what a backup holds.
fn execute_restore<F: Fs>(fs: &mut F, backup_file: &FilePath, manifest: &str) -> (r: Result<
    MigrationReport,
    Error,
>)
    ensures
        restore_ran(old(fs).view(), final(fs).view(), *backup_file, manifest@, r),
{
    let ghost a = fs.view();
    let done = restore_backup(fs, backup_file, manifest);
    let ghost outcome = done;
    assert(restore_step(a, fs.view(), backup_file.key(), outcome, manifest@));
    match done {
        Ok(_) => {
            let mut paths: Vec<FilePath> = Vec::new();
            paths.push(backup_file.clone());
            assert(texts(paths@) =~= seq![backup_file@]);
            let skipped: Vec<FilePath> = Vec::new();
            assert(texts(skipped@) =~= Seq::empty());
            Ok(plain_report("restore", paths, skipped, false, false))
        },
        Err(e) => Err(e),
    }
}

impl Command {
    /// Does what the command says, at the given time.
    pub fn execute_at<F: Fs>(self, fs: &mut F, claude_home: &Home, timestamp: &str) -> (r:
        Result<MigrationReport, Error>)
        ensures
            executed(
                self,
                old(fs).view(),
                final(fs).view(),
                claude_home@,
                timestamp@,
                r,
            ),
    {
        match self {
            Command::Move { source, target, opts } => {
                if opts.session_only {
                    // A session-only run has conditions of its own, and they
                    // stand with the other rules of a plan.
                    let ghost single = Move { source, target, line: None };
                    let mut moves: Vec<Move> = Vec::new();
                    moves.push(Move { source, target, line: None });
                    assert(moves@ =~= seq![single]);
                    execute_batch(fs, moves, claude_home, &opts, timestamp)
                } else {
                    execute_move(fs, source, target, claude_home, &opts, timestamp)
                }
            },
            Command::Batch { moves, opts } => execute_batch(
                fs,
                moves,
                claude_home,
                &opts,
                timestamp,
            ),
            Command::Backup { path } => execute_backup(fs, &path, claude_home, timestamp),
            Command::Restore { backup_file } => execute_restore(
                fs,
                &backup_file,
                claude_home.manifest.as_str(),
            ),
        }
    }

    /// Does what the command says, now.
    pub fn execute<F: Fs>(self, fs: &mut F, claude_home: &Home) -> (r: Result<
        MigrationReport,
        Error,
    >)
        ensures
            exists|timestamp: Seq<char>| #[trigger]
                executed(
                    self,
                    old(fs).view(),
                    final(fs).view(),
                    claude_home@,
                    timestamp,
                    r,
                ),
    {
        let timestamp = local_timestamp();
        self.execute_at(fs, claude_home, timestamp.as_str())
    }
}

} // verus!
