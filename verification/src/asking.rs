//! What is made of a command line, and what is said when nothing can be made of it.

use vstd::prelude::*;

use crate::batch::problem_lines;
use crate::batch::PlanError;
use crate::batch::RawMove;
use crate::cli::Cli;
use crate::cli::Commands;
use crate::command::are_options;
use crate::command::is_command;
use crate::command::last_name;
use crate::command::move_target;
use crate::command::named_paths;
use crate::command::source_path;
use crate::command::stuck_path;
use crate::command::target_path;
use crate::command::Command;
use crate::command::Resolved;
use crate::decimal::decimal;
use crate::encoder::EncoderError;
use crate::error::indented;
use crate::error::Error;
use crate::fs::texts;
use crate::fs::FsView;
use crate::json::parsed;
use crate::links::is_list_error;
use crate::path::components;
use crate::path::FilePath;

verus! {

/// Two paths make a move: from the first, with its links followed where it is there, to
/// where the second leads.
pub proof fn law_two_paths_make_a_move(
    r: Result<Command, Error>,
    cli: Cli,
    raw: Seq<RawMove>,
    resolved: Seq<Resolved>,
    v: FsView,
)
    requires
        is_command(r, cli, raw, resolved, v),
        cli.command is None && cli.batch is None,
        cli.paths@.len() == 2,
    ensures
        resolved[0].absolute is Ok && resolved[1].absolute is Ok ==> {
            &&& r matches Ok(Command::Move { source, target, opts })
            &&& resolved[0].canonical matches Ok(p) ==> source@ == p@
            &&& source_path(resolved[0]) == Some(source@)
            &&& target@ == move_target(
                v,
                source@,
                target_path(resolved[1])->0,
                cli.session_only,
            )
            &&& are_options(opts, cli)
        },
        resolved[1].absolute is Err ==> r is Err,
{
    assert(2 * 0 == 0 && 2 * 0 + 1 == 1);
    if resolved[0].absolute is Ok && resolved[1].absolute is Ok {
        assert(stuck_path(resolved, 0) is None);
    }
}

/// A single path, or none, is too few.
pub proof fn law_too_few_paths_are_refused(
    r: Result<Command, Error>,
    cli: Cli,
    raw: Seq<RawMove>,
    resolved: Seq<Resolved>,
    v: FsView,
)
    requires
        is_command(r, cli, raw, resolved, v),
        cli.command is None && cli.batch is None,
    ensures
        cli.paths@.len() == 0 ==> (r matches Err(e) && e is MissingArguments),
        cli.paths@.len() == 1 ==> (r matches Err(e) && e is MissingTarget),
        cli.paths@.len() > 1 ==> !(r matches Err(e) && (e is MissingArguments
            || e is MissingTarget)),
{
}

/// Of more paths the last must be a directory, and the others all move into it.
pub proof fn law_several_paths_need_a_directory(
    r: Result<Command, Error>,
    cli: Cli,
    raw: Seq<RawMove>,
    resolved: Seq<Resolved>,
    v: FsView,
)
    requires
        is_command(r, cli, raw, resolved, v),
        cli.command is None && cli.batch is None,
        cli.paths@.len() > 2,
        target_path(resolved[cli.paths@.len() - 1]) is Some,
    ensures
        ({
            let n = cli.paths@.len() as int;
            let dir = target_path(resolved[n - 1])->0;
            &&& !v.dirs.contains(components(dir)) ==> (r matches Err(Error::NotADirectory(p)) && p@
                == dir)
            &&& v.dirs.contains(components(dir)) && (forall|i: int|
                0 <= i < n - 1 ==> source_path(#[trigger] resolved[i]) is Some && last_name(
                    source_path(resolved[i])->0,
                ) is Some) ==> (r matches Ok(Command::Batch { moves, opts }) && moves@.len() == n
                - 1 && are_options(opts, cli))
            &&& (r matches Ok(Command::Batch { moves, opts }) ==> forall|i: int|
                0 <= i < n - 1 ==> source_path(resolved[i]) == Some((#[trigger] moves@[i]).source@))
        }),
{
}

/// Every line of a batch file becomes a move that knows its line, where all its paths
/// can be resolved.
pub proof fn law_batch_lines_become_moves(
    r: Result<Command, Error>,
    cli: Cli,
    raw: Seq<RawMove>,
    resolved: Seq<Resolved>,
    v: FsView,
    i: int,
)
    requires
        is_command(r, cli, raw, resolved, v),
        cli.command is None && cli.batch is Some,
        forall|x: int|
            0 <= x < 2 * raw.len() ==> (#[trigger] resolved[x]).absolute is Ok,
    ensures
        r matches Ok(Command::Batch { moves, opts }) && {
            &&& moves@.len() == raw.len()
            &&& are_options(opts, cli)
            &&& 0 <= i < raw.len() ==> moves@[i].line == Some(raw[i].line)
            &&& 0 <= i < raw.len() ==> source_path(resolved[2 * i]) == Some(moves@[i].source@)
            &&& 0 <= i < raw.len() ==> target_path(resolved[2 * i + 1]) == Some(moves@[i].target@)
        },
{
    assert forall|x: int| 0 <= x < raw.len() implies #[trigger] stuck_path(resolved, x) is None by {
        assert(resolved[2 * x].absolute is Ok);
        assert(resolved[2 * x + 1].absolute is Ok);
    }
}

/// A backup and a restore are asked for by one path, which has to be there.
pub proof fn law_backup_and_restore_take_a_path(
    r: Result<Command, Error>,
    cli: Cli,
    raw: Seq<RawMove>,
    resolved: Seq<Resolved>,
    v: FsView,
)
    requires
        is_command(r, cli, raw, resolved, v),
    ensures
        cli.command matches Some(Commands::Backup { path }) ==> (r matches Ok(c) ==> (
        c matches Command::Backup { path: p } && resolved[0].canonical is Ok && p@
            == resolved[0].canonical->Ok_0@)),
        cli.command matches Some(Commands::Restore { backup_file }) ==> (r matches Ok(c) ==> (
        c matches Command::Restore { backup_file: p } && resolved[0].canonical is Ok && p@
            == resolved[0].canonical->Ok_0@)),
        cli.command is Some ==> (r is Ok <==> resolved[0].canonical is Ok),
{
}

/// The paths that have to be resolved are those that the command line names.
pub proof fn law_named_paths_are_resolved(cli: Cli, raw: Seq<RawMove>)
    ensures
        cli.command matches Some(Commands::Backup { path }) ==> named_paths(cli, raw) == seq![
            path@,
        ],
        cli.command matches Some(Commands::Restore { backup_file }) ==> named_paths(cli, raw)
            == seq![backup_file@],
        cli.command is None && cli.batch is None ==> named_paths(cli, raw) == texts(cli.paths@),
        cli.command is None && cli.batch is Some ==> named_paths(cli, raw).len() == 2 * raw.len(),
{
    lemma_raw_paths_len(raw);
}

proof fn lemma_raw_paths_len(raw: Seq<RawMove>)
    ensures
        crate::command::raw_paths(raw).len() == 2 * raw.len(),
    decreases raw.len(),
{
    if raw.len() > 0 {
        lemma_raw_paths_len(raw.drop_last());
    }
}

/// What is said of a path that something is wrong with names the path.
pub proof fn law_messages_name_the_path(p: FilePath, q: FilePath)
    ensures
        Error::NoParent(p).text() == "no parent directory for "@ + p@,
        Error::MissingDirectory(p).text() == "target directory does not exist: "@ + p@,
        Error::CrossFilesystem(p, q).text() == "cross-filesystem move: "@ + p@ + " and "@ + q@
            + " are on different filesystems"@,
        Error::NotADirectory(p).text() == "target is not a directory: "@ + p@,
        Error::NamelessSource(p).text() == "source has no name: "@ + p@,
        Error::RelativeSource(p).text() == "source path must be absolute, got: "@ + p@,
        Error::RelativeTarget(p).text() == "target path must be absolute, got: "@ + p@,
        Error::MissingSource(p).text() == "source not found: "@ + p@
            + " has neither a directory nor global data"@,
        Error::OccupiedTarget(p).text() == "conflict: target already has session data: "@ + p@
            + " (use --force to overwrite)"@,
        Error::Inconsistent(p).text()
            == "verification failed: paths are not consistent after migration to "@ + p@,
        Error::NamelessBackup(p).text() == "backup path has no file name: "@ + p@,
        Error::BackupSuffix(p).text() == "backup path does not end in .tar.gz: "@ + p@,
        Error::SessionOutside(p).text() == "session file not under expected global dir: "@ + p@,
        Error::Outside(p, q).text() == "stripping prefix "@ + q@ + " from "@ + p@,
{
}

/// What is said of a batch file names the line, of files that cannot be read their
/// number, and of anything that failed on the way what was being done.
pub proof fn law_messages_tell_the_circumstances(
    line: usize,
    text: String,
    paths: Vec<FilePath>,
    cause: Error,
)
    ensures
        Error::BatchFields(line, text).text() == "line "@ + decimal(line as nat)
            + ": expected exactly two tab-separated paths, got: "@ + text@,
        Error::BatchEmptyField(line).text() == "line "@ + decimal(line as nat)
            + ": source and target must not be empty"@,
        Error::Unreadable(paths).text() == "cannot read "@ + decimal(paths@.len())
            + " file(s); nothing was changed:"@ + indented(paths@),
        Error::Context(text, Box::new(cause)).text() == text@ + ": "@ + cause.text(),
        Error::ManifestNotFirst(text).text() == text@ + " must be the first entry in the archive"@,
        Error::ManifestMissing(text).text() == "backup archive did not contain "@ + text@,
{
    reveal_with_fuel(Error::text, 2);
}

/// A rejected plan says how many problems it has, and lists them.
pub proof fn law_rejected_plan_counts_its_problems(p: PlanError)
    ensures
        p.problems().len() == 1 ==> p.text() == "plan rejected, "@ + decimal(1) + " problem:"@
            + ("\n  "@ + p.problems()[0]@),
        p.problems().len() != 1 ==> p.text() == "plan rejected, "@ + decimal(p.problems().len())
            + " problems:"@ + problem_lines(p.problems()),
        Error::Plan(p).text() == p.text(),
{
    if p.problems().len() == 1 {
        assert(p.problems() =~= seq![p.problems()[0]]);
        reveal_with_fuel(problem_lines, 2);
        assert(p.problems().drop_last() =~= Seq::empty());
        assert(problem_lines(p.problems()) =~= "\n  "@ + p.problems()[0]@);
    }
}

/// A registry that cannot be read is named.
pub proof fn law_unreadable_registry_is_named(e: Error, v: FsView, p: FilePath)
    requires
        is_list_error(e, v, Some(p)),
    ensures
        e matches Error::Context(what, cause) && what@ == "reading project list from "@ + p@,
        v.present.contains(p.key()),
        v.text(p.key()) is None || parsed(v.text(p.key())->0) is None,
{
}

/// A relative path has no encoded name, and is named itself.
pub proof fn law_relative_path_is_named(text: String)
    ensures
        EncoderError::RelativePath(text).text() == "path must be absolute, got: "@ + text@,
{
}

} // verus!
