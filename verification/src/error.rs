//! Everything that can go wrong, and how it is put into words.

use vstd::prelude::*;
use vstd::string::*;

use crate::batch::PlanError;
use crate::decimal::decimal;
use crate::decimal::push_decimal;
use crate::encoder::EncoderError;
use crate::path::FilePath;

verus! {

/// What a file system says when it refuses a request.
#[derive(Debug)]
pub struct FsError {
    message: String,
}

impl View for FsError {
    type V = Seq<char>;

    closed spec fn view(&self) -> Seq<char> {
        self.message@
    }
}

impl FsError {
    pub fn new(message: String) -> (r: Self)
        ensures
            r@ == message@,
    {
        FsError { message }
    }

    /// An error about a path: `what` followed by the path.
    pub fn about(what: &str, path: &FilePath) -> (r: Self)
        ensures
            r@ == what@ + path@,
    {
        let mut message = what.to_owned();
        message.append(path.as_str());
        FsError { message }
    }

    pub fn message(&self) -> (r: String)
        ensures
            r@ == self@,
    {
        self.message.clone()
    }
}

#[derive(Debug)]
pub enum Error {
    /// A path has no encoded form.
    Encoder(EncoderError),
    /// The file system refused.
    Fs(FsError),
    /// A text is not JSON, or a value cannot be written as JSON.
    Json(String),
    /// A plan was rejected.
    Plan(PlanError),
    /// A batch line does not hold two fields: the line's number and text.
    BatchFields(usize, String),
    /// A batch line leaves a field empty.
    BatchEmptyField(usize),
    /// A path has no parent directory.
    NoParent(FilePath),
    /// The directory to move into is not there.
    MissingDirectory(FilePath),
    /// The two paths are on different file systems.
    CrossFilesystem(FilePath, FilePath),
    /// No paths were given.
    MissingArguments,
    /// Only one path was given.
    MissingTarget,
    /// Several sources need a directory to go to.
    NotADirectory(FilePath),
    /// The source is a path without a name.
    NamelessSource(FilePath),
    /// The source is not absolute.
    RelativeSource(FilePath),
    /// The target is not absolute.
    RelativeTarget(FilePath),
    /// There is nothing at the source.
    MissingSource(FilePath),
    /// There is already data for the target.
    OccupiedTarget(FilePath),
    /// A run without moves.
    NothingToMigrate,
    /// Files that the run would rewrite cannot be read.
    Unreadable(Vec<FilePath>),
    /// A backup has a path without a name.
    NamelessBackup(FilePath),
    /// A backup's name does not end as it should.
    BackupSuffix(FilePath),
    /// A session file lies outside its directory.
    SessionOutside(FilePath),
    /// A path lies outside the directory it was found in.
    Outside(FilePath, FilePath),
    /// The sessions of the target are indexed by something that cannot hold
    /// entries.
    IndexShape(FilePath),
    /// A tree goes on further than any file system lets it.
    TooDeep(FilePath),
    /// References still name another path after the move.
    Inconsistent(FilePath),
    /// The project has no global data to back up.
    NothingToBackUp,
    /// An archive could not be written or read.
    Archive(String),
    /// An archive's entries start before the manifest of this name.
    ManifestNotFirst(String),
    /// An archive has no manifest of this name.
    ManifestMissing(String),
    /// An archive's manifest cannot be read: what was being done, and why it failed.
    ManifestUnreadable(String, String),
    /// Another error, and what was being done.
    Context(String, Box<Error>),
}

/// The texts of `paths`, each on a line of its own, indented.
pub open spec fn indented(paths: Seq<FilePath>) -> Seq<char>
    decreases paths.len(),
{
    if paths.len() == 0 {
        Seq::empty()
    } else {
        indented(paths.drop_last()) + ("\n  "@ + paths.last()@)
    }
}

fn push_indented(out: &mut String, paths: &Vec<FilePath>)
    ensures
        final(out)@ == old(out)@ + indented(paths@),
{
    let mut i: usize = 0;
    assert(out@ =~= old(out)@ + indented(paths@.take(0)));
    while i < paths.len()
        invariant
            i <= paths@.len(),
            out@ == old(out)@ + indented(paths@.take(i as int)),
        decreases paths@.len() - i,
    {
        out.append("\n  ");
        out.append(paths[i].as_str());
        i = i + 1;
        proof {
            assert(paths@.take(i as int).drop_last() =~= paths@.take(i - 1));
            assert(paths@.take(i as int).last() == paths@[i - 1]);
            assert(out@ =~= old(out)@ + indented(paths@.take(i as int)));
        }
    }
    assert(paths@.take(i as int) =~= paths@);
}

/// `what` followed by the text of `path`.
fn about(what: &str, path: &FilePath) -> (r: String)
    ensures
        r@ == what@ + path@,
{
    let mut r = what.to_owned();
    r.append(path.as_str());
    r
}

impl Error {
    /// The message, and behind it that of every error it was caused by.
    pub open spec fn text(&self) -> Seq<char>
        decreases self,
    {
        match self {
            Error::Encoder(e) => e.text(),
            Error::Fs(e) => e@,
            Error::Json(text) => text@,
            Error::Plan(e) => e.text(),
            Error::BatchFields(line, text) => "line "@ + decimal(*line as nat)
                + ": expected exactly two tab-separated paths, got: "@ + text@,
            Error::BatchEmptyField(line) => "line "@ + decimal(*line as nat)
                + ": source and target must not be empty"@,
            Error::NoParent(path) => "no parent directory for "@ + path@,
            Error::MissingDirectory(path) => "target directory does not exist: "@ + path@,
            Error::CrossFilesystem(from, to) => "cross-filesystem move: "@ + from@ + " and "@ + to@
                + " are on different filesystems"@,
            Error::MissingArguments =>
            "missing <SOURCE> and <TARGET> arguments\n\nUsage: ccmv <SOURCE>... <TARGET>\n       ccmv --batch <FILE>"@,
            Error::MissingTarget =>
            "missing <TARGET> argument\n\nUsage: ccmv <SOURCE>... <TARGET>\n       ccmv --batch <FILE>"@,
            Error::NotADirectory(path) => "target is not a directory: "@ + path@,
            Error::NamelessSource(path) => "source has no name: "@ + path@,
            Error::RelativeSource(path) => "source path must be absolute, got: "@ + path@,
            Error::RelativeTarget(path) => "target path must be absolute, got: "@ + path@,
            Error::MissingSource(path) => missing_source_text(path@),
            Error::OccupiedTarget(path) => occupied_target_text(path@),
            Error::NothingToMigrate => "nothing to migrate"@,
            Error::Unreadable(paths) => "cannot read "@ + decimal(paths@.len())
                + " file(s); nothing was changed:"@ + indented(paths@),
            Error::NamelessBackup(path) => "backup path has no file name: "@ + path@,
            Error::BackupSuffix(path) => "backup path does not end in .tar.gz: "@ + path@,
            Error::SessionOutside(path) => "session file not under expected global dir: "@ + path@,
            Error::Outside(path, dir) => "stripping prefix "@ + dir@ + " from "@ + path@,
            Error::IndexShape(path) => "cannot hold session entries: "@ + path@,
            Error::TooDeep(path) => "too many levels of directories: "@ + path@,
            Error::Inconsistent(path) =>
            "verification failed: paths are not consistent after migration to "@ + path@,
            Error::NothingToBackUp => "no global project directory found; nothing to back up"@,
            Error::Archive(text) => text@,
            Error::ManifestNotFirst(name) => name@ + " must be the first entry in the archive"@,
            Error::ManifestMissing(name) => "backup archive did not contain "@ + name@,
            Error::ManifestUnreadable(what, text) => what@ + ": "@ + text@,
            Error::Context(what, cause) => what@ + ": "@ + cause.text(),
        }
    }

    /// The message for a reader, with that of every error it was caused by.
    pub fn message(&self) -> (r: String)
        ensures
            r@ == self.text(),
        decreases self,
    {
        match self {
            Error::Encoder(e) => e.message(),
            Error::Fs(e) => e.message(),
            Error::Json(text) => text.clone(),
            Error::Plan(e) => e.message(),
            Error::BatchFields(line, text) => {
                let mut r = "line ".to_owned();
                push_decimal(&mut r, *line);
                r.append(": expected exactly two tab-separated paths, got: ");
                r.append(text.as_str());
                r
            },
            Error::BatchEmptyField(line) => {
                let mut r = "line ".to_owned();
                push_decimal(&mut r, *line);
                r.append(": source and target must not be empty");
                r
            },
            Error::NoParent(path) => about("no parent directory for ", path),
            Error::MissingDirectory(path) => about("target directory does not exist: ", path),
            Error::CrossFilesystem(from, to) => {
                let mut r = about("cross-filesystem move: ", from);
                r.append(" and ");
                r.append(to.as_str());
                r.append(" are on different filesystems");
                r
            },
            Error::MissingArguments =>
            "missing <SOURCE> and <TARGET> arguments\n\nUsage: ccmv <SOURCE>... <TARGET>\n       ccmv --batch <FILE>".to_owned(),
            Error::MissingTarget =>
            "missing <TARGET> argument\n\nUsage: ccmv <SOURCE>... <TARGET>\n       ccmv --batch <FILE>".to_owned(),
            Error::NotADirectory(path) => about("target is not a directory: ", path),
            Error::NamelessSource(path) => about("source has no name: ", path),
            Error::RelativeSource(path) => about("source path must be absolute, got: ", path),
            Error::RelativeTarget(path) => about("target path must be absolute, got: ", path),
            Error::MissingSource(path) => missing_source_error(path),
            Error::OccupiedTarget(path) => occupied_target_error(path),
            Error::NothingToMigrate => "nothing to migrate".to_owned(),
            Error::Unreadable(paths) => {
                let mut r = "cannot read ".to_owned();
                push_decimal(&mut r, paths.len());
                r.append(" file(s); nothing was changed:");
                push_indented(&mut r, paths);
                r
            },
            Error::NamelessBackup(path) => about("backup path has no file name: ", path),
            Error::BackupSuffix(path) => about("backup path does not end in .tar.gz: ", path),
            Error::SessionOutside(path) => about(
                "session file not under expected global dir: ",
                path,
            ),
            Error::Outside(path, dir) => {
                let mut r = about("stripping prefix ", dir);
                r.append(" from ");
                r.append(path.as_str());
                r
            },
            Error::IndexShape(path) => about("cannot hold session entries: ", path),
            Error::TooDeep(path) => about("too many levels of directories: ", path),
            Error::Inconsistent(path) => about(
                "verification failed: paths are not consistent after migration to ",
                path,
            ),
            Error::NothingToBackUp =>
            "no global project directory found; nothing to back up".to_owned(),
            Error::Archive(text) => text.clone(),
            Error::ManifestNotFirst(name) => {
                let mut r = name.clone();
                r.append(" must be the first entry in the archive");
                r
            },
            Error::ManifestMissing(name) => {
                let mut r = "backup archive did not contain ".to_owned();
                r.append(name.as_str());
                r
            },
            Error::ManifestUnreadable(what, text) => {
                let mut r = what.clone();
                r.append(": ");
                r.append(text.as_str());
                r
            },
            Error::Context(what, cause) => {
                let mut r = what.clone();
                r.append(": ");
                let rest = cause.message();
                r.append(rest.as_str());
                r
            },
        }
    }
}

/// The message for a source without a directory and without data.
pub open spec fn missing_source_text(path: Seq<char>) -> Seq<char> {
    "source not found: "@ + path + " has neither a directory nor global data"@
}

pub fn missing_source_error(path: &FilePath) -> (r: String)
    ensures
        r@ == missing_source_text(path@),
{
    let mut r = about("source not found: ", path);
    r.append(" has neither a directory nor global data");
    r
}

/// The message for a target that already has data.
pub open spec fn occupied_target_text(path: Seq<char>) -> Seq<char> {
    "conflict: target already has session data: "@ + path + " (use --force to overwrite)"@
}

pub fn occupied_target_error(path: &FilePath) -> (r: String)
    ensures
        r@ == occupied_target_text(path@),
{
    let mut r = about("conflict: target already has session data: ", path);
    r.append(" (use --force to overwrite)");
    r
}

} // verus!
