//! The file system as the library sees it.

use vstd::prelude::*;
use vstd::utf8::decode_utf8;
use vstd::utf8::encode_utf8;
use vstd::utf8::valid_utf8;

use crate::error::Error;
use crate::error::FsError;
use crate::path::components;
use crate::path::has_parent;
use crate::path::parent_text;
use crate::path::under;
use crate::path::FilePath;
use crate::path::Key;
use crate::path_map::names;

verus! {

/// What can be observed of a file system at one moment.
///
/// Files, directories and links are found by the components of a path; what a
/// directory lists depends on the text of the path it is listed by, because the
/// entries repeat it.
#[verifier::ext_equal]
pub struct FsView {
    /// The files that can be read, with their contents.
    pub files: Map<Key, Seq<u8>>,
    /// The paths that lead to a regular file.
    pub regular: Set<Key>,
    /// The paths that lead to a directory.
    pub dirs: Set<Key>,
    /// The paths that lead anywhere at all.
    pub present: Set<Key>,
    /// The links, with their targets as they are written.
    pub links: Map<Key, Seq<char>>,
    /// The entries of the directories that can be listed.
    pub listing: Map<Seq<char>, Seq<Seq<char>>>,
    /// What lies below the directories that can be searched: everything but
    /// directories, links not followed.
    pub tree: Map<Seq<char>, Seq<Seq<char>>>,
    /// The same with links to directories followed.
    pub walk: Map<Seq<char>, Seq<Seq<char>>>,
    /// The device each path is on, where it can be told.
    pub device: Map<Key, u64>,
    /// The directories in which an entry can be made.
    pub writable: Set<Key>,
    /// The paths at which nothing is refused: neither to make a file, a link or a
    /// directory with those above it, nor to remove a file or an empty directory, nor
    /// to move something there or away.
    pub accepts: Set<Key>,
    /// How often the file at a path was replaced as a whole.
    pub writes: Map<Key, usize>,
}

impl FsView {
    /// The contents of the file at `k`, if it can be read.
    pub open spec fn file(self, k: Key) -> Option<Seq<u8>> {
        if self.files.contains_key(k) {
            Some(self.files[k])
        } else {
            None
        }
    }

    /// The text of the file at `k`, if it can be read and is text.
    pub open spec fn text(self, k: Key) -> Option<Seq<char>> {
        if self.files.contains_key(k) && valid_utf8(self.files[k]) {
            Some(decode_utf8(self.files[k]))
        } else {
            None
        }
    }
}

/// The texts of some paths.
pub open spec fn texts(paths: Seq<FilePath>) -> Seq<Seq<char>> {
    paths.map_values(|p: FilePath| p@)
}

/// `b` is `a` with `data` written to the file at `k`.
pub open spec fn wrote(a: FsView, b: FsView, k: Key, data: Seq<u8>) -> bool {
    &&& b.files == a.files.insert(k, data)
    &&& b.links == a.links
    &&& b.dirs == a.dirs
    &&& b.device == a.device
    &&& b.writable == a.writable
    &&& b.accepts == a.accepts
    &&& a.present.subset_of(b.present)
    &&& forall|q: Key|
        q != k && !a.links.contains_key(q) && #[trigger] b.present.contains(q)
            ==> a.present.contains(q)
}

/// `b` is `a` with a file at `k` whose contents are anything, or none.
pub open spec fn spoiled(a: FsView, b: FsView, k: Key) -> bool {
    &&& forall|q: Key| q != k ==> #[trigger] b.file(q) == a.file(q)
    &&& b.links == a.links
    &&& b.dirs == a.dirs
    &&& b.device == a.device
    &&& b.writable == a.writable
    &&& a.present.subset_of(b.present)
    &&& forall|q: Key|
        q != k && !a.links.contains_key(q) && #[trigger] b.present.contains(q)
            ==> a.present.contains(q)
}

/// One write more to `k` than were counted, as far as the count goes.
pub open spec fn counted(writes: Map<Key, usize>, k: Key) -> usize {
    let n = if writes.contains_key(k) {
        writes[k]
    } else {
        0
    };
    if n < usize::MAX {
        (n + 1) as usize
    } else {
        n
    }
}

/// `b` is `a` with the file at `k` replaced as a whole, once.
pub open spec fn replaced_file(a: FsView, b: FsView, k: Key, data: Seq<u8>) -> bool {
    wrote(a, b, k, data) && b.writes == a.writes.insert(k, counted(a.writes, k))
}

/// No file is replaced as a whole between the two states, and what is refused is
/// the same.
pub open spec fn same_books(a: FsView, b: FsView) -> bool {
    b.writes == a.writes && b.accepts == a.accepts
}

/// At `p` in `b` is the link that is at `q` in `a`.
pub open spec fn same_link(a: FsView, q: Key, b: FsView, p: Key) -> bool {
    a.links.contains_key(q) && b.links.contains_key(p) && b.links[p] == a.links[q]
}

/// At `q` both states hold the same file and the same link, on the same device, and
/// both or neither take new entries there. Where there is no link, both or neither
/// hold a directory, and anything at all.
pub open spec fn same_entry(a: FsView, b: FsView, q: Key) -> bool {
    &&& a.file(q) == b.file(q)
    &&& a.links.contains_key(q) == b.links.contains_key(q)
    &&& a.links.contains_key(q) ==> a.links[q] == b.links[q]
    &&& !a.links.contains_key(q) ==> {
        &&& a.dirs.contains(q) == b.dirs.contains(q)
        &&& a.present.contains(q) == b.present.contains(q)
        &&& a.device.contains_key(q) == b.device.contains_key(q)
        &&& a.device.contains_key(q) ==> a.device[q] == b.device[q]
        &&& a.writable.contains(q) == b.writable.contains(q)
    }
}

/// The file at `q` was replaced as a whole as often in both states, and what is
/// refused there is the same.
pub open spec fn same_record(a: FsView, b: FsView, q: Key) -> bool {
    &&& a.writes.contains_key(q) == b.writes.contains_key(q)
    &&& a.writes.contains_key(q) ==> a.writes[q] == b.writes[q]
    &&& a.accepts.contains(q) == b.accepts.contains(q)
}

/// Nothing happens at `q` on the way from `a` to `b`.
pub open spec fn unchanged_at(a: FsView, b: FsView, q: Key) -> bool {
    same_entry(a, b, q) && same_record(a, b, q)
}

/// Nothing happens at `q` on the way from `a` to `b`, but that a directory is made
/// there where it lies above `dir`.
pub open spec fn kept_at(a: FsView, b: FsView, q: Key, dir: Key) -> bool {
    &&& a.file(q) == b.file(q)
    &&& a.links.contains_key(q) == b.links.contains_key(q)
    &&& a.links.contains_key(q) ==> a.links[q] == b.links[q]
    &&& !a.links.contains_key(q) ==> {
        &&& a.dirs.contains(q) ==> b.dirs.contains(q)
        &&& a.present.contains(q) ==> b.present.contains(q)
        &&& b.dirs.contains(q) ==> a.dirs.contains(q) || under(dir, q)
    }
    &&& same_record(a, b, q)
}

/// Where the entry that is moved from `from` to `q`, at or below `to`, was.
pub open spec fn origin(q: Key, from: Key, to: Key) -> Key {
    from + q.skip(to.len() as int)
}

/// Whether moving `from` to `to` brings a file to `q`.
pub open spec fn arrives(a: FsView, from: Key, to: Key, q: Key) -> bool {
    &&& under(q, to)
    &&& a.dirs.contains(from) || q == to
    &&& a.files.contains_key(origin(q, from, to))
}

/// Whether moving `from` takes away what is at `q`.
pub open spec fn leaves(a: FsView, from: Key, q: Key) -> bool {
    under(q, from) && (a.dirs.contains(from) || q == from)
}

/// The two paths lie apart: neither is the other or below it.
pub open spec fn apart(a: Key, b: Key) -> bool {
    !under(a, b) && !under(b, a)
}

/// `b` is `a` with what was at `from` moved to `to`: a file or a link by itself,
/// a directory with everything below it.
///
/// Nothing is said here of what is seen through a link, nor of a directory moved
/// into itself.
pub open spec fn moved(a: FsView, b: FsView, from: Key, to: Key) -> bool {
    &&& same_books(a, b)
    &&& forall|q: Key| !under(q, from) && !under(q, to) ==> #[trigger] same_entry(a, b, q)
    &&& forall|t: Seq<char>|
        !lists_at(t, from) && !lists_at(t, to) ==> #[trigger] same_listing(a, b, t)
    &&& apart(from, to) ==> {
        &&& forall|q: Key|
            under(q, from) && #[trigger] b.links.contains_key(q) ==> same_link(a, q, b, q)
        &&& forall|q: Key|
            under(q, to) && #[trigger] b.links.contains_key(q) ==> same_link(a, q, b, q)
                || same_link(a, origin(q, from, to), b, q)
        &&& a.links.contains_key(from) ==> same_link(a, from, b, from) || same_link(a, from, b, to)
    }
    &&& !a.links.contains_key(from) && apart(from, to) ==> {
        &&& forall|q: Key| #[trigger]
            b.file(q) == if arrives(a, from, to, q) {
                a.file(origin(q, from, to))
            } else if leaves(a, from, q) {
                None
            } else {
                a.file(q)
            }
        &&& forall|q: Key| #[trigger]
            arrives(a, from, to, q) && !b.links.contains_key(q) ==> b.present.contains(q)
        &&& if a.dirs.contains(from) {
            moved_tree(a, b, from, to)
        } else {
            &&& forall|o: Key|
                under(o, from) && #[trigger] a.links.contains_key(o) ==> same_link(a, o, b, o)
            &&& forall|o: Key|
                under(o, from) && #[trigger] a.dirs.contains(o) && !a.links.contains_key(o)
                    ==> b.dirs.contains(o)
            &&& a.file(from) is Some ==> !b.present.contains(from)
            &&& forall|q: Key|
                under(q, from) && q != from && #[trigger] b.present.contains(q)
                    && !a.links.contains_key(q) ==> a.present.contains(q)
        }
    }
}

/// The two states name the same entries when the directory is listed by the text
/// `t`, in whatever order.
pub open spec fn same_listing(a: FsView, b: FsView, t: Seq<char>) -> bool {
    &&& a.listing.contains_key(t) == b.listing.contains_key(t)
    &&& a.listing.contains_key(t) ==> forall|k: Key| #[trigger]
        names(b.listing[t], k) == names(a.listing[t], k)
}

/// Whether a directory listed by the text `t` is one that changes when something
/// comes to `k` or goes from there: it lies at or below `k`, or `k` lies in it.
pub open spec fn lists_at(t: Seq<char>, k: Key) -> bool {
    under(components(t), k) || (k.len() > 0 && components(t) == k.drop_last())
}

/// Whether moving `from` to `to` is owed: nothing is refused at either, a move could
/// be made, no link is in the way, and what is there can take the other's place.
pub open spec fn rename_owed(v: FsView, from: Key, to: Key) -> bool {
    &&& v.accepts.contains(from) && v.accepts.contains(to)
    &&& renamable(v, from, to) && apart(from, to)
    &&& !v.links.contains_key(from) && !v.links.contains_key(to)
    &&& {
        ||| v.dirs.contains(from) && !v.present.contains(to)
        ||| v.file(from) is Some && !v.dirs.contains(from) && !v.dirs.contains(to)
    }
}

/// Whether removing the directory at `k` is owed: nothing is refused there, and
/// nothing is in it.
pub open spec fn remove_owed(v: FsView, k: Key) -> bool {
    &&& v.accepts.contains(k) && v.dirs.contains(k)
    &&& forall|q: Key| under(q, k) ==> #[trigger] v.file(q) is None
    &&& forall|q: Key| under(q, k) ==> !#[trigger] v.links.contains_key(q)
    &&& forall|q: Key| under(q, k) && q != k ==> !#[trigger] v.present.contains(q)
}

/// `b` is `a` with the empty directory at `k` removed.
pub open spec fn removed_dir(a: FsView, b: FsView, k: Key) -> bool {
    &&& b.files == a.files
    &&& b.links == a.links
    &&& forall|q: Key|
        under(q, k) ==> #[trigger] a.file(q) is None && !a.links.contains_key(q) && (q != k
            ==> !a.dirs.contains(q))
    &&& forall|q: Key| !under(q, k) ==> #[trigger] same_entry(a, b, q)
    &&& forall|q: Key| under(q, k) ==> !#[trigger] b.dirs.contains(q)
    &&& forall|q: Key| under(q, k) ==> !#[trigger] b.present.contains(q)
    &&& forall|t: Seq<char>| !lists_at(t, k) ==> #[trigger] same_listing(a, b, t)
    &&& same_books(a, b)
}

/// `b` is `a` with the directories and links at and below `from` moved to `to`.
/// A link at `to` itself hides the directory that is moved there.
pub open spec fn moved_tree(a: FsView, b: FsView, from: Key, to: Key) -> bool {
    &&& forall|q: Key| under(q, from) ==> !#[trigger] b.links.contains_key(q)
    &&& forall|q: Key| under(q, from) ==> !#[trigger] b.dirs.contains(q)
    &&& forall|q: Key| under(q, from) ==> !#[trigger] b.present.contains(q)
    &&& forall|o: Key|
        under(o, from) && #[trigger] a.links.contains_key(o) ==> same_link(
            a,
            o,
            b,
            origin(o, to, from),
        )
    &&& forall|o: Key|
        under(o, from) && #[trigger] a.dirs.contains(o) && !a.links.contains_key(o)
            && !a.links.contains_key(origin(o, to, from)) ==> b.dirs.contains(origin(o, to, from))
}

/// The directories that `b` has and `a` has not are at or above `k`, but for
/// links that lead there.
pub open spec fn grown(a: FsView, b: FsView, k: Key) -> bool {
    forall|q: Key| #[trigger]
        b.dirs.contains(q) && !a.dirs.contains(q) ==> under(k, q) || b.links.contains_key(q)
}

/// A file system.
///
/// Reading answers from one state: between two changes made through this trait
/// the same question gets the same answer. A request that fails leaves the
/// state as it was, except where it says otherwise. The contracts speak of
/// paths by their components: where links make two of them lead to one place,
/// they hold of the path that was asked for.
pub trait Fs: Send + Sync {
    /// The state that can be observed now.
    spec fn view(&self) -> FsView;

    /// The text of a file.
    fn read_to_string(&self, path: &FilePath) -> (r: Result<String, FsError>)
        ensures
            match r {
                Ok(s) => self.view().text(path.key()) == Some(s@),
                Err(_) => self.view().text(path.key()) is None,
            },
    ;

    /// The contents of a file.
    fn read_bytes(&self, path: &FilePath) -> (r: Result<Vec<u8>, FsError>)
        ensures
            match r {
                Ok(data) => self.view().file(path.key()) == Some(data@),
                Err(_) => self.view().file(path.key()) is None,
            },
    ;

    /// Puts a text in the place of a file's contents, all of it or nothing.
    fn write_atomically(&mut self, path: &FilePath, content: &str) -> (r: Result<(), FsError>)
        ensures
            match r {
                Ok(_) => replaced_file(
                    old(self).view(),
                    final(self).view(),
                    path.key(),
                    encode_utf8(content@),
                ),
                Err(_) => final(self).view() == old(self).view(),
            },
            old(self).view().accepts.contains(path.key()) ==> r is Ok,
    ;

    /// Writes a file. When that fails, the file's contents are anything.
    fn write_bytes(&mut self, path: &FilePath, data: &Vec<u8>) -> (r: Result<(), FsError>)
        ensures
            match r {
                Ok(_) => wrote(old(self).view(), final(self).view(), path.key(), data@),
                Err(_) => spoiled(old(self).view(), final(self).view(), path.key()),
            },
            same_books(old(self).view(), final(self).view()),
            old(self).view().accepts.contains(path.key()) ==> r is Ok,
    ;

    /// Moves a file or a link, or a directory with everything below it.
    fn rename(&mut self, from: &FilePath, to: &FilePath) -> (r: Result<(), FsError>)
        ensures
            match r {
                Ok(_) => moved(old(self).view(), final(self).view(), from.key(), to.key()),
                Err(_) => final(self).view() == old(self).view(),
            },
            rename_owed(old(self).view(), from.key(), to.key()) ==> r is Ok,
    ;

    /// The device that `path` is on.
    fn device_id(&self, path: &FilePath) -> (r: Result<u64, FsError>)
        ensures
            match r {
                Ok(id) => self.view().device.contains_key(path.key())
                    && self.view().device[path.key()] == id,
                Err(_) => !self.view().device.contains_key(path.key()),
            },
    ;

    /// Whether an entry can be made in `dir`.
    fn probe_writable(&self, dir: &FilePath) -> (r: Result<(), FsError>)
        ensures
            r is Ok <==> self.view().writable.contains(dir.key()),
    ;

    /// Whether `path` leads anywhere.
    fn path_exists(&self, path: &FilePath) -> (r: bool)
        ensures
            r == self.view().present.contains(path.key()),
    ;

    /// Whether `path` leads to a directory.
    fn is_dir(&self, path: &FilePath) -> (r: bool)
        ensures
            r == self.view().dirs.contains(path.key()),
    ;

    /// Whether `path` leads to a regular file.
    fn is_file(&self, path: &FilePath) -> (r: bool)
        ensures
            r == self.view().regular.contains(path.key()),
    ;

    /// The target of a link as it is written, not resolved.
    fn read_link(&self, path: &FilePath) -> (r: Result<FilePath, FsError>)
        ensures
            match r {
                Ok(target) => self.view().links.contains_key(path.key())
                    && self.view().links[path.key()] == target@,
                Err(_) => !self.view().links.contains_key(path.key()),
            },
    ;

    /// Whether `path` is a link, one that leads nowhere included.
    fn is_symlink(&self, path: &FilePath) -> (r: bool)
        ensures
            r == self.view().links.contains_key(path.key()),
    ;

    /// Makes the link at `path` point to `target`, in one step.
    fn replace_symlink(&mut self, path: &FilePath, target: &FilePath) -> (r: Result<(), FsError>)
        ensures
            match r {
                Ok(_) => {
                    &&& final(self).view().links == old(self).view().links.insert(
                        path.key(),
                        target@,
                    )
                    &&& forall|q: Key|
                        !under(q, path.key()) ==> #[trigger] same_entry(
                            old(self).view(),
                            final(self).view(),
                            q,
                        )
                },
                Err(_) => final(self).view() == old(self).view(),
            },
            same_books(old(self).view(), final(self).view()),
            old(self).view().accepts.contains(path.key()) ==> r is Ok,
    ;

    /// The entries of a directory.
    fn list_dir(&self, path: &FilePath) -> (r: Result<Vec<FilePath>, FsError>)
        ensures
            match r {
                Ok(entries) => self.view().listing.contains_key(path@) && texts(entries@)
                    == self.view().listing[path@],
                Err(_) => !self.view().listing.contains_key(path@),
            },
    ;

    /// Everything below a directory but directories. Links are not followed.
    fn list_dir_recursive(&self, path: &FilePath) -> (r: Result<Vec<FilePath>, FsError>)
        ensures
            match r {
                Ok(entries) => self.view().tree.contains_key(path@) && texts(entries@)
                    == self.view().tree[path@],
                Err(_) => !self.view().tree.contains_key(path@),
            },
    ;

    /// Everything below a directory but directories. Links to directories are
    /// followed.
    fn walk_files(&self, path: &FilePath) -> (r: Result<Vec<FilePath>, FsError>)
        ensures
            match r {
                Ok(entries) => self.view().walk.contains_key(path@) && texts(entries@)
                    == self.view().walk[path@],
                Err(_) => !self.view().walk.contains_key(path@),
            },
    ;

    /// Makes a directory and those above it that are missing, and no others. No
    /// file and no link is touched, whether it fails or not.
    fn create_dir_all(&mut self, path: &FilePath) -> (r: Result<(), FsError>)
        ensures
            final(self).view().files == old(self).view().files,
            final(self).view().links == old(self).view().links,
            old(self).view().dirs.subset_of(final(self).view().dirs),
            old(self).view().present.subset_of(final(self).view().present),
            grown(old(self).view(), final(self).view(), path.key()),
            same_books(old(self).view(), final(self).view()),
            old(self).view().accepts.contains(path.key()) ==> r is Ok,
            r is Ok && !old(self).view().links.contains_key(path.key())
                ==> final(self).view().dirs.contains(path.key()),
    ;

    /// Removes a directory with everything below it.
    fn remove_dir_all(&mut self, path: &FilePath) -> (r: Result<(), FsError>)
        ensures
            forall|q: Key|
                !under(q, path.key()) ==> #[trigger] same_entry(
                    old(self).view(),
                    final(self).view(),
                    q,
                ),
            r is Ok ==> forall|q: Key|
                under(q, path.key()) ==> #[trigger] final(self).view().file(q) is None,
            same_books(old(self).view(), final(self).view()),
    ;

    /// Removes an empty directory.
    fn remove_dir(&mut self, path: &FilePath) -> (r: Result<(), FsError>)
        ensures
            match r {
                Ok(_) => removed_dir(old(self).view(), final(self).view(), path.key()),
                Err(_) => final(self).view() == old(self).view(),
            },
            remove_owed(old(self).view(), path.key()) ==> r is Ok,
    ;

    /// Removes a file, or a link but not what it leads to.
    fn remove_file(&mut self, path: &FilePath) -> (r: Result<(), FsError>)
        ensures
            match r {
                Ok(_) => {
                    &&& forall|q: Key|
                        !under(q, path.key()) ==> #[trigger] same_entry(
                            old(self).view(),
                            final(self).view(),
                            q,
                        )
                    &&& final(self).view().file(path.key()) is None
                    &&& !final(self).view().links.contains_key(path.key())
                    &&& same_books(old(self).view(), final(self).view())
                },
                Err(_) => final(self).view() == old(self).view(),
            },
            old(self).view().accepts.contains(path.key()) && old(self).view().file(
                path.key(),
            ) is Some ==> r is Ok,
    ;

    /// Copies a file. When that fails, the copy's contents are anything.
    fn copy_file(&mut self, from: &FilePath, to: &FilePath) -> (r: Result<(), FsError>)
        ensures
            match r {
                Ok(_) => {
                    &&& old(self).view().file(from.key()) is Some
                    &&& wrote(
                        old(self).view(),
                        final(self).view(),
                        to.key(),
                        old(self).view().files[from.key()],
                    )
                },
                Err(_) => {
                    &&& forall|q: Key|
                        q != to.key() ==> #[trigger] final(self).view().file(q)
                            == old(self).view().file(q)
                    &&& final(self).view().links == old(self).view().links
                },
            },
            same_books(old(self).view(), final(self).view()),
    ;
}

/// Whether `from` and the directory `dir` are known to be on one device.
pub open spec fn same_device(v: FsView, from: Key, dir: Key) -> bool {
    v.device.contains_key(from) && v.device.contains_key(dir) && v.device[from] == v.device[dir]
}

/// Whether `from` could be renamed to `to`: the directory that `to` lies in is
/// there, on the same device and writable.
pub open spec fn renamable(v: FsView, from: Key, to: Key) -> bool {
    &&& has_parent(to)
    &&& v.dirs.contains(to.drop_last())
    &&& same_device(v, from, to.drop_last())
    &&& v.writable.contains(to.drop_last())
}

/// `e` reports why `from` cannot be renamed to `to`.
pub open spec fn rename_error(e: Error, v: FsView, from: FilePath, to: FilePath) -> bool {
    let parent = to.key().drop_last();
    if !has_parent(to.key()) {
        e == Error::NoParent(to)
    } else if !v.dirs.contains(parent) {
        e matches Error::MissingDirectory(path) && path@ == parent_text(to@)
    } else if !v.device.contains_key(from.key()) || !v.device.contains_key(parent) {
        e is Fs
    } else if !same_device(v, from.key(), parent) {
        e matches Error::CrossFilesystem(a, b) && a == from && b@ == parent_text(to@)
    } else {
        e is Fs && !v.writable.contains(parent)
    }
}

/// Whether `from` could be renamed to `to` right now.
///
/// A rename fails when the target directory is missing, when it is on another
/// file system, and when it cannot be written. All three show only once the
/// rename runs, which in a batch is after earlier moves have already landed.
pub fn can_rename<F: Fs>(fs: &F, from: &FilePath, to: &FilePath) -> (r: Result<(), Error>)
    ensures
        r is Ok <==> renamable(fs.view(), from.key(), to.key()),
        r matches Err(e) ==> rename_error(e, fs.view(), *from, *to),
{
    let parent = match to.parent() {
        Some(parent) => parent,
        None => {
            return Err(Error::NoParent(to.clone()));
        },
    };
    if !fs.is_dir(&parent) {
        return Err(Error::MissingDirectory(parent));
    }
    let here: u64 = match fs.device_id(from) {
        Ok(id) => id,
        Err(e) => {
            return Err(Error::Fs(e));
        },
    };
    let there: u64 = match fs.device_id(&parent) {
        Ok(id) => id,
        Err(e) => {
            return Err(Error::Fs(e));
        },
    };
    if here != there {
        return Err(Error::CrossFilesystem(from.clone(), parent));
    }
    match fs.probe_writable(&parent) {
        Ok(_) => Ok(()),
        Err(e) => Err(Error::Fs(e)),
    }
}

/// What was written is what is read.
pub proof fn law_write_reads_back(a: FsView, b: FsView, k: Key, text: Seq<char>)
    requires
        wrote(a, b, k, encode_utf8(text)),
    ensures
        b.text(k) == Some(text),
        b.file(k) == Some(encode_utf8(text)),
        forall|q: Key| q != k ==> #[trigger] b.file(q) == a.file(q),
{
    vstd::utf8::encode_utf8_valid_utf8(text);
    vstd::utf8::encode_utf8_decode_utf8(text);
}

/// A directory that is moved takes every file below it along, to the same place
/// below the new path.
pub proof fn law_moved_directory_keeps_files(
    a: FsView,
    b: FsView,
    from: Key,
    to: Key,
    below: Key,
)
    requires
        moved(a, b, from, to),
        a.dirs.contains(from),
        !a.links.contains_key(from),
        apart(from, to),
    ensures
        a.file(from + below) is Some ==> b.file(to + below) == a.file(from + below),
        b.file(from + below) is None,
{
    let o = from + below;
    let p = to + below;
    assert(p.subrange(0, to.len() as int) =~= to);
    assert(o.subrange(0, from.len() as int) =~= from);
    assert(p.skip(to.len() as int) =~= below);
    if under(o, to) {
        if from.len() <= to.len() {
            assert(to.subrange(0, from.len() as int) =~= from);
        } else {
            assert(from.subrange(0, to.len() as int) =~= to);
        }
    }
    assert(!arrives(a, from, to, o));
    assert(leaves(a, from, o));
}

} // verus!
