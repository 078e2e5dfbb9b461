//! A file system in memory.

use vstd::prelude::*;
use vstd::string::*;
use vstd::utf8::encode_utf8;
use vstd::utf8::valid_utf8;

use crate::error::FsError;
use crate::fs::apart;
use crate::fs::arrives;
use crate::fs::counted;
use crate::fs::leaves;
use crate::fs::lists_at;
use crate::fs::moved;
use crate::fs::moved_tree;
use crate::fs::origin;
use crate::fs::remove_owed;
use crate::fs::same_entry;
use crate::fs::same_link;
use crate::fs::same_listing;
use crate::fs::texts;
use crate::fs::Fs;
use crate::fs::FsView;
use crate::path::components;
use crate::path::has_parent;
use crate::path::lemma_components_plain;
use crate::path::slash;
use crate::path::under;
use crate::path::FilePath;
use crate::path::Key;
use crate::path_map::agree;
use crate::path_map::is_below;
use crate::path_map::is_child;
use crate::path_map::is_for;
use crate::path_map::lemma_map_of;
use crate::path_map::lemma_names_add;
use crate::path_map::lemma_selected;
use crate::path_map::map_of;
use crate::path_map::names;
use crate::path_map::relocated;
use crate::path_map::selected;
use crate::path_map::PathMap;
use crate::text::text_from_utf8;

verus! {

/// A file system in memory, for trying the library without a disk.
///
/// Directories, files and links are registered one by one: a file can be there
/// without the directories above it.
pub struct MockFs {
    files: PathMap<Vec<u8>>,
    dirs: PathMap<()>,
    /// How often each path was written to by `write_atomically`.
    writes: PathMap<usize>,
    /// Mount points and the devices they carry.
    devices: PathMap<u64>,
    /// Directories in which no entry can be made.
    readonly: PathMap<()>,
    links: PathMap<FilePath>,
}

/// The path that `k` leads to when at most `hops` links are followed.
pub open spec fn resolved(links: Map<Key, FilePath>, k: Key, hops: nat) -> Key
    decreases hops,
{
    if hops == 0 || !links.contains_key(k) {
        k
    } else {
        resolved(links, links[k].key(), (hops - 1) as nat)
    }
}

/// How many links are followed before a chain is given up.
pub const MAX_HOPS: usize = 40;

/// The device of the nearest mount point at or above the first `n` components
/// of `k`, 0 where there is none.
pub open spec fn device_above(devices: Map<Key, u64>, k: Key, n: nat) -> u64
    decreases n,
{
    if devices.contains_key(k.take(n as int)) {
        devices[k.take(n as int)]
    } else if n == 0 {
        0
    } else {
        device_above(devices, k, (n - 1) as nat)
    }
}

/// Whether `a` is `k` or a directory above it.
pub open spec fn is_ancestor(k: Key, a: Key) -> bool {
    under(k, a) && (a.len() > 0 || k.len() == 0 || k[0] != slash())
}

/// The set `s` with everything at or below `from` moved to `to`.
pub open spec fn relocated_set(s: Set<Key>, from: Key, to: Key) -> Set<Key> {
    Set::new(
        |q: Key|
            (under(q, to) && s.contains(origin(q, from, to))) || (s.contains(q) && !under(q, from)),
    )
}

/// The file system `s` with what is at `from` renamed to `to`: a directory with
/// all files, directories and links below it, else a file.
pub open spec fn renamed(s: MockView, from: Key, to: Key) -> MockView {
    if s.dirs.contains(from) {
        MockView {
            files: relocated(s.files, from, to),
            dirs: relocated_set(s.dirs, from, to),
            links: relocated(s.links, from, to),
            ..s
        }
    } else if s.files.contains_key(from) {
        MockView { files: s.files.remove(from).insert(to, s.files[from]), ..s }
    } else {
        s
    }
}

/// Whether the directory above `k` takes new entries.
pub open spec fn is_open(state: MockView, k: Key) -> bool {
    !has_parent(k) || !state.readonly.contains(k.drop_last())
}

/// Whether there is a directory at `k` with nothing below it.
pub open spec fn is_empty_dir(state: MockView, k: Key) -> bool {
    &&& state.dirs.contains(k)
    &&& forall|q: Key| under(q, k) ==> !#[trigger] state.files.contains_key(q)
    &&& forall|q: Key| under(q, k) ==> !#[trigger] state.links.contains_key(q)
    &&& forall|q: Key| under(q, k) && q != k ==> !#[trigger] state.dirs.contains(q)
}

/// What is on a mock file system.
pub struct MockView {
    pub files: Map<Key, Seq<u8>>,
    pub dirs: Set<Key>,
    pub writes: Map<Key, usize>,
    pub devices: Map<Key, u64>,
    pub readonly: Set<Key>,
    pub links: Map<Key, FilePath>,
}

impl MockFs {
    /// What is on this file system.
    pub closed spec fn state(&self) -> MockView {
        MockView {
            files: self.files@.map_values(|data: Vec<u8>| data@),
            dirs: self.dirs@.dom(),
            writes: self.writes@,
            devices: self.devices@,
            readonly: self.readonly@.dom(),
            links: self.links@,
        }
    }

    /// The files, directories and links that `f` accepts.
    pub closed spec fn listed(&self, f: spec_fn(Key) -> bool) -> Seq<Seq<char>> {
        selected(self.files.entries(), f) + selected(self.dirs.entries(), f) + selected(
            self.links.entries(),
            f,
        )
    }

    /// The files and links that `f` accepts.
    pub closed spec fn below(&self, f: spec_fn(Key) -> bool) -> Seq<Seq<char>> {
        selected(self.files.entries(), f) + selected(self.links.entries(), f)
    }

    pub fn new() -> (r: Self)
        ensures
            r.state().files == Map::<Key, Seq<u8>>::empty(),
            r.state().dirs == Set::<Key>::empty(),
            r.state().writes == Map::<Key, usize>::empty(),
            r.state().devices == Map::<Key, u64>::empty(),
            r.state().readonly == Set::<Key>::empty(),
            r.state().links == Map::<Key, FilePath>::empty(),
    {
        let r = MockFs {
            files: PathMap::new(),
            dirs: PathMap::new(),
            writes: PathMap::new(),
            devices: PathMap::new(),
            readonly: PathMap::new(),
            links: PathMap::new(),
        };
        assert(r.state().files =~= Map::empty());
        assert(r.state().dirs =~= Set::empty());
        assert(r.state().readonly =~= Set::empty());
        r
    }

    /// Puts `mount` and everything under it on a device of its own.
    pub fn add_mount(&mut self, mount: &FilePath, device: u64)
        ensures
            final(self).state() == (MockView {
                devices: old(self).state().devices.insert(mount.key(), device),
                ..old(self).state()
            }),
    {
        self.devices.insert(mount.clone(), device);
    }

    /// Makes `dir` a directory in which no entry can be made.
    pub fn add_readonly_dir(&mut self, dir: &FilePath)
        ensures
            final(self).state() == (MockView {
                readonly: old(self).state().readonly.insert(dir.key()),
                ..old(self).state()
            }),
    {
        self.readonly.insert(dir.clone(), ());
        assert(self.state().readonly =~= old(self).state().readonly.insert(dir.key()));
    }

    /// How often `path` was written to.
    pub fn write_count(&self, path: &FilePath) -> (r: usize)
        ensures
            r == if self.state().writes.contains_key(path.key()) {
                self.state().writes[path.key()]
            } else {
                0
            },
    {
        match self.writes.get(path) {
            Some(n) => *n,
            None => 0,
        }
    }

    /// Puts a file there. This does not count as a write.
    pub fn add_file(&mut self, path: &FilePath, content: &str)
        ensures
            final(self).state() == (MockView {
                files: old(self).state().files.insert(path.key(), encode_utf8(content@)),
                ..old(self).state()
            }),
    {
        self.files.insert(path.clone(), content.as_bytes_vec());
        assert(self.state().files =~= old(self).state().files.insert(
            path.key(),
            encode_utf8(content@),
        ));
    }

    /// Puts a directory there, with those above it.
    pub fn add_dir(&mut self, path: &FilePath)
        ensures
            final(self).state() == (MockView {
                dirs: old(self).state().dirs.union(Set::new(|a: Key| is_ancestor(path.key(), a))),
                ..old(self).state()
            }),
    {
        let ghost k = path.key();
        let ghost before = self.state();
        let mut current = path.clone();
        self.dirs.insert(path.clone(), ());
        let mut more = true;
        assert(k.take(k.len() as int) =~= k);
        while more
            invariant
                k == path.key(),
                current.key().len() <= k.len(),
                current.key() == k.take(current.key().len() as int),
                self.state() == (MockView { dirs: self.state().dirs, ..before }),
                forall|a: Key| #[trigger]
                    self.state().dirs.contains(a) == (before.dirs.contains(a) || (under(k, a)
                        && a.len() >= current.key().len())),
                current.key().len() == 0 ==> k.len() == 0 || k[0] != slash(),
                !more ==> !has_parent(current.key()),
            decreases current.key().len() + (if more {
                1int
            } else {
                0
            }),
        {
            match current.parent() {
                Some(parent) => {
                    let ghost n = current.key().len() as int;
                    assert(current.key().last() == k[n - 1]);
                    assert(k.take(n).drop_last() =~= k.take(n - 1));
                    let ghost now = self.state().dirs;
                    self.dirs.insert(parent.clone(), ());
                    proof {
                        assert forall|a: Key| #[trigger]
                            self.state().dirs.contains(a) == (before.dirs.contains(a) || (under(
                                k,
                                a,
                            ) && a.len() >= n - 1)) by {
                            assert(now.contains(a) == (before.dirs.contains(a) || (under(k, a)
                                && a.len() >= n)));
                            if under(k, a) && a.len() == n - 1 {
                                assert(a =~= k.take(n - 1));
                            }
                            if a == parent.key() {
                                assert(a =~= k.subrange(0, n - 1));
                            }
                        }
                    }
                    current = parent;
                },
                None => {
                    more = false;
                },
            }
        }
        proof {
            let n = current.key().len() as int;
            if n > 1 {
                lemma_components_plain(path@, n - 1);
                assert(slash().contains('/')) by {
                    assert(slash()[0] == '/');
                }
                assert(current.key().last() == k[n - 1]);
            }
            assert forall|a: Key| #[trigger] self.state().dirs.contains(a) == before.dirs.union(
                Set::new(|a: Key| is_ancestor(k, a)),
            ).contains(a) by {
                if n == 1 {
                    assert(current.key().last() == k[0]);
                }
            }
            assert(self.state().dirs =~= before.dirs.union(Set::new(|a: Key| is_ancestor(k, a))));
        }
    }

    /// The contents of the file at `path`, where there is one and it is text.
    pub fn get_file(&self, path: &FilePath) -> (r: Option<String>)
        ensures
            match r {
                Some(s) => self.view().text(path.key()) == Some(s@),
                None => self.view().text(path.key()) is None,
            },
    {
        match self.files.get(path) {
            Some(data) => text_from_utf8(data.clone()),
            None => None,
        }
    }

    /// Puts a link there, with its target as it is to be written.
    pub fn add_symlink(&mut self, path: &FilePath, target: &FilePath)
        ensures
            final(self).state() == (MockView {
                links: old(self).state().links.insert(path.key(), *target),
                ..old(self).state()
            }),
    {
        self.links.insert(path.clone(), target.clone());
    }

    /// Follows links from `path` until something is no link. A chain that goes
    /// on too long, as a circle does, is given up where it has got to.
    fn resolve_symlink_chain(&self, path: &FilePath) -> (r: FilePath)
        ensures
            r.key() == resolved(self.links@, path.key(), MAX_HOPS as nat),
    {
        let mut current = path.clone();
        let mut left: usize = MAX_HOPS;
        while left > 0
            invariant
                left <= MAX_HOPS,
                resolved(self.links@, path.key(), MAX_HOPS as nat) == resolved(
                    self.links@,
                    current.key(),
                    left as nat,
                ),
            decreases left,
        {
            match self.links.get(&current) {
                Some(target) => {
                    current = target.clone();
                },
                None => {
                    return current;
                },
            }
            left = left - 1;
        }
        current
    }
}

impl Fs for MockFs {
    open spec fn view(&self) -> FsView {
        let state = self.state();
        FsView {
            files: state.files,
            regular: Set::new(
                |k: Key| state.files.contains_key(resolved(state.links, k, MAX_HOPS as nat)),
            ),
            dirs: Set::new(|k: Key| state.dirs.contains(resolved(state.links, k, MAX_HOPS as nat))),
            present: Set::new(
                |k: Key|
                    {
                        let r = resolved(state.links, k, MAX_HOPS as nat);
                        state.files.contains_key(r) || state.dirs.contains(r)
                    },
            ),
            links: state.links.map_values(|target: FilePath| target@),
            listing: Map::total(|t: Seq<char>| self.listed(is_child(components(t)))),
            tree: Map::total(|t: Seq<char>| self.below(is_below(components(t)))),
            walk: Map::total(|t: Seq<char>| self.below(is_below(components(t)))),
            device: Map::total(|k: Key| device_above(state.devices, k, k.len())),
            writable: Set::new(|k: Key| !state.readonly.contains(k)),
            accepts: Set::new(|k: Key| is_open(state, k)),
            writes: state.writes,
        }
    }

    fn read_to_string(&self, path: &FilePath) -> (r: Result<String, FsError>) {
        match self.get_file(path) {
            Some(text) => Ok(text),
            None => Err(FsError::about("file not found: ", path)),
        }
    }

    fn read_bytes(&self, path: &FilePath) -> (r: Result<Vec<u8>, FsError>) {
        match self.files.get(path) {
            Some(data) => Ok(data.clone()),
            None => Err(FsError::about("file not found: ", path)),
        }
    }

    fn write_atomically(&mut self, path: &FilePath, content: &str) -> (r: Result<(), FsError>)
        ensures
            r is Ok <==> is_open(old(self).state(), path.key()),
            final(self).state() == if r is Ok {
                MockView {
                    files: old(self).state().files.insert(path.key(), encode_utf8(content@)),
                    writes: old(self).state().writes.insert(
                        path.key(),
                        counted(old(self).state().writes, path.key()),
                    ),
                    ..old(self).state()
                }
            } else {
                old(self).state()
            },
    {
        if let Some(parent) = path.parent() {
            if let Err(e) = self.probe_writable(&parent) {
                return Err(e);
            }
        }
        let ghost before = *self;
        let count: usize = self.write_count(path);
        self.files.insert(path.clone(), content.as_bytes_vec());
        if count < usize::MAX {
            self.writes.insert(path.clone(), count + 1);
        }
        proof {
            lemma_accepts(before, *self);
            assert(self.view().files =~= before.view().files.insert(
                path.key(),
                encode_utf8(content@),
            ));
            assert(self.view().dirs =~= before.view().dirs);
            assert(self.view().device =~= before.view().device);
            assert(self.view().writable =~= before.view().writable);
            assert(self.state().writes =~= before.state().writes.insert(
                path.key(),
                counted(before.state().writes, path.key()),
            ));
        }
        Ok(())
    }

    fn write_bytes(&mut self, path: &FilePath, data: &Vec<u8>) -> (r: Result<(), FsError>)
        ensures
            r is Ok <==> is_open(old(self).state(), path.key()),
            final(self).state() == if r is Ok {
                MockView {
                    files: old(self).state().files.insert(path.key(), data@),
                    ..old(self).state()
                }
            } else {
                old(self).state()
            },
    {
        if let Some(parent) = path.parent() {
            if let Err(e) = self.probe_writable(&parent) {
                return Err(e);
            }
        }
        let ghost before = *self;
        self.files.insert(path.clone(), data.clone());
        proof {
            lemma_accepts(before, *self);
            assert(self.view().files =~= before.view().files.insert(path.key(), data@));
            assert(self.view().dirs =~= before.view().dirs);
            assert(self.view().device =~= before.view().device);
            assert(self.view().writable =~= before.view().writable);
        }
        Ok(())
    }

    fn device_id(&self, path: &FilePath) -> (r: Result<u64, FsError>)
        ensures
            r is Ok,
    {
        let n: usize = self.devices.len();
        let ghost k = path.key();
        let ghost entries = self.devices.entries();
        let mut best: Option<usize> = None;
        let mut depth: usize = 0;
        let mut i: usize = 0;
        while i < n
            invariant
                n == entries.len(),
                entries == self.devices.entries(),
                k == path.key(),
                i <= n,
                match best {
                    Some(b) => b < i && under(k, entries[b as int].0.key()) && depth
                        == entries[b as int].0.key().len(),
                    None => true,
                },
                forall|j: int|
                    0 <= j < i && under(k, (#[trigger] entries[j]).0.key()) ==> best is Some
                        && entries[j].0.key().len() <= depth,
            decreases n - i,
        {
            let mount = self.devices.path(i);
            if path.starts_with(mount) {
                let here: usize = mount.components().len();
                if best.is_none() || here >= depth {
                    best = Some(i);
                    depth = here;
                }
            }
            i = i + 1;
        }
        match best {
            Some(b) => {
                proof {
                    lemma_map_of(entries, b as int);
                    lemma_device(entries, k, k.len() as int, b as int);
                }
                Ok(*self.devices.value(b))
            },
            None => {
                proof {
                    lemma_no_device(entries, k, k.len() as int);
                }
                Ok(0)
            },
        }
    }

    fn probe_writable(&self, dir: &FilePath) -> (r: Result<(), FsError>) {
        if self.readonly.contains(dir) {
            Err(FsError::about("target directory is not writable: ", dir))
        } else {
            Ok(())
        }
    }

    fn path_exists(&self, path: &FilePath) -> (r: bool) {
        let target = self.resolve_symlink_chain(path);
        self.files.contains(&target) || self.dirs.contains(&target)
    }

    fn is_dir(&self, path: &FilePath) -> (r: bool) {
        let target = self.resolve_symlink_chain(path);
        self.dirs.contains(&target)
    }

    fn is_file(&self, path: &FilePath) -> (r: bool) {
        let target = self.resolve_symlink_chain(path);
        self.files.contains(&target)
    }

    fn read_link(&self, path: &FilePath) -> (r: Result<FilePath, FsError>) {
        match self.links.get(path) {
            Some(target) => Ok(target.clone()),
            None => Err(FsError::about("not a symlink: ", path)),
        }
    }

    fn is_symlink(&self, path: &FilePath) -> (r: bool) {
        self.links.contains(path)
    }

    fn replace_symlink(&mut self, path: &FilePath, target: &FilePath) -> (r: Result<(), FsError>)
        ensures
            r is Ok <==> is_open(old(self).state(), path.key()),
            final(self).state() == if r is Ok {
                MockView {
                    links: old(self).state().links.insert(path.key(), *target),
                    ..old(self).state()
                }
            } else {
                old(self).state()
            },
    {
        if let Some(parent) = path.parent() {
            if let Err(e) = self.probe_writable(&parent) {
                return Err(e);
            }
        }
        let ghost before = *self;
        self.links.insert(path.clone(), target.clone());
        proof {
            lemma_accepts(before, *self);
            assert(self.view().links =~= before.view().links.insert(path.key(), target@));
            assert(path.key().is_prefix_of(path.key())) by {
                assert(path.key().subrange(0, path.key().len() as int) =~= path.key());
            }
            assert forall|q: Key| !under(q, path.key()) implies #[trigger] same_entry(
                before.view(),
                self.view(),
                q,
            ) by {
                if !before.links@.contains_key(q) {
                    lemma_no_link(before.links@, q);
                    lemma_no_link(self.links@, q);
                }
            }
        }
        Ok(())
    }

    fn list_dir(&self, path: &FilePath) -> (r: Result<Vec<FilePath>, FsError>)
        ensures
            r is Ok,
            forall|k: Key| #[trigger]
                names(texts(r->Ok_0@), k) == (has_parent(k) && k.drop_last() == path.key() && (
                self.state().files.contains_key(k) || self.state().dirs.contains(k)
                    || self.state().links.contains_key(k))),
    {
        let sizes = (self.files.len(), self.dirs.len(), self.links.len());
        let mut entries: Vec<FilePath> = Vec::new();
        self.files.push_children(path, &mut entries);
        self.dirs.push_children(path, &mut entries);
        self.links.push_children(path, &mut entries);
        proof {
            let f = is_child(path.key());
            assert(texts(entries@) =~= self.listed(f));
            assert forall|k: Key| #[trigger]
                names(texts(entries@), k) == (f(k) && (self.state().files.contains_key(k)
                    || self.state().dirs.contains(k) || self.state().links.contains_key(k))) by {
                lemma_listed(*self, path.key(), k);
            }
        }
        Ok(entries)
    }

    fn list_dir_recursive(&self, path: &FilePath) -> (r: Result<Vec<FilePath>, FsError>)
        ensures
            r is Ok,
            forall|k: Key| #[trigger]
                names(texts(r->Ok_0@), k) == (under(k, path.key()) && k != path.key() && (
                self.state().files.contains_key(k) || self.state().links.contains_key(k))),
    {
        let sizes = (self.files.len(), self.links.len());
        let mut entries: Vec<FilePath> = Vec::new();
        self.files.push_below(path, &mut entries);
        self.links.push_below(path, &mut entries);
        proof {
            let f = is_below(path.key());
            assert(texts(entries@) =~= self.below(f));
            assert forall|k: Key| #[trigger]
                names(texts(entries@), k) == (f(k) && (self.state().files.contains_key(k)
                    || self.state().links.contains_key(k))) by {
                lemma_selected(self.files.entries(), f, k);
                lemma_selected(self.links.entries(), f, k);
                lemma_names_add(
                    selected(self.files.entries(), f),
                    selected(self.links.entries(), f),
                    k,
                );
            }
        }
        Ok(entries)
    }

    fn walk_files(&self, path: &FilePath) -> (r: Result<Vec<FilePath>, FsError>)
        ensures
            r is Ok,
            forall|k: Key| #[trigger]
                names(texts(r->Ok_0@), k) == (under(k, path.key()) && k != path.key() && (
                self.state().files.contains_key(k) || self.state().links.contains_key(k))),
    {
        self.list_dir_recursive(path)
    }

    fn rename(&mut self, from: &FilePath, to: &FilePath) -> (r: Result<(), FsError>)
        ensures
            r is Ok <==> old(self).state().dirs.contains(from.key())
                || old(self).state().files.contains_key(from.key()),
            apart(from.key(), to.key()) || !old(self).state().dirs.contains(from.key())
                ==> final(self).state() == renamed(old(self).state(), from.key(), to.key()),
    {
        let ghost a = *self;
        let ghost f = from.key();
        let ghost t = to.key();
        if self.dirs.contains(from) {
            self.files.relocate(from, to);
            self.dirs.relocate(from, to);
            self.links.relocate(from, to);
            proof {
                let b = *self;
                lemma_moved_tree(a, b, f, t);
                if apart(f, t) {
                    assert(b.state().files =~= relocated(a.state().files, f, t));
                    assert(b.state().dirs =~= relocated_set(a.state().dirs, f, t));
                }
            }
            return Ok(());
        }
        match self.files.remove(from) {
            Some(data) => {
                self.files.insert(to.clone(), data);
                proof {
                    let b = *self;
                    lemma_moved_file(a, b, f, t);
                    assert(b.state().files =~= a.state().files.remove(f).insert(
                        t,
                        a.state().files[f],
                    ));
                }
                Ok(())
            },
            None => {
                assert(self.state().files =~= a.state().files);
                Err(FsError::about("file not found: ", from))
            },
        }
    }

    fn create_dir_all(&mut self, path: &FilePath) -> (r: Result<(), FsError>)
        ensures
            r is Ok,
            final(self).state() == (MockView {
                dirs: old(self).state().dirs.union(Set::new(|a: Key| is_ancestor(path.key(), a))),
                ..old(self).state()
            }),
    {
        let ghost before = *self;
        self.add_dir(path);
        proof {
            lemma_accepts(before, *self);
            assert(self.links@ == before.links@);
            assert(is_ancestor(path.key(), path.key())) by {
                assert(path.key().subrange(0, path.key().len() as int) =~= path.key());
            }
            assert(self.state().dirs.contains(path.key()));
            assert forall|k: Key| before.view().dirs.contains(k) implies self.view().dirs.contains(
                k,
            ) by {
                let r = resolved(before.links@, k, MAX_HOPS as nat);
                assert(before.state().dirs.contains(r));
                assert(self.state().dirs.contains(r));
            }
            assert forall|k: Key| #[trigger]
                self.view().dirs.contains(k) && !before.view().dirs.contains(k) implies under(
                path.key(),
                k,
            ) || self.view().links.contains_key(k) by {
                if !self.links@.contains_key(k) {
                    assert(resolved(self.links@, k, MAX_HOPS as nat) == k);
                    assert(is_ancestor(path.key(), k));
                }
            }
        }
        Ok(())
    }

    fn remove_dir_all(&mut self, path: &FilePath) -> (r: Result<(), FsError>)
        ensures
            r is Ok,
            final(self).state() == (MockView {
                files: old(self).state().files.remove_keys(
                    Set::new(|q: Key| under(q, path.key())),
                ),
                dirs: old(self).state().dirs.difference(Set::new(|q: Key| under(q, path.key()))),
                ..old(self).state()
            }),
    {
        let ghost before = *self;
        let files = self.files.take_under(path);
        let dirs = self.dirs.take_under(path);
        proof {
            lemma_accepts(before, *self);
            let below = Set::new(|q: Key| under(q, path.key()));
            assert(self.state().files =~= before.state().files.remove_keys(below)) by {
                assert forall|q: Key| #[trigger] self.files@.contains_key(q) == (
                before.files@.contains_key(q) && !under(q, path.key())) by {}
            }
            assert(self.state().dirs =~= before.state().dirs.difference(below)) by {
                assert forall|q: Key| #[trigger] self.dirs@.contains_key(q) == (
                before.dirs@.contains_key(q) && !under(q, path.key())) by {}
            }
            assert forall|q: Key| !under(q, path.key()) implies #[trigger] same_entry(
                before.view(),
                self.view(),
                q,
            ) by {
                assert(self.files@.contains_key(q) == before.files@.contains_key(q));
                assert(self.dirs@.contains_key(q) == before.dirs@.contains_key(q));
                if !before.links@.contains_key(q) {
                    lemma_no_link(before.links@, q);
                }
            }
            assert forall|q: Key| under(q, path.key()) implies #[trigger] self.view().file(
                q,
            ) is None by {
                assert(!self.files@.contains_key(q));
            }
        }
        Ok(())
    }

    fn remove_dir(&mut self, path: &FilePath) -> (r: Result<(), FsError>)
        ensures
            r is Ok <==> is_empty_dir(old(self).state(), path.key()),
            final(self).state() == (MockView {
                dirs: if r is Ok {
                    old(self).state().dirs.remove(path.key())
                } else {
                    old(self).state().dirs
                },
                ..old(self).state()
            }),
    {
        let ghost before = *self;
        proof {
            assert(path.key().is_prefix_of(path.key())) by {
                assert(path.key().subrange(0, path.key().len() as int) =~= path.key());
            }
            if remove_owed(self.view(), path.key()) {
                assert(!self.view().links.contains_key(path.key()));
                lemma_no_link(self.links@, path.key());
                assert forall|q: Key| under(q, path.key()) implies !#[trigger] self.files@.contains_key(
                    q,
                ) by {
                    assert(self.view().file(q) is None);
                }
                assert forall|q: Key| under(q, path.key()) implies !#[trigger] self.links@.contains_key(
                    q,
                ) by {
                    assert(!self.view().links.contains_key(q));
                }
                assert forall|q: Key|
                    under(q, path.key()) && q != path.key() implies !#[trigger] self.dirs@.contains_key(
                    q,
                ) by {
                    assert(!self.view().present.contains(q));
                    lemma_no_link(self.links@, q);
                }
            }
        }
        if !self.dirs.contains(path) {
            return Err(FsError::about("directory not found: ", path));
        }
        let holds_files = self.files.any_under(path);
        let holds_links = self.links.any_under(path);
        if holds_files || holds_links {
            proof {
                if holds_files {
                    let q = choose|q: Key| self.files@.contains_key(q) && under(q, path.key());
                    assert(before.state().files.contains_key(q));
                } else {
                    let q = choose|q: Key| self.links@.contains_key(q) && under(q, path.key());
                    assert(before.state().links.contains_key(q));
                }
            }
            return Err(FsError::about("directory not empty: ", path));
        }
        let mut below: Vec<FilePath> = Vec::new();
        self.dirs.push_below(path, &mut below);
        proof {
            self.dirs.lemma_entries();
            assert(texts(below@) =~= selected(self.dirs.entries(), is_below(path.key())));
            assert(below@.len() == texts(below@).len());
        }
        if below.len() > 0 {
            proof {
                let k = below@[0].key();
                assert(components(texts(below@)[0]) == k);
                lemma_selected(self.dirs.entries(), is_below(path.key()), k);
                assert(before.state().dirs.contains(k));
            }
            return Err(FsError::about("directory not empty: ", path));
        }
        proof {
            assert forall|q: Key|
                under(q, path.key()) && q != path.key() implies !#[trigger] before.state().dirs.contains(
                q,
            ) by {
                lemma_selected(self.dirs.entries(), is_below(path.key()), q);
            }
        }
        let removed = self.dirs.remove(path);
        proof {
            lemma_accepts(before, *self);
            assert(self.state().dirs =~= before.state().dirs.remove(path.key()));
            assert(self.view().files =~= before.view().files);
            assert(self.view().links =~= before.view().links);
            assert forall|q: Key| under(q, path.key()) implies #[trigger] before.view().file(
                q,
            ) is None by {
                assert(!before.files@.contains_key(q));
            }
            assert(path.key().is_prefix_of(path.key())) by {
                assert(path.key().subrange(0, path.key().len() as int) =~= path.key());
            }
            assert(under(path.key(), path.key()));
            assert(!before.links@.contains_key(path.key()));
            assert forall|q: Key| under(q, path.key()) implies !#[trigger] self.view().dirs.contains(
                q,
            ) by {
                assert(!before.state().links.contains_key(q));
                lemma_no_link(self.links@, q);
            }
            assert forall|q: Key|
                under(q, path.key()) && q != path.key() implies !#[trigger] before.view().dirs.contains(
                q,
            ) by {
                assert(!before.state().links.contains_key(q));
                lemma_no_link(before.links@, q);
            }
            assert forall|x: Seq<char>| !lists_at(x, path.key()) implies #[trigger] same_listing(
                before.view(),
                self.view(),
                x,
            ) by {
                assert forall|q: Key| is_child(components(x))(q) implies #[trigger] agree(
                    before.dirs@,
                    self.dirs@,
                    q,
                ) by {
                    lemma_lists_elsewhere(x, path.key(), q);
                }
                lemma_same_listing(before, *self, x);
            }
            assert forall|q: Key| !under(q, path.key()) implies #[trigger] same_entry(
                before.view(),
                self.view(),
                q,
            ) by {
                if !before.links@.contains_key(q) {
                    lemma_no_link(before.links@, q);
                }
            }
        }
        Ok(())
    }

    fn remove_file(&mut self, path: &FilePath) -> (r: Result<(), FsError>)
        ensures
            r is Ok <==> old(self).state().files.contains_key(path.key())
                || old(self).state().links.contains_key(path.key()),
            final(self).state() == (MockView {
                files: old(self).state().files.remove(path.key()),
                links: old(self).state().links.remove(path.key()),
                ..old(self).state()
            }),
    {
        let ghost before = *self;
        let file = self.files.remove(path);
        let link = self.links.remove(path);
        proof {
            lemma_accepts(before, *self);
            assert(path.key().is_prefix_of(path.key())) by {
                assert(path.key().subrange(0, path.key().len() as int) =~= path.key());
            }
            assert(self.state().files =~= before.state().files.remove(path.key()));
            assert forall|q: Key| !under(q, path.key()) implies #[trigger] same_entry(
                before.view(),
                self.view(),
                q,
            ) by {
                if !before.links@.contains_key(q) {
                    lemma_no_link(before.links@, q);
                    lemma_no_link(self.links@, q);
                }
            }
        }
        if file.is_some() || link.is_some() {
            Ok(())
        } else {
            assert(self.files@ == before.files@ && self.links@ == before.links@);
            Err(FsError::about("file not found: ", path))
        }
    }

    fn copy_file(&mut self, from: &FilePath, to: &FilePath) -> (r: Result<(), FsError>)
        ensures
            r is Ok <==> old(self).state().files.contains_key(from.key()),
            final(self).state() == if r is Ok {
                MockView {
                    files: old(self).state().files.insert(
                        to.key(),
                        old(self).state().files[from.key()],
                    ),
                    ..old(self).state()
                }
            } else {
                old(self).state()
            },
    {
        let ghost before = *self;
        let data = match self.files.get(from) {
            Some(data) => data.clone(),
            None => {
                return Err(FsError::about("file not found: ", from));
            },
        };
        self.files.insert(to.clone(), data);
        proof {
            lemma_accepts(before, *self);
            assert(self.view().files =~= before.view().files.insert(
                to.key(),
                before.view().files[from.key()],
            ));
            assert(self.view().dirs =~= before.view().dirs);
            assert(self.view().device =~= before.view().device);
            assert(self.view().writable =~= before.view().writable);
        }
        Ok(())
    }
}

/// What is refused depends on the directories that take no entry.
proof fn lemma_accepts(a: MockFs, b: MockFs)
    requires
        a.state().readonly == b.state().readonly,
    ensures
        b.view().accepts == a.view().accepts,
{
    assert(b.view().accepts =~= a.view().accepts);
}

/// What is no link leads to itself.
proof fn lemma_no_link(links: Map<Key, FilePath>, k: Key)
    requires
        !links.contains_key(k),
    ensures
        resolved(links, k, MAX_HOPS as nat) == k,
{
}

/// Going from one place to the other and back.
/// What a directory lists: everything that lies in it.
proof fn lemma_listed(fs: MockFs, dir: Key, k: Key)
    ensures
        names(fs.listed(is_child(dir)), k) == (is_child(dir)(k) && (fs.files@.contains_key(k)
            || fs.dirs@.contains_key(k) || fs.links@.contains_key(k))),
{
    let f = is_child(dir);
    lemma_selected(fs.files.entries(), f, k);
    lemma_selected(fs.dirs.entries(), f, k);
    lemma_selected(fs.links.entries(), f, k);
    fs.files.lemma_entries();
    fs.dirs.lemma_entries();
    fs.links.lemma_entries();
    lemma_names_add(selected(fs.files.entries(), f), selected(fs.dirs.entries(), f), k);
    lemma_names_add(
        selected(fs.files.entries(), f) + selected(fs.dirs.entries(), f),
        selected(fs.links.entries(), f),
        k,
    );
}

/// A directory lists the same where its own entries are the same.
proof fn lemma_same_listing(a: MockFs, b: MockFs, t: Seq<char>)
    requires
        forall|q: Key|
            is_child(components(t))(q) ==> #[trigger] agree(a.files@, b.files@, q),
        forall|q: Key| is_child(components(t))(q) ==> #[trigger] agree(a.dirs@, b.dirs@, q),
        forall|q: Key|
            is_child(components(t))(q) ==> #[trigger] agree(a.links@, b.links@, q),
    ensures
        same_listing(a.view(), b.view(), t),
{
    assert forall|k: Key| #[trigger]
        names(b.view().listing[t], k) == names(a.view().listing[t], k) by {
        lemma_listed(a, components(t), k);
        lemma_listed(b, components(t), k);
        if is_child(components(t))(k) {
            assert(agree(a.files@, b.files@, k));
            assert(agree(a.dirs@, b.dirs@, k));
            assert(agree(a.links@, b.links@, k));
        }
    }
}

/// What lies in a directory that is neither at, below nor around `k` lies not at
/// `k` or below it.
proof fn lemma_lists_elsewhere(t: Seq<char>, k: Key, q: Key)
    requires
        !lists_at(t, k),
        is_child(components(t))(q),
    ensures
        !under(q, k),
{
    let up = components(t);
    if under(q, k) {
        if q.len() == k.len() {
            assert(q =~= k);
        } else {
            assert(up.subrange(0, k.len() as int) =~= k) by {
                assert(q.subrange(0, k.len() as int) =~= k);
            }
        }
    }
}

proof fn lemma_there_and_back(o: Key, from: Key, to: Key)
    requires
        under(o, from),
    ensures
        under(origin(o, to, from), to),
        origin(origin(o, to, from), from, to) == o,
{
    let p = origin(o, to, from);
    let rest = o.skip(from.len() as int);
    assert(o =~= from + rest);
    assert(p.subrange(0, to.len() as int) =~= to);
    assert(p.skip(to.len() as int) =~= rest);
}

/// What is relocated to where nothing was, and back again, is as it was.
proof fn lemma_relocated_back<V>(m: Map<Key, V>, from: Key, to: Key)
    requires
        forall|q: Key| under(q, to) ==> !#[trigger] m.contains_key(q),
    ensures
        relocated(relocated(m, from, to), to, from) == m,
{
    let t = relocated(m, from, to);
    let b = relocated(t, to, from);
    assert forall|q: Key| #[trigger] b.dom().contains(q) == m.dom().contains(q) by {
        if under(q, from) {
            lemma_there_and_back(q, from, to);
            assert(t.contains_key(origin(q, to, from)) == m.contains_key(q));
        } else if m.contains_key(q) {
            assert(t.contains_key(q));
        }
    }
    assert forall|q: Key| m.dom().contains(q) implies #[trigger] b[q] == m[q] by {
        if under(q, from) {
            lemma_there_and_back(q, from, to);
            assert(t.contains_key(origin(q, to, from)));
        } else {
            assert(t.contains_key(q));
        }
    }
    assert(b =~= m);
}

/// Renamed there and back again, everything is as it was: files, directories
/// and links, wherever nothing stood in the way.
pub proof fn law_rename_there_and_back(s: MockView, from: Key, to: Key)
    requires
        s.dirs.contains(from) || s.files.contains_key(from),
        !under(to, from),
        forall|q: Key| under(q, to) ==> !#[trigger] s.files.contains_key(q),
        forall|q: Key| under(q, to) ==> !#[trigger] s.dirs.contains(q),
        forall|q: Key| under(q, to) ==> !#[trigger] s.links.contains_key(q),
    ensures
        renamed(renamed(s, from, to), to, from) == s,
{
    let t = renamed(s, from, to);
    let b = renamed(t, to, from);
    assert(under(from, from)) by {
        assert(from.is_prefix_of(from));
    }
    assert(under(to, to)) by {
        assert(to.is_prefix_of(to));
    }
    if s.dirs.contains(from) {
        assert(origin(to, from, to) =~= from);
        assert(t.dirs.contains(to));
        lemma_relocated_back(s.files, from, to);
        lemma_relocated_back(s.links, from, to);
        assert forall|q: Key| b.dirs.contains(q) == s.dirs.contains(q) by {
            if under(q, from) {
                lemma_there_and_back(q, from, to);
                assert(t.dirs.contains(origin(q, to, from)) == s.dirs.contains(q));
            } else if s.dirs.contains(q) {
                assert(t.dirs.contains(q));
            }
        }
        assert(b.dirs =~= s.dirs);
    } else {
        assert(!under(from, to));
        assert(b.files =~= s.files);
    }
}

/// Relocating all three maps moves the directory.
proof fn lemma_moved_tree(a: MockFs, b: MockFs, f: Key, t: Key)
    requires
        a.dirs@.contains_key(f),
        a.writes@ == b.writes@ && a.readonly@ == b.readonly@ && a.devices@ == b.devices@,
        forall|q: Key| !under(q, f) && !under(q, t) ==> #[trigger] agree(a.files@, b.files@, q),
        forall|q: Key| !under(q, f) && !under(q, t) ==> #[trigger] agree(a.dirs@, b.dirs@, q),
        forall|q: Key| !under(q, f) && !under(q, t) ==> #[trigger] agree(a.links@, b.links@, q),
        apart(f, t) ==> b.files@ == relocated(a.files@, f, t),
        apart(f, t) ==> b.dirs@ == relocated(a.dirs@, f, t),
        apart(f, t) ==> b.links@ == relocated(a.links@, f, t),
    ensures
        moved(a.view(), b.view(), f, t),
{
    lemma_accepts(a, b);
    let va = a.view();
    let vb = b.view();
    assert forall|q: Key| !under(q, f) && !under(q, t) implies #[trigger] same_entry(va, vb, q) by {
        assert(agree(a.files@, b.files@, q));
        assert(agree(a.links@, b.links@, q));
        assert(agree(a.dirs@, b.dirs@, q));
        if !a.links@.contains_key(q) {
            lemma_no_link(a.links@, q);
            lemma_no_link(b.links@, q);
        }
    }
    assert forall|x: Seq<char>| !lists_at(x, f) && !lists_at(x, t) implies #[trigger] same_listing(
        va,
        vb,
        x,
    ) by {
        assert forall|q: Key| is_child(components(x))(q) implies !under(q, f) && !under(
            q,
            t,
        ) by {
            lemma_lists_elsewhere(x, f, q);
            lemma_lists_elsewhere(x, t, q);
        }
        lemma_same_listing(a, b, x);
    }
    assert(f.is_prefix_of(f)) by {
        assert(f.subrange(0, f.len() as int) =~= f);
    }
    assert(t.is_prefix_of(t)) by {
        assert(t.subrange(0, t.len() as int) =~= t);
    }
    if apart(f, t) {
        lemma_there_and_back(f, f, t);
        assert(origin(f, t, f) =~= t);
        assert forall|o: Key| under(o, f) && #[trigger] a.links@.contains_key(o) implies same_link(
            va,
            o,
            vb,
            origin(o, t, f),
        ) by {
            lemma_there_and_back(o, f, t);
        }
        assert forall|q: Key| under(q, f) implies !#[trigger] b.links@.contains_key(q)
            && !b.dirs@.contains_key(q) && !b.files@.contains_key(q) by {
            if under(q, t) {
                lemma_prefixes(q, f, t);
            }
        }
    }
    if !va.links.contains_key(f) && apart(f, t) {
        lemma_no_link(a.links@, f);
        assert(va.dirs.contains(f));
        assert forall|q: Key| #[trigger]
            vb.file(q) == if arrives(va, f, t, q) {
                va.file(origin(q, f, t))
            } else if leaves(va, f, q) {
                None
            } else {
                va.file(q)
            } by {
            assert(b.files@.contains_key(q) == relocated(a.files@, f, t).contains_key(q));
            if under(q, t) {
                assert(!under(q, f)) by {
                    if under(q, f) {
                        lemma_prefixes(q, f, t);
                    }
                }
            }
        }
        assert forall|q: Key| #[trigger]
            arrives(va, f, t, q) && !vb.links.contains_key(q) implies vb.present.contains(q) by {
            lemma_no_link(b.links@, q);
            assert(b.files@.contains_key(q));
        }
        assert forall|q: Key| under(q, f) implies !#[trigger] vb.dirs.contains(q) by {
            assert(!b.links@.contains_key(q));
            lemma_no_link(b.links@, q);
        }
        assert forall|q: Key| under(q, f) implies !#[trigger] vb.present.contains(q) by {
            assert(!b.links@.contains_key(q));
            lemma_no_link(b.links@, q);
        }
        assert forall|o: Key|
            under(o, f) && #[trigger] va.dirs.contains(o) && !va.links.contains_key(o)
                && !va.links.contains_key(origin(o, t, f)) implies vb.dirs.contains(
            origin(o, t, f),
        ) by {
            lemma_there_and_back(o, f, t);
            lemma_no_link(a.links@, o);
            let p = origin(o, t, f);
            assert(!b.links@.contains_key(p));
            lemma_no_link(b.links@, p);
            assert(b.dirs@.contains_key(p));
        }
        assert(moved_tree(va, vb, f, t));
    }
}

/// Two paths above a third are not apart.
proof fn lemma_prefixes(q: Key, f: Key, t: Key)
    requires
        under(q, f),
        under(q, t),
    ensures
        !apart(f, t),
{
    if f.len() <= t.len() {
        assert(t.subrange(0, f.len() as int) =~= f);
    } else {
        assert(f.subrange(0, t.len() as int) =~= t);
    }
}

/// Taking a file out and putting it in elsewhere moves the file.
proof fn lemma_moved_file(a: MockFs, b: MockFs, f: Key, t: Key)
    requires
        !a.dirs@.contains_key(f),
        a.files@.contains_key(f),
        b.files@ == a.files@.remove(f).insert(t, a.files@[f]),
        b.dirs@ == a.dirs@,
        b.links@ == a.links@,
        a.writes@ == b.writes@ && a.readonly@ == b.readonly@ && a.devices@ == b.devices@,
    ensures
        moved(a.view(), b.view(), f, t),
{
    lemma_accepts(a, b);
    let va = a.view();
    let vb = b.view();
    assert(f.is_prefix_of(f)) by {
        assert(f.subrange(0, f.len() as int) =~= f);
    }
    assert(t.is_prefix_of(t)) by {
        assert(t.subrange(0, t.len() as int) =~= t);
    }
    assert(va.dirs =~= vb.dirs);
    assert forall|q: Key| !under(q, f) && !under(q, t) implies #[trigger] same_entry(va, vb, q) by {
        assert(q != f && q != t);
        if !a.links@.contains_key(q) {
            lemma_no_link(a.links@, q);
        }
    }
    assert forall|x: Seq<char>| !lists_at(x, f) && !lists_at(x, t) implies #[trigger] same_listing(
        va,
        vb,
        x,
    ) by {
        assert forall|q: Key| is_child(components(x))(q) implies #[trigger] agree(
            a.files@,
            b.files@,
            q,
        ) by {
            lemma_lists_elsewhere(x, f, q);
            lemma_lists_elsewhere(x, t, q);
        }
        lemma_same_listing(a, b, x);
    }
    if !va.links.contains_key(f) && apart(f, t) {
        lemma_no_link(a.links@, f);
        assert(!va.dirs.contains(f));
        assert(origin(t, f, t) =~= f);
        if !vb.links.contains_key(t) {
            lemma_no_link(b.links@, t);
        }
        assert forall|q: Key|
            under(q, f) && q != f && #[trigger] vb.present.contains(q) && !va.links.contains_key(
                q,
            ) implies va.present.contains(q) by {
            lemma_no_link(a.links@, q);
            if q == t {
                assert(under(t, f));
            }
        }
    }
}

/// The nearest mount point decides the device.
proof fn lemma_device(entries: Seq<(FilePath, u64)>, k: Key, n: int, b: int)
    requires
        crate::path_map::distinct(entries),
        0 <= b < entries.len(),
        0 <= n <= k.len(),
        under(k, entries[b].0.key()),
        entries[b].0.key().len() <= n,
        forall|j: int|
            0 <= j < entries.len() && under(k, (#[trigger] entries[j]).0.key())
                ==> entries[j].0.key().len() <= entries[b].0.key().len(),
    ensures
        device_above(map_of(entries), k, n as nat) == entries[b].1,
    decreases n,
{
    let m = map_of(entries);
    let a = entries[b].0.key();
    lemma_map_of(entries, b);
    if a.len() == n {
        assert(k.take(n) =~= a);
    } else {
        if m.contains_key(k.take(n)) {
            let j = choose|j: int| is_for(entries, k.take(n), j);
            assert(is_for(entries, k.take(n), j));
            assert(k.take(n).is_prefix_of(k)) by {
                assert(k.subrange(0, n) =~= k.take(n));
            }
        }
        lemma_device(entries, k, n - 1, b);
    }
}

/// Without a mount point above there is no device to tell.
proof fn lemma_no_device(entries: Seq<(FilePath, u64)>, k: Key, n: int)
    requires
        0 <= n <= k.len(),
        forall|j: int| 0 <= j < entries.len() ==> !under(k, (#[trigger] entries[j]).0.key()),
    ensures
        device_above(map_of(entries), k, n as nat) == 0,
    decreases n,
{
    let m = map_of(entries);
    if m.contains_key(k.take(n)) {
        let j = choose|j: int| is_for(entries, k.take(n), j);
        assert(is_for(entries, k.take(n), j));
        assert(k.take(n).is_prefix_of(k)) by {
            assert(k.subrange(0, n) =~= k.take(n));
        }
    }
    if n > 0 {
        lemma_no_device(entries, k, n - 1);
    }
}

/// A directory lists what lies in it, whether file, directory or link, and nothing that
/// lies deeper or elsewhere.
pub proof fn law_directories_list_what_lies_in_them(fs: MockFs, t: Seq<char>, c: Seq<char>, k: Key)
    requires
        c.len() > 0 && !c.contains('/'),
    ensures
        ({
            let e = components(t).push(c);
            names(fs.view().listing[t], e) <==> fs.state().files.contains_key(e)
                || fs.state().dirs.contains(e) || fs.state().links.contains_key(e)
        }),
        names(fs.view().listing[t], k) ==> k.len() == components(t).len() + 1 && under(
            k,
            components(t),
        ),
{
    let dir = components(t);
    let e = dir.push(c);
    lemma_listed(fs, dir, e);
    lemma_listed(fs, dir, k);
    assert(e.drop_last() =~= dir);
    assert(c != slash()) by {
        assert(slash()[0] == '/');
        assert(c.contains(c[0]));
    }
    assert(has_parent(e));
    if is_child(dir)(k) {
        assert(k.subrange(0, dir.len() as int) =~= dir);
    }
}

/// A walk through a directory meets every file and link below it, at any depth, and
/// nothing else.
pub proof fn law_walks_meet_what_lies_below(fs: MockFs, t: Seq<char>, rest: Key, k: Key)
    requires
        rest.len() > 0,
    ensures
        ({
            let e = components(t) + rest;
            names(fs.view().walk[t], e) <==> fs.state().files.contains_key(e)
                || fs.state().links.contains_key(e)
        }),
        names(fs.view().walk[t], k) ==> under(k, components(t)) && k != components(t),
        fs.view().tree[t] == fs.view().walk[t],
{
    let dir = components(t);
    let e = dir + rest;
    assert(e.subrange(0, dir.len() as int) =~= dir);
    assert(e.len() > dir.len());
    lemma_walked(fs, dir, e);
    lemma_walked(fs, dir, k);
}

proof fn lemma_walked(fs: MockFs, dir: Key, k: Key)
    ensures
        names(fs.below(is_below(dir)), k) == (is_below(dir)(k) && (fs.files@.contains_key(k)
            || fs.links@.contains_key(k))),
{
    let f = is_below(dir);
    lemma_selected(fs.files.entries(), f, k);
    lemma_selected(fs.links.entries(), f, k);
    fs.files.lemma_entries();
    fs.links.lemma_entries();
    lemma_names_add(selected(fs.files.entries(), f), selected(fs.links.entries(), f), k);
}

/// A path that is no link leads to itself, and a link leads where its target does.
pub proof fn law_links_are_followed(links: Map<Key, FilePath>, k: Key, hops: nat)
    ensures
        !links.contains_key(k) ==> resolved(links, k, hops) == k,
        links.contains_key(k) ==> resolved(links, k, hops + 1) == resolved(
            links,
            links[k].key(),
            hops,
        ),
        links.contains_key(k) && !links.contains_key(links[k].key()) ==> resolved(
            links,
            k,
            hops + 1,
        ) == links[k].key(),
{
    reveal_with_fuel(resolved, 3);
}

/// What is there: files and directories, also where a link leads to them.
pub proof fn law_links_show_what_they_lead_to(fs: MockFs, k: Key)
    ensures
        !fs.state().links.contains_key(k) ==> {
            &&& fs.view().dirs.contains(k) <==> fs.state().dirs.contains(k)
            &&& fs.view().regular.contains(k) <==> fs.state().files.contains_key(k)
            &&& fs.view().present.contains(k) <==> fs.state().dirs.contains(k)
                || fs.state().files.contains_key(k)
        },
        fs.state().links.contains_key(k) && !fs.state().links.contains_key(
            fs.state().links[k].key(),
        ) ==> {
            let q = fs.state().links[k].key();
            &&& fs.view().dirs.contains(k) <==> fs.state().dirs.contains(q)
            &&& fs.view().regular.contains(k) <==> fs.state().files.contains_key(q)
            &&& fs.view().present.contains(k) <==> fs.state().dirs.contains(q)
                || fs.state().files.contains_key(q)
        },
        fs.view().file(k) is Some <==> fs.state().files.contains_key(k),
        fs.view().writable.contains(k) <==> !fs.state().readonly.contains(k),
{
    let n = (MAX_HOPS - 1) as nat;
    law_links_are_followed(fs.state().links, k, n);
    assert(n + 1 == MAX_HOPS);
}

/// A path is on the device of the nearest mount point at or above it.
pub proof fn law_nearest_mount_decides(devices: Map<Key, u64>, base: Key, rest: Key)
    requires
        forall|n: int| base.len() < n <= base.len() + rest.len() ==> !devices.contains_key(
            #[trigger] (base + rest).take(n),
        ),
    ensures
        devices.contains_key(base) ==> device_above(
            devices,
            base + rest,
            (base + rest).len(),
        ) == devices[base],
        base.len() == 0 && !devices.contains_key(base) ==> device_above(
            devices,
            base + rest,
            (base + rest).len(),
        ) == 0,
{
    lemma_mount_above(devices, base, rest, (base.len() + rest.len()) as nat);
}

proof fn lemma_mount_above(devices: Map<Key, u64>, base: Key, rest: Key, n: nat)
    requires
        base.len() <= n <= base.len() + rest.len(),
        forall|n: int| base.len() < n <= base.len() + rest.len() ==> !devices.contains_key(
            #[trigger] (base + rest).take(n),
        ),
    ensures
        devices.contains_key(base) ==> device_above(devices, base + rest, n) == devices[base],
        base.len() == 0 && !devices.contains_key(base) ==> device_above(devices, base + rest, n)
            == 0,
    decreases n,
{
    if n == base.len() {
        assert((base + rest).take(n as int) =~= base);
    } else {
        assert(!devices.contains_key((base + rest).take(n as int)));
        lemma_mount_above(devices, base, rest, (n - 1) as nat);
    }
}

/// A directory takes all that is below it along when it is renamed, and a file goes by
/// itself; everything else stays.
pub proof fn law_rename_takes_everything_along(
    s: MockView,
    from: Key,
    to: Key,
    rest: Key,
    q: Key,
)
    requires
        apart(from, to),
        !under(q, from) && !under(q, to),
    ensures
        s.dirs.contains(from) ==> {
            let r = renamed(s, from, to);
            &&& s.files.contains_key(from + rest) ==> r.files.contains_key(to + rest)
                && r.files[to + rest] == s.files[from + rest]
            &&& s.dirs.contains(from + rest) ==> r.dirs.contains(to + rest)
            &&& s.links.contains_key(from + rest) ==> r.links.contains_key(to + rest)
                && r.links[to + rest] == s.links[from + rest]
            &&& !r.files.contains_key(from + rest) && !r.dirs.contains(from + rest)
                && !r.links.contains_key(from + rest)
        },
        !s.dirs.contains(from) && s.files.contains_key(from) ==> {
            let r = renamed(s, from, to);
            &&& r.files.contains_key(to) && r.files[to] == s.files[from]
            &&& !r.files.contains_key(from)
        },
        renamed(s, from, to).files.contains_key(q) == s.files.contains_key(q),
        s.files.contains_key(q) ==> renamed(s, from, to).files[q] == s.files[q],
        renamed(s, from, to).dirs.contains(q) == s.dirs.contains(q),
{
    let a = from + rest;
    let b = to + rest;
    assert(b.skip(to.len() as int) =~= rest);
    assert(b.subrange(0, to.len() as int) =~= to);
    assert(a.subrange(0, from.len() as int) =~= from);
    if under(a, to) {
        lemma_prefixes(a, from, to);
    }
    assert(q != from) by {
        assert(from.is_prefix_of(from));
    }
    assert(q != to) by {
        assert(to.is_prefix_of(to));
    }
    assert(from != to) by {
        assert(to.is_prefix_of(to));
    }
}

/// A file can be written unless its directory takes no entries.
pub proof fn law_what_can_be_written(s: MockView, dir: Key, c: Seq<char>)
    requires
        c.len() > 0 && !c.contains('/'),
    ensures
        is_open(s, dir.push(c)) <==> !s.readonly.contains(dir),
{
    assert(dir.push(c).drop_last() =~= dir);
    assert(c != slash()) by {
        assert(slash()[0] == '/');
        assert(c.contains(c[0]));
    }
}

/// A directory comes with all those above it.
pub proof fn law_directories_come_with_those_above(base: Key, rest: Key, a: Key)
    ensures
        base.len() > 0 ==> is_ancestor(base + rest, base),
        is_ancestor(base, a) ==> a.len() <= base.len() && a == base.take(a.len() as int),
{
    assert((base + rest).subrange(0, base.len() as int) =~= base);
    if is_ancestor(base, a) {
        assert(base.subrange(0, a.len() as int) =~= a);
    }
}

} // verus!
