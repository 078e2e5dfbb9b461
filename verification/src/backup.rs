//! Backups: archives of everything that refers to a project, and the way back
//! from them.

use vstd::prelude::*;
use vstd::string::*;
use vstd::utf8::decode_utf8;
use vstd::utf8::encode_utf8;
use vstd::utf8::valid_utf8;

use crate::archive::all_storable;
use crate::archive::append_file;
use crate::archive::archived;
use crate::archive::archives;
use crate::archive::entry_views;
use crate::archive::finish_archive;
use crate::archive::held;
use crate::archive::new_archive;
use crate::archive::read_archive;
use crate::archive::storable;
use crate::archive::whole;
use crate::archive::ArchiveWriter;
use crate::archive::Entries;
use crate::encoder::encode;
use crate::encoder::encoded;
use crate::error::Error;
use crate::fs::grown;
use crate::fs::same_books;
use crate::fs::spoiled;
use crate::fs::texts;
use crate::fs::wrote;
use crate::fs::Fs;
use crate::fs::FsView;
use crate::home::names_sound;
use crate::home::Home;
use crate::home::HomeView;
use crate::json::array_items;
use crate::json::empty_object;
use crate::json::holds_strings;
use crate::json::insert_member;
use crate::json::items;
use crate::json::member;
use crate::json::members;
use crate::json::object_keys;
use crate::json::parse_json;
use crate::json::parsed;
use crate::json::pretty;
use crate::json::print_pretty;
use crate::json::same_strings;
use crate::json::string_of_text;
use crate::json::string_text;
use crate::json::text_of_string;
use crate::path::components;
use crate::path::dot_dot;
use crate::path::has_parent;
use crate::path::is_plain;
use crate::path::join_text;
use crate::path::lemma_components_join;
use crate::path::lemma_strip_components;
use crate::path::opt_text;
use crate::path::strip_text;
use crate::path::under;
use crate::path::FilePath;
use crate::path::Key;
use crate::scanner::global_dir_in;
use crate::substitution::holds_at;
use crate::substitution::text_at;
use crate::text::chars_of;
use crate::text::lemma_split_single;
use crate::text::string_of;
use crate::text::text_from_utf8;

verus! {

/// What an archive says about itself.
#[derive(Debug)]
pub struct BackupManifest {
    pub source_path: FilePath,
    pub claude_home: FilePath,
    pub timestamp: String,
    pub version: String,
}

/// The texts of a manifest.
pub struct ManifestView {
    pub source: Seq<char>,
    pub home: Seq<char>,
    pub timestamp: Seq<char>,
    pub version: Seq<char>,
}

impl View for BackupManifest {
    type V = ManifestView;

    open spec fn view(&self) -> ManifestView {
        ManifestView {
            source: self.source_path@,
            home: self.claude_home@,
            timestamp: self.timestamp@,
            version: self.version@,
        }
    }
}

/// The version that writes the archives.
pub const VERSION: &'static str = "0.3.0";

/// Whether the object `v` says `m`.
pub open spec fn says(v: serde_json::Value, m: ManifestView) -> bool {
    &&& string_member(v, "source_path"@) == Some(m.source)
    &&& string_member(v, "claude_home"@) == Some(m.home)
    &&& string_member(v, "timestamp"@) == Some(m.timestamp)
    &&& string_member(v, "version"@) == Some(m.version)
}

/// The string under a key of an object.
pub open spec fn string_member(v: serde_json::Value, key: Seq<char>) -> Option<Seq<char>> {
    if members(v) is Some && members(v)->0.contains_key(key) {
        string_text(members(v)->0[key])
    } else {
        None
    }
}

/// Whether the array `v` says `m`, member by member.
pub open spec fn lists(v: serde_json::Value, m: ManifestView) -> bool {
    &&& members(v) is None && items(v) is Some && items(v)->0.len() == 4
    &&& string_text(items(v)->0[0]) == Some(m.source)
    &&& string_text(items(v)->0[1]) == Some(m.home)
    &&& string_text(items(v)->0[2]) == Some(m.timestamp)
    &&& string_text(items(v)->0[3]) == Some(m.version)
}

/// Whether the contents of a file are a manifest that says `m`: an object with its
/// members under their names, or an array with them in their order.
pub open spec fn is_manifest(data: Seq<u8>, m: ManifestView) -> bool {
    &&& valid_utf8(data) && parsed(decode_utf8(data)) is Some
    &&& says(parsed(decode_utf8(data))->0, m) || lists(parsed(decode_utf8(data))->0, m)
}

/// The manifest that the contents of a file are, if they are one.
pub open spec fn manifest_in(data: Seq<u8>) -> Option<ManifestView> {
    if exists|m: ManifestView| is_manifest(data, m) {
        Some(choose|m: ManifestView| is_manifest(data, m))
    } else {
        None
    }
}

/// The contents of a file say one thing.
proof fn lemma_manifest_in(data: Seq<u8>, m: ManifestView)
    requires
        is_manifest(data, m),
    ensures
        manifest_in(data) == Some(m),
{
    let n = choose|n: ManifestView| is_manifest(data, n);
    assert(is_manifest(data, n));
    assert(n.source == m.source && n.home == m.home);
}

/// The four members of a manifest have different names.
proof fn lemma_names()
    ensures
        "source_path"@ != "claude_home"@,
        "source_path"@ != "timestamp"@,
        "source_path"@ != "version"@,
        "claude_home"@ != "timestamp"@,
        "claude_home"@ != "version"@,
        "timestamp"@ != "version"@,
{
    reveal_strlit("source_path");
    reveal_strlit("claude_home");
    reveal_strlit("timestamp");
    reveal_strlit("version");
    assert("source_path"@[0] != "claude_home"@[0]);
    assert("timestamp"@.len() != "version"@.len());
}

/// `v` is the object that says `m` and nothing else.
pub open spec fn is_manifest_value(v: serde_json::Value, m: ManifestView) -> bool {
    says(v, m) && members(v)->0.dom() == set![
        "source_path"@,
        "claude_home"@,
        "timestamp"@,
        "version"@,
    ]
}

/// The text of the manifest in an archive: the manifest printed as an object. Read
/// again, it says the same.
fn manifest_text(m: &BackupManifest) -> (r: Result<String, String>)
    ensures
        r is Ok,
        r matches Ok(text) ==> is_manifest(encode_utf8(text@), m@)
            && exists|v: serde_json::Value| #[trigger]
            is_manifest_value(v, m@) && text@ == pretty(v),
{
    let mut v = empty_object();
    insert_member(
        &mut v,
        "source_path".to_owned(),
        string_of_text(m.source_path.as_str()),
    );
    insert_member(
        &mut v,
        "claude_home".to_owned(),
        string_of_text(m.claude_home.as_str()),
    );
    insert_member(&mut v, "timestamp".to_owned(), string_of_text(m.timestamp.as_str()));
    insert_member(&mut v, "version".to_owned(), string_of_text(m.version.as_str()));
    proof {
        lemma_names();
        assert(says(v, m@));
        assert(holds_strings(v));
        assert(members(v)->0.dom() =~= set![
            "source_path"@,
            "claude_home"@,
            "timestamp"@,
            "version"@,
        ]);
        assert(is_manifest_value(v, m@));
    }
    let r = print_pretty(&v);
    proof {
        if let Ok(text) = &r {
            vstd::utf8::encode_utf8_valid_utf8(text@);
            vstd::utf8::encode_utf8_decode_utf8(text@);
            let w = parsed(text@)->0;
            assert(same_strings(v, w));
            let all = members(v)->0;
            assert(all.dom().contains("source_path"@));
            assert(all.dom().contains("claude_home"@));
            assert(all.dom().contains("timestamp"@));
            assert(all.dom().contains("version"@));
            assert(says(w, m@));
        }
    }
    r
}

/// The string under a key of an object.
fn read_string(v: &serde_json::Value, key: &str) -> (r: Option<String>)
    ensures
        match r {
            Some(text) => string_member(*v, key@) == Some(text@),
            None => string_member(*v, key@) is None,
        },
{
    match member(v, key) {
        Some(m) => text_of_string(m),
        None => None,
    }
}

/// The string at a place of an array.
fn read_item(a: &Vec<serde_json::Value>, i: usize) -> (r: Option<String>)
    requires
        i < a@.len(),
    ensures
        match r {
            Some(text) => string_text(a@[i as int]) == Some(text@),
            None => string_text(a@[i as int]) is None,
        },
{
    text_of_string(&a[i])
}

/// The four strings of a manifest, as far as they are there.
fn read_members(v: &serde_json::Value) -> (r: (
    Option<String>,
    Option<String>,
    Option<String>,
    Option<String>,
))
    ensures
        match r {
            (Some(source), Some(home), Some(timestamp), Some(version)) => {
                let m = ManifestView {
                    source: source@,
                    home: home@,
                    timestamp: timestamp@,
                    version: version@,
                };
                says(*v, m) || lists(*v, m)
            },
            _ => {
                &&& forall|m: ManifestView| !#[trigger] says(*v, m)
                &&& forall|m: ManifestView| !#[trigger] lists(*v, m)
            },
        },
{
    if object_keys(v).is_some() {
        return (
            read_string(v, "source_path"),
            read_string(v, "claude_home"),
            read_string(v, "timestamp"),
            read_string(v, "version"),
        );
    }
    match array_items(v) {
        Some(a) => if a.len() == 4 {
            (read_item(&a, 0), read_item(&a, 1), read_item(&a, 2), read_item(&a, 3))
        } else {
            (None, None, None, None)
        },
        None => (None, None, None, None),
    }
}

/// What is being done to the manifest `name` when it is found unreadable.
pub open spec fn manifest_fault(data: Seq<u8>, name: Seq<char>) -> Seq<char> {
    (if valid_utf8(data) {
        "parsing "@
    } else {
        "reading "@
    }) + name
}

/// Reads the manifest `name`.
fn read_manifest(data: &Vec<u8>, name: &str) -> (r: Result<BackupManifest, Error>)
    ensures
        match r {
            Ok(m) => manifest_in(data@) == Some(m@),
            Err(e) => manifest_in(data@) is None && (e matches Error::ManifestUnreadable(what, _)
                && what@ == manifest_fault(data@, name@)),
        },
{
    let text = match text_from_utf8(data.clone()) {
        Some(text) => text,
        None => {
            let mut what = "reading ".to_owned();
            what.append(name);
            return Err(
                Error::ManifestUnreadable(what, "stream did not contain valid UTF-8".to_owned()),
            );
        },
    };
    let mut what = "parsing ".to_owned();
    what.append(name);
    let v = match parse_json(text.as_str()) {
        Ok(v) => v,
        Err(message) => {
            return Err(Error::ManifestUnreadable(what, message));
        },
    };
    match read_members(&v) {
        (Some(source), Some(home), Some(timestamp), Some(version)) => {
            let ghost said = ManifestView {
                source: source@,
                home: home@,
                timestamp: timestamp@,
                version: version@,
            };
            assert(is_manifest(data@, said));
            let m = BackupManifest {
                source_path: FilePath::from_string(source),
                claude_home: FilePath::from_string(home),
                timestamp,
                version,
            };
            proof {
                assert(m@ == said);
                lemma_manifest_in(data@, m@);
            }
            Ok(m)
        },
        _ => {
            proof {
                if exists|m: ManifestView| is_manifest(data@, m) {
                    let m = choose|m: ManifestView| is_manifest(data@, m);
                    assert(says(v, m) || lists(v, m));
                    assert(false);
                }
            }
            Err(Error::ManifestUnreadable(what, "a member is missing".to_owned()))
        },
    }
}

/// Whether a file is passed over: a link that leads nowhere, or to something
/// that cannot be read.
pub open spec fn passed_over(v: FsView, e: Seq<char>) -> bool {
    v.links.contains_key(components(e)) && (!v.present.contains(components(e)) || v.file(
        components(e),
    ) is None)
}

/// The links below `dir` that a backup passes over.
pub open spec fn passed_links(v: FsView, dir: Option<FilePath>) -> Seq<Seq<char>> {
    match dir {
        Some(d) => if v.walk.contains_key(d@) {
            v.walk[d@].filter(|e: Seq<char>| passed_over(v, e))
        } else {
            Seq::empty()
        },
        None => Seq::empty(),
    }
}

/// Notes the links below `dir` that a backup passes over.
pub fn note_passed_links<F: Fs>(fs: &F, dir: &Option<FilePath>, notes: &mut Vec<FilePath>)
    ensures
        texts(final(notes)@) == texts(old(notes)@) + passed_links(fs.view(), *dir),
{
    let ghost start = texts(notes@);
    let found = match dir {
        Some(d) => fs.walk_files(d),
        None => {
            assert(start + Seq::<Seq<char>>::empty() =~= start);
            return;
        },
    };
    let files = match found {
        Ok(files) => files,
        Err(_) => {
            assert(start + Seq::<Seq<char>>::empty() =~= start);
            return;
        },
    };
    let ghost v = fs.view();
    let ghost list = texts(files@);
    let ghost f = |e: Seq<char>| passed_over(v, e);
    let mut i: usize = 0;
    proof {
        reveal(Seq::filter);
        assert(list.take(0) =~= Seq::empty());
        assert(list.take(0).filter(f) =~= Seq::empty());
        assert(texts(notes@) =~= start + list.take(0).filter(f));
    }
    while i < files.len()
        invariant
            v == fs.view(),
            list == texts(files@),
            list.len() == files@.len(),
            f == (|e: Seq<char>| passed_over(v, e)),
            i <= files@.len(),
            texts(notes@) == start + list.take(i as int).filter(f),
        decreases files@.len() - i,
    {
        let file = &files[i];
        proof {
            reveal(Seq::filter);
            assert(list[i as int] == file@);
            assert(list.take(i + 1).drop_last() =~= list.take(i as int));
            assert(list.take(i + 1).last() == file@);
        }
        let ghost had = notes@;
        if fs.is_symlink(file) && (!fs.path_exists(file) || fs.read_bytes(file).is_err()) {
            notes.push(file.clone());
            assert(texts(notes@) =~= texts(had).push(file@));
        }
        i = i + 1;
        assert(texts(notes@) =~= start + list.take(i as int).filter(f));
    }
    assert(list.take(i as int) =~= list);
}

/// The name in an archive of the file `e`, found below `dir`.
pub open spec fn name_in(prefix: Seq<char>, dir: Seq<char>, e: Seq<char>) -> Seq<char> {
    join_text(prefix, strip_text(e, components(dir).len() as int))
}

/// The files below `dir` that go into an archive, under `prefix`.
pub open spec fn dir_entries(
    v: FsView,
    dir: Seq<char>,
    prefix: Seq<char>,
    list: Seq<Seq<char>>,
) -> Entries
    decreases list.len(),
{
    if list.len() == 0 {
        Seq::empty()
    } else {
        let e = list.last();
        let before = dir_entries(v, dir, prefix, list.drop_last());
        if passed_over(v, e) {
            before
        } else {
            before.push((name_in(prefix, dir, e), v.files[components(e)]))
        }
    }
}

/// The first files that go into an archive stay the first.
proof fn lemma_dir_entries_grow(
    v: FsView,
    dir: Seq<char>,
    prefix: Seq<char>,
    list: Seq<Seq<char>>,
    n: int,
)
    requires
        0 <= n <= list.len(),
    ensures
        dir_entries(v, dir, prefix, list.take(n)).is_prefix_of(dir_entries(v, dir, prefix, list)),
    decreases list.len() - n,
{
    let some = dir_entries(v, dir, prefix, list.take(n));
    if n == list.len() {
        assert(list.take(n) =~= list);
        assert(some.subrange(0, some.len() as int) =~= some);
    } else {
        lemma_dir_entries_grow(v, dir, prefix, list, n + 1);
        assert(list.take(n + 1).drop_last() =~= list.take(n));
        let more = dir_entries(v, dir, prefix, list.take(n + 1));
        let all = dir_entries(v, dir, prefix, list);
        assert(all.subrange(0, more.len() as int) =~= more);
        assert(all.subrange(0, some.len() as int) =~= some) by {
            assert forall|i: int| 0 <= i < some.len() implies all[i] == some[i] by {
                assert(all.subrange(0, more.len() as int)[i] == more[i]);
            }
        }
    }
}

/// Whether all that lies below `dir` can go into an archive.
pub open spec fn dir_readable(v: FsView, dir: Seq<char>) -> bool {
    v.walk.contains_key(dir) && files_readable(v, dir, v.walk[dir])
}

pub open spec fn files_readable(v: FsView, dir: Seq<char>, list: Seq<Seq<char>>) -> bool {
    forall|i: int|
        0 <= i < list.len() ==> under(components(#[trigger] list[i]), components(dir)) && (
        passed_over(v, list[i]) || v.file(components(list[i])) is Some)
}

/// Puts the files below `dir` into the archive. Links that lead nowhere are
/// passed over.
fn append_dir_recursive<F: Fs>(
    fs: &F,
    writer: &mut ArchiveWriter,
    dir: &FilePath,
    prefix: &FilePath,
) -> (r: Result<(), Error>)
    ensures
        match r {
            Ok(_) => {
                &&& dir_readable(fs.view(), dir@)
                &&& held(*final(writer)) == held(*old(writer)) + dir_entries(
                    fs.view(),
                    dir@,
                    prefix@,
                    fs.view().walk[dir@],
                )
            },
            Err(e) => {
                ||| e is Archive && fs.view().walk.contains_key(dir@) && !all_storable(
                    dir_entries(fs.view(), dir@, prefix@, fs.view().walk[dir@]),
                )
                ||| !dir_readable(fs.view(), dir@) && (e is Fs || e is Outside)
            },
        },
{
    let files = match fs.walk_files(dir) {
        Ok(files) => files,
        Err(e) => {
            return Err(Error::Fs(e));
        },
    };
    let ghost v = fs.view();
    let ghost list = v.walk[dir@];
    let ghost start = held(*writer);
    let mut i: usize = 0;
    assert(list.take(0) =~= Seq::empty());
    assert(held(*writer) =~= start + dir_entries(v, dir@, prefix@, list.take(0)));
    while i < files.len()
        invariant
            v == fs.view(),
            v.walk.contains_key(dir@),
            list == v.walk[dir@],
            list == texts(files@),
            list.len() == files@.len(),
            i <= files@.len(),
            files_readable(v, dir@, list.take(i as int)),
            held(*writer) == start + dir_entries(v, dir@, prefix@, list.take(i as int)),
        decreases files@.len() - i,
    {
        let file = &files[i];
        let ghost before = held(*writer);
        assert(list[i as int] == file@);
        let below = match file.strip_prefix(dir) {
            Some(below) => below,
            None => {
                return Err(Error::Outside(file.clone(), dir.clone()));
            },
        };
        let name = prefix.join(below.as_str());
        let is_symlink = fs.is_symlink(file);
        let read = fs.read_bytes(file);
        let passed = is_symlink && (!fs.path_exists(file) || read.is_err());
        if !passed {
            match read {
                Ok(data) => {
                    if let Err(message) = append_file(writer, name.as_str(), &data) {
                        proof {
                            let n = i + 1;
                            assert(list.take(n).drop_last() =~= list.take(i as int));
                            assert(list.take(n).last() == file@);
                            let some = dir_entries(v, dir@, prefix@, list.take(n));
                            assert(some.last().0 == name@);
                            lemma_dir_entries_grow(v, dir@, prefix@, list, n);
                            let all = dir_entries(v, dir@, prefix@, list);
                            assert(all[some.len() - 1] == some.last());
                        }
                        return Err(Error::Archive(message));
                    }
                },
                Err(e) => {
                    return Err(Error::Fs(e));
                },
            }
        }
        i = i + 1;
        proof {
            let now = list.take(i as int);
            assert(now.drop_last() =~= list.take(i - 1));
            assert(now.last() == file@);
            assert forall|j: int| 0 <= j < now.len() implies under(
                components(#[trigger] now[j]),
                components(dir@),
            ) && (passed_over(v, now[j]) || v.file(components(now[j])) is Some) by {
                if j < i - 1 {
                    assert(now[j] == list.take(i - 1)[j]);
                }
            }
            assert(held(*writer) =~= start + dir_entries(v, dir@, prefix@, now));
        }
    }
    assert(list.take(i as int) =~= list);
    Ok(())
}

/// What a backup is made of.
pub struct Sources {
    pub project: Seq<char>,
    pub home: HomeView,
    pub global: Seq<char>,
    pub local: Option<Seq<char>>,
    pub mcp: Option<Seq<char>>,
    pub claude_json: Option<Seq<char>>,
    pub timestamp: Seq<char>,
}

pub open spec fn sources(
    project: Seq<char>,
    home: HomeView,
    global: Seq<char>,
    local: Option<FilePath>,
    mcp: Option<FilePath>,
    claude_json: Option<FilePath>,
    timestamp: Seq<char>,
) -> Sources {
    Sources {
        project,
        home,
        global,
        local: opt_text(local),
        mcp: opt_text(mcp),
        claude_json: opt_text(claude_json),
        timestamp,
    }
}

/// The manifest of a backup.
pub open spec fn manifest_of(s: Sources) -> ManifestView {
    ManifestView {
        source: s.project,
        home: s.home.path,
        timestamp: s.timestamp,
        version: VERSION@,
    }
}

/// The directory at `dir`, as it goes into an archive under `prefix`.
pub open spec fn dir_part(v: FsView, dir: Option<Seq<char>>, prefix: Seq<char>) -> Entries {
    match dir {
        Some(d) if v.dirs.contains(components(d)) => dir_entries(v, d, prefix, v.walk[d]),
        _ => Seq::empty(),
    }
}

/// The file at `path`, as it goes into an archive under `name`.
pub open spec fn file_part(v: FsView, path: Option<Seq<char>>, name: Seq<char>) -> Entries {
    match path {
        Some(p) if v.regular.contains(components(p)) => seq![(name, v.files[components(p)])],
        _ => Seq::empty(),
    }
}

/// The files of a backup behind its manifest.
pub open spec fn backup_files(v: FsView, s: Sources) -> Entries {
    dir_part(v, Some(s.global), "global"@) + dir_part(v, s.local, "local/"@ + s.home.local_dir) + file_part(
        v,
        s.mcp,
        "local/.mcp.json"@,
    ) + file_part(v, s.claude_json, s.home.archived_registry)
}

/// Whether the directory at `dir`, where there is one, can be read.
pub open spec fn dir_part_readable(v: FsView, dir: Option<Seq<char>>) -> bool {
    match dir {
        Some(d) => v.dirs.contains(components(d)) ==> dir_readable(v, d),
        None => true,
    }
}

/// Whether the file at `path`, where there is one, can be read.
pub open spec fn file_part_readable(v: FsView, path: Option<Seq<char>>) -> bool {
    match path {
        Some(p) => v.regular.contains(components(p)) ==> v.file(components(p)) is Some,
        None => true,
    }
}

/// Whether everything that goes into a backup can be read.
pub open spec fn backup_readable(v: FsView, s: Sources) -> bool {
    &&& dir_part_readable(v, Some(s.global))
    &&& dir_part_readable(v, s.local)
    &&& file_part_readable(v, s.mcp)
    &&& file_part_readable(v, s.claude_json)
}

/// Whether an archive holds the backup: the manifest first, then the files.
pub open spec fn is_backup(data: Seq<u8>, v: FsView, s: Sources) -> bool {
    exists|m: Seq<u8>| #[trigger]
        is_manifest(m, manifest_of(s)) && archives(
            data,
            seq![(s.home.manifest, m)] + backup_files(v, s),
        )
}

/// Where the backups are kept.
pub open spec fn backup_dir(home: Seq<char>) -> Seq<char> {
    join_text(home, "backups/ccmv"@)
}

/// The path of a backup.
pub open spec fn backup_path(s: Sources) -> Seq<char> {
    join_text(
        backup_dir(s.home.path),
        encoded(s.project) + "-"@ + s.timestamp + ".tar.gz"@,
    )
}

/// `b` is `a` with directories made: no file and no link is different.
pub open spec fn made_dirs(a: FsView, b: FsView) -> bool {
    &&& a.files == b.files
    &&& a.links == b.links
    &&& a.dirs.subset_of(b.dirs)
    &&& a.present.subset_of(b.present)
    &&& same_books(a, b)
}

/// `b` is `a` with directories made that a file at `path` needs, as far as they
/// were missing: no file and no link is different.
pub open spec fn made_room(a: FsView, b: FsView, path: Key) -> bool {
    made_dirs(a, b) && grown(a, b, path.drop_last())
}

/// Puts the file at `path` into the archive, where there is one.
fn append_path<F: Fs>(
    fs: &F,
    writer: &mut ArchiveWriter,
    path: &Option<FilePath>,
    name: &str,
) -> (r: Result<(), Error>)
    ensures
        match r {
            Ok(_) => {
                &&& file_part_readable(fs.view(), opt_text(*path))
                &&& held(*final(writer)) == held(*old(writer)) + file_part(
                    fs.view(),
                    opt_text(*path),
                    name@,
                )
            },
            Err(e) => {
                ||| e is Archive && !all_storable(file_part(fs.view(), opt_text(*path), name@))
                ||| e is Fs && !file_part_readable(fs.view(), opt_text(*path))
            },
        },
{
    let ghost start = held(*writer);
    if let Some(p) = path {
        if fs.is_file(p) {
            let data = match fs.read_bytes(p) {
                Ok(data) => data,
                Err(e) => {
                    return Err(Error::Fs(e));
                },
            };
            if let Err(message) = append_file(writer, name, &data) {
                assert(file_part(fs.view(), opt_text(*path), name@)[0].0 == name@);
                return Err(Error::Archive(message));
            }
        }
    }
    assert(held(*writer) =~= start + file_part(fs.view(), opt_text(*path), name@));
    Ok(())
}

/// `e` reports why the backup cannot be packed: a name cannot be kept, or something
/// cannot be read.
pub open spec fn cannot_pack(e: Error, v: FsView, s: Sources) -> bool {
    match e {
        Error::Archive(_) => !storable(s.home.manifest) || !all_storable(backup_files(v, s)),
        Error::Fs(_) => !backup_readable(v, s),
        Error::Outside(_, _) => !backup_readable(v, s),
        _ => false,
    }
}

/// A name that cannot be kept in a part cannot be kept in the whole.
proof fn lemma_unstorable(a: Entries, b: Entries, c: Entries)
    requires
        !all_storable(b),
    ensures
        !all_storable(a + b + c),
{
    let i = choose|i: int| 0 <= i < b.len() && !storable((#[trigger] b[i]).0);
    assert((a + b + c)[a.len() + i] == b[i]);
}

/// Packs the backup of a project.
fn pack_backup<F: Fs>(
    fs: &F,
    project_path: &FilePath,
    claude_home: &Home,
    global_project_dir: &FilePath,
    local_claude_dir: &Option<FilePath>,
    mcp_json: &Option<FilePath>,
    claude_json: &Option<FilePath>,
    timestamp: &str,
) -> (r: Result<Vec<u8>, Error>)
    ensures
        ({
            let s = sources(
                project_path@,
                claude_home@,
                global_project_dir@,
                *local_claude_dir,
                *mcp_json,
                *claude_json,
                timestamp@,
            );
            match r {
                Ok(data) => backup_readable(fs.view(), s) && is_backup(data@, fs.view(), s),
                Err(e) => cannot_pack(e, fs.view(), s),
            }
        }),
{
    let ghost v = fs.view();
    let ghost s = sources(
        project_path@,
        claude_home@,
        global_project_dir@,
        *local_claude_dir,
        *mcp_json,
        *claude_json,
        timestamp@,
    );
    let ghost p1 = dir_part(v, Some(s.global), "global"@);
    let ghost p2 = dir_part(v, s.local, "local/"@ + s.home.local_dir);
    let ghost p3 = file_part(v, s.mcp, "local/.mcp.json"@);
    let ghost p4 = file_part(v, s.claude_json, s.home.archived_registry);
    let ghost none: Entries = Seq::empty();
    let mut writer = new_archive();
    let manifest = BackupManifest {
        source_path: project_path.clone(),
        claude_home: claude_home.path.clone(),
        timestamp: timestamp.to_owned(),
        version: VERSION.to_owned(),
    };
    assert(manifest@ == manifest_of(s));
    let text = match manifest_text(&manifest) {
        Ok(text) => text,
        Err(message) => {
            return Err(Error::Json(message));
        },
    };
    let bytes = text.as_str().as_bytes_vec();
    if let Err(message) = append_file(&mut writer, claude_home.manifest.as_str(), &bytes) {
        return Err(Error::Archive(message));
    }
    let ghost first = held(writer);
    assert(first =~= seq![(claude_home@.manifest, bytes@)]);
    if fs.is_dir(global_project_dir) {
        let prefix = FilePath::new("global");
        if let Err(e) = append_dir_recursive(fs, &mut writer, global_project_dir, &prefix) {
            proof {
                if !all_storable(p1) {
                    lemma_unstorable(none, p1, p2 + p3 + p4);
                    assert(none + p1 + (p2 + p3 + p4) =~= backup_files(v, s));
                }
            }
            return Err(e);
        }
    }
    assert(held(writer) =~= first + p1);
    let ghost second = held(writer);
    if let Some(dir) = local_claude_dir {
        if fs.is_dir(dir) {
            let mut name = "local/".to_owned();
            name.append(claude_home.local_dir.as_str());
            let prefix = FilePath::from_string(name);
            if let Err(e) = append_dir_recursive(fs, &mut writer, dir, &prefix) {
                proof {
                    if !all_storable(p2) {
                        lemma_unstorable(p1, p2, p3 + p4);
                        assert(p1 + p2 + (p3 + p4) =~= backup_files(v, s));
                    }
                }
                return Err(e);
            }
        }
    }
    assert(held(writer) =~= second + p2);
    if let Err(e) = append_path(fs, &mut writer, mcp_json, "local/.mcp.json") {
        proof {
            if !all_storable(p3) {
                lemma_unstorable(p1 + p2, p3, p4);
                assert(p1 + p2 + p3 + p4 =~= backup_files(v, s));
            }
        }
        return Err(e);
    }
    if let Err(e) = append_path(
        fs,
        &mut writer,
        claude_json,
        claude_home.archived_registry.as_str(),
    ) {
        proof {
            if !all_storable(p4) {
                lemma_unstorable(p1 + p2 + p3, p4, none);
                assert(p1 + p2 + p3 + p4 + none =~= backup_files(v, s));
            }
        }
        return Err(e);
    }
    let ghost all = held(writer);
    proof {
        assert(all =~= first + backup_files(v, s));
        assert(is_manifest(bytes@, manifest_of(s)));
    }
    match finish_archive(writer) {
        Ok(data) => Ok(data),
        Err(message) => Err(Error::Archive(message)),
    }
}

/// Whether the project of a backup is an absolute path.
pub open spec fn is_rooted(s: Sources) -> bool {
    s.project.len() > 0 && s.project[0] == '/'
}

/// The directory for the backups is made on the way from `a` to `mid`.
pub open spec fn made_backup_dir(a: FsView, mid: FsView, s: Sources) -> bool {
    made_dirs(a, mid) && grown(a, mid, components(backup_dir(s.home.path)))
}

/// The backup `data` is packed from `mid` and written.
pub open spec fn backed_up_by(
    a: FsView,
    mid: FsView,
    b: FsView,
    s: Sources,
    data: Seq<u8>,
) -> bool {
    &&& made_backup_dir(a, mid, s)
    &&& backup_readable(mid, s)
    &&& is_backup(data, mid, s)
    &&& wrote(mid, b, components(backup_path(s)), data)
    &&& same_books(mid, b)
}

/// What making a backup does to the file system, and what comes of it.
pub open spec fn backup_step(
    a: FsView,
    b: FsView,
    s: Sources,
    r: Result<FilePath, Error>,
) -> bool {
    match r {
        Ok(p) => {
            &&& is_rooted(s)
            &&& p@ == backup_path(s)
            &&& exists|mid: FsView, data: Seq<u8>| #[trigger] backed_up_by(a, mid, b, s, data)
        },
        Err(e) => exists|mid: FsView| #[trigger]
            made_backup_dir(a, mid, s) && backup_stops(mid, b, s, e),
    }
}

/// Where making a backup stops: the directory cannot be made, the project has no
/// encoded name, the backup cannot be packed, or the file system refuses to write
/// it. The directory is made as far as it can be, and no file changes but the one
/// that could not be written.
pub open spec fn backup_stops(mid: FsView, b: FsView, s: Sources, e: Error) -> bool {
    let path = components(backup_path(s));
    if e is Context {
        &&& b == mid
        &&& *(e->Context_1) is Fs
        &&& !mid.accepts.contains(components(backup_dir(s.home.path)))
    } else if !is_rooted(s) {
        b == mid && e is Encoder
    } else if e is Fs && backup_readable(mid, s) {
        &&& !mid.accepts.contains(path)
        &&& spoiled(mid, b, path) && same_books(mid, b)
    } else {
        b == mid && cannot_pack(e, mid, s)
    }
}

/// A backup of an absolute path is made where nothing is refused, everything can
/// be read and every name can be kept.
pub proof fn law_backup_goes_through(
    a: FsView,
    b: FsView,
    s: Sources,
    r: Result<FilePath, Error>,
)
    requires
        backup_step(a, b, s, r),
        is_rooted(s),
        a.accepts.contains(components(backup_dir(s.home.path))),
        a.accepts.contains(components(backup_path(s))),
        storable(s.home.manifest),
        forall|mid: FsView| #[trigger]
            made_backup_dir(a, mid, s) ==> backup_readable(mid, s) && all_storable(
                backup_files(mid, s),
            ),
    ensures
        r matches Ok(p) && p@ == backup_path(s),
{
}

/// Makes a backup of everything that refers to a project, and gives the path
/// of the archive: `{claude_home}/backups/ccmv/{encoded}-{timestamp}.tar.gz`.
pub fn create_backup<F: Fs>(
    fs: &mut F,
    project_path: &FilePath,
    claude_home: &Home,
    global_project_dir: &FilePath,
    local_claude_dir: &Option<FilePath>,
    mcp_json: &Option<FilePath>,
    claude_json: &Option<FilePath>,
    timestamp: &str,
) -> (r: Result<FilePath, Error>)
    ensures
        backup_step(
            old(fs).view(),
            final(fs).view(),
            sources(
                project_path@,
                claude_home@,
                global_project_dir@,
                *local_claude_dir,
                *mcp_json,
                *claude_json,
                timestamp@,
            ),
            r,
        ),
{
    let ghost a = fs.view();
    let ghost s = sources(
        project_path@,
        claude_home@,
        global_project_dir@,
        *local_claude_dir,
        *mcp_json,
        *claude_json,
        timestamp@,
    );
    let dir = claude_home.path.join("backups/ccmv");
    let made = fs.create_dir_all(&dir);
    assert(made_backup_dir(a, fs.view(), s));
    if let Err(e) = made {
        let mut what = "creating backup directory ".to_owned();
        what.append(dir.as_str());
        return Err(Error::Context(what, Box::new(Error::Fs(e))));
    }
    let ghost mid = fs.view();
    let name = match encode(project_path) {
        Ok(name) => name,
        Err(e) => {
            return Err(Error::Encoder(e));
        },
    };
    let data = match pack_backup(
        fs,
        project_path,
        claude_home,
        global_project_dir,
        local_claude_dir,
        mcp_json,
        claude_json,
        timestamp,
    ) {
        Ok(data) => data,
        Err(e) => {
            return Err(e);
        },
    };
    let mut file = name;
    file.append("-");
    file.append(timestamp);
    file.append(".tar.gz");
    let path = dir.join(file.as_str());
    assert(path@ == backup_path(s));
    let written = fs.write_bytes(&path, &data);
    match written {
        Ok(_) => {
            assert(backed_up_by(a, mid, fs.view(), s, data@));
            Ok(path)
        },
        Err(e) => Err(Error::Fs(e)),
    }
}

/// What follows `prefix` in `name`, where it starts with that.
pub open spec fn behind(name: Seq<char>, prefix: Seq<char>) -> Option<Seq<char>> {
    if text_at(name, 0, prefix) {
        Some(name.skip(prefix.len() as int))
    } else {
        None
    }
}

/// Where the file `name` of an archive belongs, for a manifest that says `m`.
/// Files under other names are not restored.
pub open spec fn target_of(m: ManifestView, name: Seq<char>) -> Option<Seq<char>> {
    match behind(name, "global/"@) {
        Some(rest) => Some(join_text(global_dir_in(m.source, m.home), rest)),
        None => match behind(name, "local/"@) {
            Some(rest) => Some(join_text(m.source, rest)),
            None => None,
        },
    }
}

/// Whether the place of the file `name` cannot be told: it is under a directory
/// that the manifest's path does not give.
pub open spec fn is_astray(m: ManifestView, name: Seq<char>) -> bool {
    behind(name, "global/"@) is Some && !(m.source.len() > 0 && m.source[0] == '/')
}

/// What follows `prefix` in `name`.
fn after_prefix(name: &str, prefix: &str) -> (r: Option<String>)
    ensures
        match r {
            Some(rest) => behind(name@, prefix@) == Some(rest@),
            None => behind(name@, prefix@) is None,
        },
{
    let text = chars_of(name);
    let start = chars_of(prefix);
    if holds_at(&text, 0, &start) {
        let rest = string_of(&text, start.len(), text.len());
        assert(rest@ =~= name@.skip(prefix@.len() as int));
        Some(rest)
    } else {
        None
    }
}

/// Where the file `name` of an archive is restored to, if it is.
pub fn restore_target(manifest: &BackupManifest, name: &str) -> (r: Result<Option<FilePath>, Error>)
    ensures
        match r {
            Ok(target) => !is_astray(manifest@, name@) && opt_text(target) == target_of(
                manifest@,
                name@,
            ),
            Err(e) => is_astray(manifest@, name@) && e is Encoder,
        },
{
    if let Some(rest) = after_prefix(name, "global/") {
        let encoded = match encode(&manifest.source_path) {
            Ok(encoded) => encoded,
            Err(e) => {
                return Err(Error::Encoder(e));
            },
        };
        let dir = manifest.claude_home.join("projects").join(encoded.as_str());
        return Ok(Some(dir.join(rest.as_str())));
    }
    if let Some(rest) = after_prefix(name, "local/") {
        return Ok(Some(manifest.source_path.join(rest.as_str())));
    }
    Ok(None)
}

/// Whether entry `i` is a manifest.
pub open spec fn is_manifest_entry(e: Entries, i: int, man: Seq<char>) -> bool {
    e[i].0 == man
}

/// The manifest that holds behind the first `n` entries: the last one read.
pub open spec fn manifest_at(e: Entries, n: int, man: Seq<char>) -> Option<ManifestView>
    decreases n,
{
    if n <= 0 {
        None
    } else if is_manifest_entry(e, n - 1, man) {
        manifest_in(e[n - 1].1)
    } else {
        manifest_at(e, n - 1, man)
    }
}

/// Whether entry `i` can be restored: a manifest can be read, and any other
/// entry comes behind one and has a place.
pub open spec fn restorable(e: Entries, i: int, man: Seq<char>) -> bool {
    if is_manifest_entry(e, i, man) {
        manifest_in(e[i].1) is Some
    } else {
        manifest_at(e, i, man) is Some && !is_astray(manifest_at(e, i, man)->0, e[i].0)
    }
}

/// Where entry `i` is restored to, if it is.
pub open spec fn entry_target(e: Entries, i: int, man: Seq<char>) -> Option<Seq<char>> {
    if is_manifest_entry(e, i, man) || manifest_at(e, i, man) is None {
        None
    } else {
        target_of(manifest_at(e, i, man)->0, e[i].0)
    }
}

/// `b` is `a` with a file written at `k`, in a directory that is made for it.
pub open spec fn takes_file(a: FsView, b: FsView, k: Key, data: Seq<u8>) -> bool {
    exists|mid: FsView| #[trigger]
        made_room(a, mid, k) && wrote(mid, b, k, data) && same_books(mid, b)
}

/// `b` is `a` with entry `i` restored.
pub open spec fn entry_step(
    a: FsView,
    b: FsView,
    e: Entries,
    i: int,
    man: Seq<char>,
) -> bool {
    match entry_target(e, i, man) {
        Some(t) => takes_file(a, b, components(t), e[i].1),
        None => b == a,
    }
}

/// `vs` are the states that restoring the first `n` entries goes through.
pub open spec fn entry_steps(vs: Seq<FsView>, e: Entries, n: int, man: Seq<char>) -> bool {
    &&& vs.len() == n + 1
    &&& 0 <= n <= e.len()
    &&& forall|i: int| 0 <= i < n ==> #[trigger] is_restored(vs, e, i, man)
}

/// Entry `i` is restored on the way from state `i` to the next.
pub open spec fn is_restored(vs: Seq<FsView>, e: Entries, i: int, man: Seq<char>) -> bool {
    restorable(e, i, man) && entry_step(vs[i], vs[i + 1], e, i, man)
}

proof fn lemma_next_step(vs: Seq<FsView>, b: FsView, e: Entries, n: int, man: Seq<char>)
    requires
        entry_steps(vs, e, n, man),
        n < e.len(),
        restorable(e, n, man),
        entry_step(vs.last(), b, e, n, man),
    ensures
        entry_steps(vs.push(b), e, n + 1, man),
{
    let all = vs.push(b);
    assert forall|j: int| 0 <= j < n + 1 implies #[trigger] is_restored(all, e, j, man) by {
        assert(all[j] == vs[j]);
        if j < n {
            assert(is_restored(vs, e, j, man));
            assert(all[j + 1] == vs[j + 1]);
        }
    }
}

/// What restoring an archive does to the file system, and what comes of it.
pub open spec fn restore_step(
    a: FsView,
    b: FsView,
    path: Key,
    r: Result<BackupManifest, Error>,
    man: Seq<char>,
) -> bool {
    let e = archived(a.files[path]);
    match r {
        Ok(m) => {
            &&& a.file(path) is Some
            &&& whole(a.files[path])
            &&& manifest_at(e, e.len() as int, man) == Some(m@)
            &&& exists|vs: Seq<FsView>| #[trigger]
                entry_steps(vs, e, e.len() as int, man) && vs[0] == a && vs.last() == b
        },
        Err(error) => if a.file(path) is None {
            b == a && error is Fs
        } else {
            exists|vs: Seq<FsView>, n: int| #[trigger]
                entry_steps(vs, e, n, man) && vs[0] == a && stopped(vs.last(), b, e, n, error, whole(
                    a.files[path],
                ), man)
        },
    }
}

/// Restoring stops behind the first `n` entries, with the error.
pub open spec fn stopped(
    a: FsView,
    b: FsView,
    e: Entries,
    n: int,
    error: Error,
    is_whole: bool,
    man: Seq<char>,
) -> bool {
    if n == e.len() {
        &&& b == a
        &&& if is_whole {
            &&& manifest_at(e, n, man) is None
            &&& error matches Error::ManifestMissing(name) && name@ == man
        } else {
            error is Archive
        }
    } else if restorable(e, n, man) {
        // The file system refused to take the entry.
        &&& error is Fs
        &&& entry_target(e, n, man) matches Some(t) && entry_refused(a, b, components(t))
    } else {
        &&& b == a
        &&& if is_manifest_entry(e, n, man) {
            error matches Error::ManifestUnreadable(what, _) && what@ == manifest_fault(
                e[n].1,
                man,
            )
        } else if manifest_at(e, n, man) is None {
            error matches Error::ManifestNotFirst(name) && name@ == man
        } else {
            error is Encoder
        }
    }
}

/// The file system refuses to take a file at `k`, or to make the directory for
/// it. No other file and no link is different.
pub open spec fn entry_refused(a: FsView, b: FsView, k: Key) -> bool {
    &&& !(a.accepts.contains(k) && (has_parent(k) ==> a.accepts.contains(k.drop_last())))
    &&& b.links == a.links
    &&& forall|q: Key| q != k ==> #[trigger] b.file(q) == a.file(q)
    &&& same_books(a, b)
}

/// Writes a file of an archive to its place, making the directories above it.
fn extract_entry_to<F: Fs>(fs: &mut F, target: &FilePath, data: &Vec<u8>) -> (r: Result<(), Error>)
    ensures
        match r {
            Ok(_) => takes_file(old(fs).view(), final(fs).view(), target.key(), data@),
            Err(e) => e is Fs && entry_refused(old(fs).view(), final(fs).view(), target.key()),
        },
{
    if let Some(parent) = target.parent() {
        if let Err(e) = fs.create_dir_all(&parent) {
            return Err(Error::Fs(e));
        }
    }
    assert(made_room(old(fs).view(), fs.view(), target.key()));
    match fs.write_bytes(target, data) {
        Ok(_) => Ok(()),
        Err(e) => Err(Error::Fs(e)),
    }
}

/// `manifest` is what holds behind the first `n` entries.
pub open spec fn is_current(
    manifest: Option<BackupManifest>,
    e: Entries,
    n: int,
    man: Seq<char>,
) -> bool {
    match manifest {
        Some(m) => manifest_at(e, n, man) == Some(m@),
        None => manifest_at(e, n, man) is None,
    }
}

/// Restores entry `i`. A manifest takes the place of the one before it.
fn restore_entry<F: Fs>(
    fs: &mut F,
    manifest: &mut Option<BackupManifest>,
    files: &Vec<(String, Vec<u8>)>,
    i: usize,
    manifest_name: &str,
) -> (r: Result<(), Error>)
    requires
        i < files@.len(),
        is_current(*old(manifest), entry_views(files@), i as int, manifest_name@),
    ensures
        ({
            let e = entry_views(files@);
            let man = manifest_name@;
            match r {
                Ok(_) => {
                    &&& restorable(e, i as int, man)
                    &&& entry_step(old(fs).view(), final(fs).view(), e, i as int, man)
                    &&& is_current(*final(manifest), e, i + 1, man)
                },
                Err(error) => forall|is_whole: bool| #[trigger]
                    stopped(old(fs).view(), final(fs).view(), e, i as int, error, is_whole, man),
            }
        }),
{
    let name = files[i].0.as_str();
    let content = &files[i].1;
    let ghost e = entry_views(files@);
    let ghost man = manifest_name@;
    assert(e[i as int] == (name@, content@));
    if crate::path::same_text(name, manifest_name) {
        return match read_manifest(content, manifest_name) {
            Ok(m) => {
                *manifest = Some(m);
                Ok(())
            },
            Err(error) => Err(error),
        };
    }
    let m = match manifest {
        Some(m) => m,
        None => {
            return Err(Error::ManifestNotFirst(manifest_name.to_owned()));
        },
    };
    match restore_target(m, name) {
        Ok(Some(target)) => {
            assert(entry_target(e, i as int, man) == Some(target@));
            extract_entry_to(fs, &target, content)
        },
        Ok(None) => Ok(()),
        Err(error) => Err(error),
    }
}

/// Restores a backup: every file goes back to where the manifest says it came
/// from.
pub fn restore_backup<F: Fs>(fs: &mut F, backup_path: &FilePath, manifest_name: &str) -> (r: Result<
    BackupManifest,
    Error,
>)
    ensures
        restore_step(old(fs).view(), final(fs).view(), backup_path.key(), r, manifest_name@),
{
    let data = match fs.read_bytes(backup_path) {
        Ok(data) => data,
        Err(e) => {
            return Err(Error::Fs(e));
        },
    };
    let ghost start = fs.view();
    let ghost man = manifest_name@;
    let (files, fault) = read_archive(&data);
    let ghost e = archived(data@);
    let mut manifest: Option<BackupManifest> = None;
    let ghost mut vs: Seq<FsView> = seq![fs.view()];
    let mut i: usize = 0;
    while i < files.len()
        invariant
            start == old(fs).view(),
            man == manifest_name@,
            start.file(backup_path.key()) == Some(data@),
            fault is None <==> whole(data@),
            e == archived(data@),
            e == entry_views(files@),
            e.len() == files@.len(),
            i <= files@.len(),
            is_current(manifest, e, i as int, man),
            entry_steps(vs, e, i as int, man),
            vs[0] == start,
            vs.last() == fs.view(),
        decreases files@.len() - i,
    {
        if let Err(error) = restore_entry(fs, &mut manifest, &files, i, manifest_name) {
            assert(entry_steps(vs, e, i as int, man));
            assert(stopped(vs.last(), fs.view(), e, i as int, error, whole(data@), man));
            return Err(error);
        }
        proof {
            assert(restorable(e, i as int, man));
            assert(entry_step(vs.last(), fs.view(), e, i as int, man));
            lemma_next_step(vs, fs.view(), e, i as int, man);
            vs = vs.push(fs.view());
        }
        i = i + 1;
    }
    assert(entry_steps(vs, e, i as int, man));
    if let Some(message) = fault {
        return Err(Error::Archive(message));
    }
    match manifest {
        Some(m) => Ok(m),
        None => Err(Error::ManifestMissing(manifest_name.to_owned())),
    }
}

/// What is stripped and put behind a prefix is found behind it again.
proof fn lemma_behind(prefix: Seq<char>, dir: Seq<char>, e: Seq<char>)
    requires
        under(components(e), components(dir)),
        dir.len() > 0,
        prefix.len() > 0,
        prefix.last() != '/',
    ensures
        name_in(prefix, dir, e) == prefix.push('/') + strip_text(e, components(dir).len() as int),
        components(join_text(dir, strip_text(e, components(dir).len() as int))) == components(e),
{
    let n = components(dir).len() as int;
    lemma_strip_components(e, n);
    let rest = strip_text(e, n);
    lemma_components_join(dir, rest);
    let k = components(e);
    assert(components(dir) + k.skip(n) =~= k) by {
        assert(k.subrange(0, n) =~= components(dir));
    }
}

/// A file below the global directory goes back to where it was.
pub proof fn law_global_file_returns(m: ManifestView, e: Seq<char>)
    requires
        under(components(e), components(global_dir_in(m.source, m.home))),
    ensures
        target_of(m, name_in("global"@, global_dir_in(m.source, m.home), e)) is Some,
        components(target_of(m, name_in("global"@, global_dir_in(m.source, m.home), e))->0)
            == components(e),
{
    let dir = global_dir_in(m.source, m.home);
    reveal_strlit("global");
    reveal_strlit("global/");
    reveal_strlit("projects");
    lemma_behind("global"@, dir, e);
    let rest = strip_text(e, components(dir).len() as int);
    let name = name_in("global"@, dir, e);
    assert("global"@.push('/') =~= "global/"@);
    assert(name.subrange(0, "global/"@.len() as int) =~= "global/"@);
    assert(name.skip("global/"@.len() as int) =~= rest);
}

/// A name under `local/` is not one under `global/`.
proof fn lemma_local(name: Seq<char>, rest: Seq<char>)
    requires
        name == "local/"@ + rest,
    ensures
        behind(name, "global/"@) is None,
        behind(name, "local/"@) == Some(rest),
{
    reveal_strlit("global/");
    reveal_strlit("local/");
    assert(name.subrange(0, 6) =~= "local/"@);
    assert(name.skip(6) =~= rest);
    if text_at(name, 0, "global/"@) {
        assert(name.subrange(0, 7)[0] == name[0]);
        assert("global/"@[0] == 'g');
        assert("local/"@[0] == 'l');
    }
}

/// A file below the project's local directory goes back to where it was.
pub proof fn law_local_file_returns(m: ManifestView, local_dir: Seq<char>, e: Seq<char>)
    requires
        is_plain(local_dir),
        under(components(e), components(join_text(m.source, local_dir))),
    ensures
        ({
            let name = name_in("local/"@ + local_dir, join_text(m.source, local_dir), e);
            target_of(m, name) is Some && components(target_of(m, name)->0) == components(e)
        }),
{
    let dir = join_text(m.source, local_dir);
    let prefix = "local/"@ + local_dir;
    reveal_strlit("local/");
    assert(local_dir.contains(local_dir[0]));
    assert(local_dir.contains(local_dir.last()));
    assert(dir.last() == local_dir.last());
    assert(prefix.last() == local_dir.last());
    lemma_behind(prefix, dir, e);
    let rest = strip_text(e, components(dir).len() as int);
    let name = name_in(prefix, dir, e);
    let inner = local_dir.push('/') + rest;
    assert(name =~= "local/"@ + inner);
    lemma_local(name, inner);
    lemma_strip_components(e, components(dir).len() as int);
    assert(inner[0] == local_dir[0]);
    assert(join_text(m.source, inner) =~= join_text(dir, rest));
}

/// The project's `.mcp.json` goes back to where it was.
pub proof fn law_mcp_file_returns(m: ManifestView)
    ensures
        target_of(m, "local/.mcp.json"@) == Some(join_text(m.source, ".mcp.json"@)),
{
    reveal_strlit("local/");
    reveal_strlit("local/.mcp.json");
    reveal_strlit(".mcp.json");
    assert("local/.mcp.json"@ =~= "local/"@ + ".mcp.json"@);
    lemma_local("local/.mcp.json"@, ".mcp.json"@);
}

/// No file of a directory has a name without a slash.
proof fn lemma_dir_names(
    v: FsView,
    dir: Seq<char>,
    prefix: Seq<char>,
    list: Seq<Seq<char>>,
    i: int,
)
    requires
        files_readable(v, dir, list),
        dir.len() > 0,
        prefix.len() > 0,
        prefix.last() != '/',
        0 <= i < dir_entries(v, dir, prefix, list).len(),
    ensures
        dir_entries(v, dir, prefix, list)[i].0.contains('/'),
    decreases list.len(),
{
    let init = list.drop_last();
    let before = dir_entries(v, dir, prefix, init);
    assert(files_readable(v, dir, init)) by {
        assert forall|j: int| 0 <= j < init.len() implies under(
            components(#[trigger] init[j]),
            components(dir),
        ) && (passed_over(v, init[j]) || v.file(components(init[j])) is Some) by {
            assert(init[j] == list[j]);
        }
    }
    if i < before.len() {
        lemma_dir_names(v, dir, prefix, init, i);
    } else {
        assert(list.last() == list[list.len() - 1]);
        lemma_behind(prefix, dir, list.last());
        assert(name_in(prefix, dir, list.last())[prefix.len() as int] == '/');
    }
}

/// Behind the manifest of a backup there is no other.
proof fn lemma_file_names(v: FsView, s: Sources, i: int)
    requires
        backup_readable(v, s),
        names_sound(s.home),
        s.global.len() > 0,
        s.local matches Some(d) ==> d.len() > 0,
        0 <= i < backup_files(v, s).len(),
    ensures
        backup_files(v, s)[i].0 != s.home.manifest,
{
    let a = dir_part(v, Some(s.global), "global"@);
    let b = dir_part(v, s.local, "local/"@ + s.home.local_dir);
    let c = file_part(v, s.mcp, "local/.mcp.json"@);
    reveal_strlit("global");
    reveal_strlit("local/");
    reveal_strlit("local/.mcp.json");
    assert("local/.mcp.json"@[5] == '/');
    let local = s.home.local_dir;
    assert(local.contains(local.last()));
    assert(("local/"@ + local).last() == local.last());
    if i < a.len() {
        lemma_dir_names(v, s.global, "global"@, v.walk[s.global], i);
    } else if i < a.len() + b.len() {
        lemma_dir_names(v, s.local->0, "local/"@ + local, v.walk[s.local->0], i - a.len());
    }
}

proof fn lemma_manifest_at(e: Entries, m: ManifestView, n: int, man: Seq<char>)
    requires
        1 <= n <= e.len(),
        is_manifest_entry(e, 0, man),
        manifest_in(e[0].1) == Some(m),
        forall|i: int| 0 < i < e.len() ==> !#[trigger] is_manifest_entry(e, i, man),
    ensures
        manifest_at(e, n, man) == Some(m),
    decreases n,
{
    if n > 1 {
        lemma_manifest_at(e, m, n - 1, man);
        assert(!is_manifest_entry(e, n - 1, man));
    } else {
        assert(manifest_at(e, 1, man) == manifest_in(e[0].1));
    }
}

/// Restoring changes nothing about what is refused.
proof fn lemma_entries_accepted(vs: Seq<FsView>, e: Entries, n: int, man: Seq<char>, i: int)
    requires
        entry_steps(vs, e, n, man),
        0 <= i <= n,
    ensures
        vs[i].accepts == vs[0].accepts,
    decreases i,
{
    if i > 0 {
        lemma_entries_accepted(vs, e, n, man, i - 1);
        assert(is_restored(vs, e, i - 1, man));
    }
}

/// A restore goes through where the archive can be read to its end, each of its
/// entries can be restored, and nothing is refused where they go.
pub proof fn law_restore_goes_through(
    a: FsView,
    b: FsView,
    path: Key,
    r: Result<BackupManifest, Error>,
    man: Seq<char>,
)
    requires
        restore_step(a, b, path, r, man),
        a.file(path) is Some,
        whole(a.files[path]),
        ({
            let e = archived(a.files[path]);
            &&& manifest_at(e, e.len() as int, man) is Some
            &&& forall|i: int| 0 <= i < e.len() ==> #[trigger] restorable(e, i, man)
            &&& forall|i: int|
                0 <= i < e.len() && (#[trigger] entry_target(e, i, man)) is Some ==> {
                    let k = components(entry_target(e, i, man)->0);
                    a.accepts.contains(k) && (has_parent(k) ==> a.accepts.contains(k.drop_last()))
                }
        }),
    ensures
        r is Ok,
{
    if let Err(error) = r {
        let e = archived(a.files[path]);
        let (vs, n) = choose|vs: Seq<FsView>, n: int| #[trigger]
            entry_steps(vs, e, n, man) && vs[0] == a && stopped(
                vs.last(),
                b,
                e,
                n,
                error,
                whole(a.files[path]),
                man,
            );
        lemma_entries_accepted(vs, e, n, man, n);
        assert(n < e.len() ==> restorable(e, n, man));
        assert(entry_target(e, n, man) == entry_target(e, n, man));
    }
}

/// A single component without a NUL character and a backslash can be kept.
proof fn lemma_manifest_storable(name: Seq<char>)
    requires
        is_plain(name),
        name != dot_dot(),
        !name.contains('\0'),
        !name.contains('\\'),
    ensures
        storable(name),
{
    lemma_split_single(name, '/');
}

/// What each file of a directory is called in an archive, and where it came from.
proof fn lemma_dir_entry(
    v: FsView,
    dir: Seq<char>,
    prefix: Seq<char>,
    list: Seq<Seq<char>>,
    i: int,
) -> (e: Seq<char>)
    requires
        files_readable(v, dir, list),
        0 <= i < dir_entries(v, dir, prefix, list).len(),
    ensures
        under(components(e), components(dir)),
        dir_entries(v, dir, prefix, list)[i] == (name_in(prefix, dir, e), v.files[components(e)]),
    decreases list.len(),
{
    let init = list.drop_last();
    let before = dir_entries(v, dir, prefix, init);
    assert(files_readable(v, dir, init)) by {
        assert forall|j: int| 0 <= j < init.len() implies under(
            components(#[trigger] init[j]),
            components(dir),
        ) && (passed_over(v, init[j]) || v.file(components(init[j])) is Some) by {
            assert(init[j] == list[j]);
        }
    }
    if i < before.len() {
        lemma_dir_entry(v, dir, prefix, init, i)
    } else {
        assert(list.last() == list[list.len() - 1]);
        list.last()
    }
}

/// Each file of a directory that is not passed over is in the archive.
proof fn lemma_dir_holds(
    v: FsView,
    dir: Seq<char>,
    prefix: Seq<char>,
    list: Seq<Seq<char>>,
    j: int,
) -> (i: int)
    requires
        0 <= j < list.len(),
        !passed_over(v, list[j]),
    ensures
        0 <= i < dir_entries(v, dir, prefix, list).len(),
        dir_entries(v, dir, prefix, list)[i].0 == name_in(prefix, dir, list[j]),
    decreases list.len(),
{
    let init = list.drop_last();
    if j == list.len() - 1 {
        dir_entries(v, dir, prefix, init).len() as int
    } else {
        assert(init[j] == list[j]);
        lemma_dir_holds(v, dir, prefix, init, j)
    }
}

/// The sources are those of a project: its own global directory, its own local one
/// and its own `.mcp.json`, as far as they are there.
pub open spec fn are_own(s: Sources) -> bool {
    &&& is_rooted(s) && s.home.path.len() > 0
    &&& names_sound(s.home) && is_plain(s.home.archived_registry)
    &&& s.global == global_dir_in(s.project, s.home.path)
    &&& s.local matches Some(d) ==> d == join_text(s.project, s.home.local_dir)
    &&& s.mcp matches Some(p) ==> p == join_text(s.project, ".mcp.json"@)
}

/// The file at `k` goes into the backup: it is found in one of the directories, and
/// no link that is passed over, or it is the `.mcp.json`.
pub open spec fn is_kept(v: FsView, s: Sources, k: Key) -> bool {
    ||| v.dirs.contains(components(s.global)) && is_found(v, s.global, k)
    ||| (s.local matches Some(d) && v.dirs.contains(components(d)) && is_found(v, d, k))
    ||| (s.mcp matches Some(p) && v.regular.contains(components(p)) && components(p) == k)
}

/// The file at `k` is found below `dir`, and it is no link that is passed over.
pub open spec fn is_found(v: FsView, dir: Seq<char>, k: Key) -> bool {
    exists|j: int|
        0 <= j < v.walk[dir].len() && components(#[trigger] v.walk[dir][j]) == k && !passed_over(
            v,
            v.walk[dir][j],
        )
}

/// Where a file of the backup goes back to is where it came from.
proof fn lemma_file_returns(v: FsView, s: Sources, i: int)
    requires
        are_own(s),
        backup_readable(v, s),
        0 <= i < backup_files(v, s).len(),
    ensures
        target_of(manifest_of(s), backup_files(v, s)[i].0) matches Some(t) ==> backup_files(
            v,
            s,
        )[i].1 == v.files[components(t)],
{
    let m = manifest_of(s);
    let local = s.home.local_dir;
    let a = dir_part(v, Some(s.global), "global"@);
    let b = dir_part(v, s.local, "local/"@ + local);
    let c = file_part(v, s.mcp, "local/.mcp.json"@);
    let d = file_part(v, s.claude_json, s.home.archived_registry);
    let all = backup_files(v, s);
    if i < a.len() {
        assert(all[i] == a[i]);
        let e = lemma_dir_entry(v, s.global, "global"@, v.walk[s.global], i);
        law_global_file_returns(m, e);
    } else if i < a.len() + b.len() {
        assert(all[i] == b[i - a.len()]);
        let e = lemma_dir_entry(
            v,
            s.local->0,
            "local/"@ + local,
            v.walk[s.local->0],
            i - a.len(),
        );
        law_local_file_returns(m, local, e);
    } else if i < a.len() + b.len() + c.len() {
        assert(all[i] == c[i - a.len() - b.len()]);
        law_mcp_file_returns(m);
    } else {
        assert(all[i] == d[i - a.len() - b.len() - c.len()]);
        let name = s.home.archived_registry;
        reveal_strlit("global/");
        reveal_strlit("local/");
        assert("global/"@[6] == '/' && "local/"@[5] == '/');
        if behind(name, "global/"@) is Some {
            assert(name.subrange(0, 7)[6] == '/');
            assert(name.contains(name[6]));
        }
        if behind(name, "local/"@) is Some {
            assert(name.subrange(0, 6)[5] == '/');
            assert(name.contains(name[5]));
        }
    }
}

/// Each file that goes into the backup has an entry that goes back to it.
proof fn lemma_kept_returns(v: FsView, s: Sources, k: Key) -> (i: int)
    requires
        are_own(s),
        backup_readable(v, s),
        is_kept(v, s, k),
    ensures
        0 <= i < backup_files(v, s).len(),
        target_of(manifest_of(s), backup_files(v, s)[i].0) matches Some(t) && components(t) == k,
{
    let m = manifest_of(s);
    let local = s.home.local_dir;
    let a = dir_part(v, Some(s.global), "global"@);
    let b = dir_part(v, s.local, "local/"@ + local);
    let c = file_part(v, s.mcp, "local/.mcp.json"@);
    let all = backup_files(v, s);
    if v.dirs.contains(components(s.global)) && is_found(v, s.global, k) {
        let list = v.walk[s.global];
        let j = choose|j: int|
            0 <= j < list.len() && components(#[trigger] list[j]) == k && !passed_over(v, list[j]);
        let i = lemma_dir_holds(v, s.global, "global"@, list, j);
        assert(all[i] == a[i]);
        law_global_file_returns(m, list[j]);
        i
    } else if s.local is Some && v.dirs.contains(components(s.local->0)) && is_found(
        v,
        s.local->0,
        k,
    ) {
        let list = v.walk[s.local->0];
        let j = choose|j: int|
            0 <= j < list.len() && components(#[trigger] list[j]) == k && !passed_over(v, list[j]);
        let i = lemma_dir_holds(v, s.local->0, "local/"@ + local, list, j);
        assert(all[a.len() + i] == b[i]);
        law_local_file_returns(m, local, list[j]);
        a.len() + i
    } else {
        let i = (a.len() + b.len()) as int;
        assert(all[i] == c[0]);
        law_mcp_file_returns(m);
        i
    }
}

/// While the entries are restored, each file that one of them stands for has its
/// contents from then on: two entries for one file hold the same.
proof fn lemma_restored_so_far(
    vs: Seq<FsView>,
    e: Entries,
    n: int,
    i: int,
    man: Seq<char>,
    files: Map<Key, Seq<u8>>,
)
    requires
        entry_steps(vs, e, e.len() as int, man),
        0 <= i < n <= e.len(),
        entry_target(e, i, man) is Some,
        forall|j: int|
            0 <= j < e.len() && (#[trigger] entry_target(e, j, man)) is Some ==> e[j].1
                == files[components(entry_target(e, j, man)->0)],
    ensures
        vs[n].file(components(entry_target(e, i, man)->0)) == Some(
            files[components(entry_target(e, i, man)->0)],
        ),
    decreases n,
{
    let k = components(entry_target(e, i, man)->0);
    let a = vs[n - 1];
    let b = vs[n];
    assert(is_restored(vs, e, n - 1, man));
    if i < n - 1 {
        lemma_restored_so_far(vs, e, n - 1, i, man, files);
    }
    match entry_target(e, n - 1, man) {
        Some(t) => {
            let mid = choose|mid: FsView| #[trigger]
                made_room(a, mid, components(t)) && wrote(mid, b, components(t), e[n - 1].1)
                    && same_books(mid, b);
            assert(mid.file(k) == a.file(k));
        },
        None => {},
    }
}

/// What a backup holds comes back. Whatever has become of the project since, as long
/// as the archive is still there and nothing is refused where its files go, a restore
/// goes through, gives the manifest back, and each file that went into the backup is
/// at its old place with its old contents. The names of the files are such as an
/// archive keeps.
pub proof fn law_backup_comes_back(
    a: FsView,
    mid: FsView,
    b: FsView,
    s: Sources,
    data: Seq<u8>,
    x: FsView,
    y: FsView,
    r: Result<BackupManifest, Error>,
)
    requires
        backed_up_by(a, mid, b, s, data),
        are_own(s),
        all_storable(backup_files(mid, s)),
        x.file(components(backup_path(s))) == b.file(components(backup_path(s))),
        restore_step(x, y, components(backup_path(s)), r, s.home.manifest),
        forall|i: int|
            0 <= i < backup_files(mid, s).len() ==> (target_of(
                manifest_of(s),
                (#[trigger] backup_files(mid, s)[i]).0,
            ) matches Some(t) ==> x.accepts.contains(components(t)) && (has_parent(components(t))
                ==> x.accepts.contains(components(t).drop_last()))),
    ensures
        r matches Ok(m) && m@ == manifest_of(s),
        forall|k: Key| #[trigger] is_kept(mid, s, k) ==> y.file(k) == Some(a.files[k]),
{
    let path = components(backup_path(s));
    let files = backup_files(mid, s);
    let man = s.home.manifest;
    assert(b.file(path) == Some(data));
    let text = choose|text: Seq<u8>| #[trigger]
        is_manifest(text, manifest_of(s)) && archives(data, seq![(man, text)] + files);
    let e = seq![(man, text)] + files;
    lemma_backup_entries(mid, s, text);
    assert(archived(data) == e && whole(data));
    lemma_manifest_at(e, manifest_of(s), e.len() as int, man);
    assert forall|i: int| 0 <= i < e.len() implies #[trigger] restorable(e, i, man) && (
    entry_target(e, i, man) is Some ==> {
        let k = components(entry_target(e, i, man)->0);
        x.accepts.contains(k) && (has_parent(k) ==> x.accepts.contains(k.drop_last()))
    }) by {
        if i > 0 {
            assert(e[i] == files[i - 1]);
            lemma_manifest_at(e, manifest_of(s), i, man);
            assert(!is_manifest_entry(e, i, man));
        }
    }
    assert forall|i: int| 0 <= i < e.len() && (#[trigger] entry_target(e, i, man)) is Some implies {
        let k = components(entry_target(e, i, man)->0);
        x.accepts.contains(k) && (has_parent(k) ==> x.accepts.contains(k.drop_last()))
    } by {
        assert(restorable(e, i, man));
    }
    law_restore_goes_through(x, y, path, r, man);
    let vs = choose|vs: Seq<FsView>| #[trigger]
        entry_steps(vs, e, e.len() as int, man) && vs[0] == x && vs.last() == y;
    assert forall|j: int| 0 <= j < e.len() && (#[trigger] entry_target(e, j, man)) is Some implies e[
        j
    ].1 == mid.files[components(entry_target(e, j, man)->0)] by {
        assert(j > 0);
        assert(e[j] == files[j - 1]);
        lemma_manifest_at(e, manifest_of(s), j, man);
        lemma_file_returns(mid, s, j - 1);
    }
    assert forall|k: Key| #[trigger] is_kept(mid, s, k) implies y.file(k) == Some(a.files[k]) by {
        let i = lemma_kept_returns(mid, s, k);
        assert(e[i + 1] == files[i]);
        lemma_manifest_at(e, manifest_of(s), i + 1, man);
        assert(!is_manifest_entry(e, i + 1, man));
        lemma_restored_so_far(vs, e, e.len() as int, i + 1, man, mid.files);
    }
}

/// The entries of a backup: the manifest comes first and only once, and all of them
/// can be kept.
proof fn lemma_backup_entries(v: FsView, s: Sources, text: Seq<u8>)
    requires
        are_own(s),
        backup_readable(v, s),
        all_storable(backup_files(v, s)),
        is_manifest(text, manifest_of(s)),
    ensures
        ({
            let e = seq![(s.home.manifest, text)] + backup_files(v, s);
            &&& all_storable(e)
            &&& is_manifest_entry(e, 0, s.home.manifest)
            &&& manifest_in(e[0].1) == Some(manifest_of(s))
            &&& forall|i: int|
                0 < i < e.len() ==> !#[trigger] is_manifest_entry(e, i, s.home.manifest)
        }),
{
    let files = backup_files(v, s);
    let man = s.home.manifest;
    let e = seq![(man, text)] + files;
    lemma_manifest_in(text, manifest_of(s));
    reveal_strlit("projects");
    assert(s.global.len() > 0);
    assert(s.home.local_dir.contains(s.home.local_dir[0]));
    assert(s.local matches Some(d) ==> d.len() > 0);
    assert forall|j: int| 0 <= j < e.len() implies storable((#[trigger] e[j]).0) by {
        if j == 0 {
            lemma_manifest_storable(man);
        } else {
            assert(e[j] == files[j - 1]);
        }
    }
    assert forall|j: int| 0 < j < e.len() implies !#[trigger] is_manifest_entry(e, j, man) by {
        assert(e[j] == files[j - 1]);
        lemma_file_names(v, s, j - 1);
    }
}

} // verus!
