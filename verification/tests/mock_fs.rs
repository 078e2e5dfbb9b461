use ccmv::fs::can_rename;
use ccmv::fs::Fs;
use ccmv::mock_fs::MockFs;
use ccmv::path::FilePath;

fn p(text: &str) -> FilePath {
    FilePath::new(text)
}

#[test]
fn mock_counts_writes_per_path() {
    let mut fs = MockFs::new();
    let path = &p("/history.jsonl");
    assert_eq!(fs.write_count(path), 0);

    fs.write_atomically(path, "a").unwrap();
    fs.write_atomically(path, "b").unwrap();

    assert_eq!(fs.write_count(path), 2);
    assert_eq!(fs.write_count(&p("/other")), 0);
}

/// `add_file` seeds fixtures; it must not count as a write, or every
/// "written exactly once" assertion would start at 1.
#[test]
fn mock_add_file_is_not_a_write() {
    let mut fs = MockFs::new();
    let path = &p("/seeded");
    fs.add_file(path, "content");
    assert_eq!(fs.write_count(path), 0);
}

#[test]
fn mock_read_write_roundtrip() {
    let mut fs = MockFs::new();
    fs.add_dir(&p("/tmp"));
    fs.write_atomically(&p("/tmp/test.txt"), "hello")
        .unwrap();
    assert_eq!(
        fs.read_to_string(&p("/tmp/test.txt")).unwrap(),
        "hello"
    );
}

#[test]
fn mock_exists() {
    let mut fs = MockFs::new();
    assert!(!fs.path_exists(&p("/nonexistent")));
    fs.add_file(&p("/tmp/file"), "content");
    assert!(fs.path_exists(&p("/tmp/file")));
}

#[test]
fn mock_is_dir() {
    let mut fs = MockFs::new();
    fs.add_dir(&p("/tmp/mydir"));
    assert!(fs.is_dir(&p("/tmp/mydir")));
    assert!(!fs.is_dir(&p("/tmp/nonexistent")));
}

#[test]
fn mock_list_dir() {
    let mut fs = MockFs::new();
    fs.add_dir(&p("/tmp/project"));
    fs.add_file(&p("/tmp/project/a.txt"), "a");
    fs.add_file(&p("/tmp/project/b.txt"), "b");
    let entries = fs.list_dir(&p("/tmp/project")).unwrap();
    assert_eq!(entries.len(), 2);
}

#[test]
fn mock_rename() {
    let mut fs = MockFs::new();
    fs.add_file(&p("/old"), "content");
    fs.rename(&p("/old"), &p("/new")).unwrap();
    assert!(!fs.path_exists(&p("/old")));
    assert_eq!(fs.read_to_string(&p("/new")).unwrap(), "content");
}

#[test]
fn mock_read_nonexistent_errors() {
    let mut fs = MockFs::new();
    assert!(fs.read_to_string(&p("/nonexistent")).is_err());
}

#[test]
fn can_rename_rejects_a_different_filesystem() {
    let mut fs = MockFs::new();
    fs.add_dir(&p("/x/proj"));
    fs.add_dir(&p("/mnt/other"));
    fs.add_mount(&p("/mnt"), 42);

    let err = can_rename(&fs, &p("/x/proj"), &p("/mnt/other/proj"))
        .unwrap_err()
        .message();
    assert!(err.contains("cross-filesystem"), "{err}");
}

#[test]
fn can_rename_rejects_an_unwritable_target_directory() {
    let mut fs = MockFs::new();
    fs.add_dir(&p("/x/proj"));
    fs.add_dir(&p("/y"));
    fs.add_readonly_dir(&p("/y"));

    let err = can_rename(&fs, &p("/x/proj"), &p("/y/proj"))
        .unwrap_err()
        .message();
    assert!(err.contains("not writable"), "{err}");
}

#[test]
fn can_rename_accepts_one_filesystem_and_a_writable_target() {
    let mut fs = MockFs::new();
    fs.add_dir(&p("/x/proj"));
    fs.add_dir(&p("/y"));

    can_rename(&fs, &p("/x/proj"), &p("/y/proj")).unwrap();
}

/// Mirrors what a system answers, which follows links: a link whose target was
/// never registered as a file or directory does not exist.
#[test]
fn mock_exists_false_for_dangling_link() {
    let mut fs = MockFs::new();
    fs.add_symlink(&p("/link"), &p("/nonexistent/target"));

    assert!(!fs.path_exists(&p("/link")));
}

#[test]
fn mock_is_dir_true_for_link_to_dir() {
    let mut fs = MockFs::new();
    fs.add_dir(&p("/real/dir"));
    fs.add_symlink(&p("/link"), &p("/real/dir"));

    assert!(fs.is_dir(&p("/link")));
}

/// Renaming a directory carries its link entries along, the way the
/// existing `rename` already carries `files` and `dirs`.
#[test]
fn mock_rename_moves_link_entries() {
    let mut fs = MockFs::new();
    fs.add_dir(&p("/old"));
    fs.add_symlink(&p("/old/link"), &p("some-target"));

    fs.rename(&p("/old"), &p("/new")).unwrap();

    assert!(fs.is_symlink(&p("/new/link")));
    assert!(!fs.is_symlink(&p("/old/link")));
    assert_eq!(
        fs.read_link(&p("/new/link")).unwrap(),
        p("some-target")
    );
}

/// `list_dir` reports a directory link as itself; it must not resolve
/// through it and report the target's children instead.
#[test]
fn mock_list_dir_includes_link_without_descending() {
    let mut fs = MockFs::new();
    fs.add_dir(&p("/project"));
    fs.add_dir(&p("/other"));
    fs.add_file(&p("/other/inside.txt"), "content");
    fs.add_symlink(&p("/project/link"), &p("/other"));

    let entries = fs.list_dir(&p("/project")).unwrap();

    assert_eq!(entries, vec![p("/project/link")]);
}

/// Same as `mock_list_dir_includes_link_without_descending`, one level
/// deeper: the link shows up, its target's contents do not.
#[test]
fn mock_list_dir_recursive_includes_link_without_descending() {
    let mut fs = MockFs::new();
    fs.add_dir(&p("/project/sub"));
    fs.add_dir(&p("/other"));
    fs.add_file(&p("/other/inside.txt"), "content");
    fs.add_symlink(&p("/project/sub/link"), &p("/other"));

    let entries = fs.list_dir_recursive(&p("/project")).unwrap();

    assert_eq!(entries, vec![p("/project/sub/link")]);
}

/// `MockFs` pinning of the same guarantee as
/// `real_list_dir_recursive_does_not_follow_symlinks`: a symlink to a
/// directory outside the scanned tree is reported as itself, never as
/// its target's contents.
#[test]
fn mock_list_dir_recursive_does_not_follow_symlinks() {
    let mut fs = MockFs::new();
    fs.add_dir(&p("/project"));
    fs.add_dir(&p("/target_dir"));
    fs.add_file(&p("/target_dir/inside.txt"), "content");
    fs.add_symlink(&p("/project/link"), &p("/target_dir"));

    let entries = fs.list_dir_recursive(&p("/project")).unwrap();

    assert_eq!(entries, vec![p("/project/link")]);
}
