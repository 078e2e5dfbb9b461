use ccmv::links::relink_candidate;
use ccmv::links::resolve_link_target;
use ccmv::links::scan_roots;
use ccmv::links::text_references;
use ccmv::links::walk_scan_roots;
use ccmv::mock_fs::MockFs;
use ccmv::path::FilePath;
use ccmv::substitution::Substitutions;

fn p(text: &str) -> FilePath {
    FilePath::new(text)
}

#[test]
fn resolve_absolute_target_unchanged() {
    let resolved = resolve_link_target(
        &p("/home/user/a/.data/link"),
        &p("/home/user/b/target"),
    );

    assert_eq!(resolved, p("/home/user/b/target"));
}

#[test]
fn resolve_relative_target_against_link_dir() {
    let resolved =
        resolve_link_target(&p("/home/user/a/.data/link"), &p("target"));

    assert_eq!(resolved, p("/home/user/a/.data/target"));
}

#[test]
fn resolve_handles_parent_segments() {
    let resolved = resolve_link_target(
        &p("/home/user/a/.data/bin/link"),
        &p("../../x/y"),
    );

    assert_eq!(resolved, p("/home/user/a/x/y"));
}

/// `lexically_normalize` claims a `..` that would climb past the root is
/// a no-op, the way a shell's `cd ..` at `/` is. Nothing checked that: a
/// link with more `..` than it has depth is exactly what a hand-written
/// relative target looks like when someone miscounts.
#[test]
fn resolve_stops_at_the_root_instead_of_climbing_past_it() {
    let resolved = resolve_link_target(&p("/a/link"), &p("../../../x"));

    assert_eq!(resolved, p("/x"));
}

#[test]
fn resolve_works_for_dangling_target() {
    let resolved = resolve_link_target(
        &p("/home/user/a/.data/link"),
        &p("../missing/gone"),
    );

    assert_eq!(resolved, p("/home/user/a/missing/gone"));
}

#[test]
fn scan_roots_from_claude_json() {
    let mut fs = MockFs::new();
    fs.add_file(
        &p("/home/.data.json"),
        r#"{"projects":{"/home/user/a":{},"/home/user/b":{},"/home/user/c":{}}}"#,
    );
    fs.add_dir(&p("/home/user/a/.data"));
    fs.add_dir(&p("/home/user/b/.data"));
    // /home/user/c/.data never existed — the project is long gone.

    let roots = scan_roots(&fs, &Some(p("/home/.data.json")), &vec![], ".data").unwrap();

    assert_eq!(
        roots,
        vec![
            p("/home/user/a/.data"),
            p("/home/user/b/.data"),
        ]
    );
}

#[test]
fn scan_roots_include_explicit_roots() {
    let mut fs = MockFs::new();
    fs.add_file(
        &p("/home/.data.json"),
        r#"{"projects":{"/home/user/a":{}}}"#,
    );
    fs.add_dir(&p("/home/user/a/.data"));
    fs.add_dir(&p("/work/vendor/cef"));

    let roots = scan_roots(
        &fs,
        &Some(p("/home/.data.json")),
        &vec![p("/work/vendor/cef")], ".data")
    .unwrap();

    assert_eq!(
        roots,
        vec![
            p("/home/user/a/.data"),
            p("/work/vendor/cef"),
        ]
    );
}

/// A malformed registry file must not silently scan zero roots —
/// that would make a Relink report success while relinking nothing.
#[test]
fn scan_roots_errors_on_malformed_claude_json() {
    let mut fs = MockFs::new();
    fs.add_file(&p("/home/.data.json"), "not json");

    let err = scan_roots(&fs, &Some(p("/home/.data.json")), &vec![], ".data").unwrap_err();

    assert!(err.message().contains("/home/.data.json"));
}

/// Unlike a malformed file, a missing registry file is a legitimate
/// empty state — a project can long since be deleted.
#[test]
fn scan_roots_treats_missing_claude_json_as_empty() {
    let mut fs = MockFs::new();

    let roots = scan_roots(&fs, &Some(p("/home/.data.json")), &vec![], ".data").unwrap();

    assert!(roots.is_empty());
}

#[test]
fn explicit_scan_root_is_walked_in_full() {
    let mut fs = MockFs::new();
    fs.add_dir(&p("/work/vendor/cef/global"));
    fs.add_file(&p("/work/vendor/cef/global/settings.json"), "{}");

    let roots = scan_roots(&fs, &None, &vec![p("/work/vendor/cef")], ".data").unwrap();
    let found = walk_scan_roots(&fs, &roots);

    assert_eq!(
        found,
        vec![p("/work/vendor/cef/global/settings.json")]
    );
}

/// `--scan-root ~/work/vendor/cef` on a directory that is *also* a
/// registered project must not yield both `<cef>/.data` (from
/// the registry) and `<cef>` (explicit) — their trees overlap, so
/// walking both would visit every symlink under `<cef>/.data` twice
/// and log it twice.
#[test]
fn scan_roots_does_not_walk_overlapping_roots_twice() {
    let mut fs = MockFs::new();
    fs.add_file(
        &p("/home/.data.json"),
        r#"{"projects":{"/work/vendor/cef":{}}}"#,
    );
    fs.add_dir(&p("/work/vendor/cef/.data"));
    fs.add_file(&p("/work/vendor/cef/.data/link"), "content");

    let roots = scan_roots(
        &fs,
        &Some(p("/home/.data.json")),
        &vec![p("/work/vendor/cef")], ".data")
    .unwrap();

    assert_eq!(
        roots,
        vec![p("/work/vendor/cef")],
        "the nested /work/vendor/cef/.data must be dropped, not kept alongside it"
    );

    let found = walk_scan_roots(&fs, &roots);
    assert_eq!(
        found,
        vec![p("/work/vendor/cef/.data/link")],
        "one root, one visit — a duplicate root would report this path twice"
    );
}

#[test]
fn candidate_matches_longest_prefix() {
    let mut fs = MockFs::new();
    let subs = Substitutions::new(vec![
        ("/x".to_string(), "/x-new".to_string()),
        ("/x/sub".to_string(), "/x/sub-new".to_string()),
    ]);
    fs.add_symlink(
        &p("/outside/link"),
        &p("/x/sub/deep/target.txt"),
    );

    let candidate = relink_candidate(&fs, &p("/outside/link"), &subs).unwrap();

    // `/x/sub` is the longer, more specific entry; if `/x` had won
    // instead, the new target would read `/x-new/sub/deep/target.txt`.
    assert_eq!(
        candidate.new_target,
        p("/x/sub-new/deep/target.txt")
    );
}

#[test]
fn candidate_skips_link_outside_all_sources() {
    let mut fs = MockFs::new();
    let subs = Substitutions::new(vec![("/x".to_string(), "/x-new".to_string())]);
    fs.add_symlink(&p("/outside/link"), &p("/y/other/target.txt"));

    let candidate = relink_candidate(&fs, &p("/outside/link"), &subs);

    assert!(candidate.is_none());
}

#[test]
fn candidate_records_dead_link_as_not_alive() {
    let mut fs = MockFs::new();
    let subs = Substitutions::new(vec![("/x".to_string(), "/x-new".to_string())]);
    // /x/gone.txt was never registered as a file or directory — dead
    // before the Move.
    fs.add_symlink(&p("/outside/link"), &p("/x/gone.txt"));

    let candidate = relink_candidate(&fs, &p("/outside/link"), &subs).unwrap();

    assert!(!candidate.alive);
}

#[test]
fn candidate_does_not_cascade() {
    let mut fs = MockFs::new();
    let subs = Substitutions::new(vec![
        ("/a".to_string(), "/b".to_string()),
        ("/b".to_string(), "/c".to_string()),
    ]);
    fs.add_symlink(&p("/outside/link"), &p("/a/file.txt"));

    let candidate = relink_candidate(&fs, &p("/outside/link"), &subs).unwrap();

    // A single pass applies only the `a -> b` entry; if the result were
    // rescanned against `b -> c`, this would read `/c/file.txt` instead.
    assert_eq!(candidate.new_target, p("/b/file.txt"));
}

#[test]
fn absolute_self_link_is_a_candidate() {
    let mut fs = MockFs::new();
    let subs = Substitutions::new(vec![("/x".to_string(), "/x-new".to_string())]);
    fs.add_dir(&p("/x/.data/lib"));
    fs.add_file(&p("/x/.data/lib/real-tool"), "content");
    fs.add_symlink(
        &p("/x/.data/bin/tool"),
        &p("/x/.data/lib/real-tool"),
    );

    let candidate = relink_candidate(&fs, &p("/x/.data/bin/tool"), &subs).unwrap();

    assert!(!candidate.is_relative);
    assert!(candidate.alive);
    assert_eq!(
        candidate.resolved_target,
        p("/x/.data/lib/real-tool")
    );
}

#[test]
fn textscan_finds_absolute_path_in_file() {
    let mut fs = MockFs::new();
    let subs = Substitutions::new(vec![("/x/proj".to_string(), "/y/proj".to_string())]);
    fs.add_file(
        &p("/outside/config.toml"),
        "line one\npath = \"/x/proj/data\"\nline three",
    );

    let findings = text_references(&fs, &p("/outside/config.toml"), &subs);

    assert_eq!(findings.len(), 1);
    assert_eq!(findings[0].line, 2);
    assert_eq!(findings[0].old, "/x/proj");
    assert_eq!(findings[0].new, "/y/proj");
}

/// One reference per file leaves the cursor that carries line counting
/// from one match to the next completely unexercised — and a config file
/// mentioning the same project twice is the ordinary case, not the odd
/// one. The second line number is the assertion that matters here.
#[test]
fn textscan_numbers_every_reference_in_a_file() {
    let mut fs = MockFs::new();
    let subs = Substitutions::new(vec![("/x/proj".to_string(), "/y/proj".to_string())]);
    fs.add_file(
        &p("/outside/config.toml"),
        "a = \"/x/proj/one\"\nfiller\nfiller\nb = \"/x/proj/two\"",
    );

    let findings = text_references(&fs, &p("/outside/config.toml"), &subs);

    assert_eq!(findings.len(), 2);
    assert_eq!(findings[0].line, 1);
    assert_eq!(findings[1].line, 4);
}

#[test]
fn textscan_skips_binary_and_git() {
    let mut fs = MockFs::new();
    let subs = Substitutions::new(vec![("/x/proj".to_string(), "/y/proj".to_string())]);
    // A NUL byte in the first chunk is this scan's whole binary test —
    // crude, but it will never mistake a real config or source file for
    // binary content.
    fs.add_file(&p("/outside/binary.dat"), "prefix\0/x/proj/data");
    fs.add_file(&p("/outside/.git/config"), "/x/proj/data");

    assert!(text_references(&fs, &p("/outside/binary.dat"), &subs).is_empty());
    assert!(text_references(&fs, &p("/outside/.git/config"), &subs).is_empty());
}

#[test]
fn textscan_skips_moving_source_trees() {
    let mut fs = MockFs::new();
    let subs = Substitutions::new(vec![("/x/proj".to_string(), "/y/proj".to_string())]);
    // ccmv rewrites this file itself (update_local_config_for); a Text
    // Reference finding here would just report the run's own write.
    fs.add_file(
        &p("/x/proj/.data/settings.json"),
        r#"{"cwd":"/x/proj"}"#,
    );

    assert!(text_references(&fs, &p("/x/proj/.data/settings.json"), &subs).is_empty());
}

#[test]
fn textscan_leaves_files_untouched() {
    let mut fs = MockFs::new();
    let subs = Substitutions::new(vec![("/x/proj".to_string(), "/y/proj".to_string())]);
    fs.add_file(&p("/outside/config.toml"), "path = \"/x/proj/data\"");

    let findings = text_references(&fs, &p("/outside/config.toml"), &subs);

    assert_eq!(findings.len(), 1, "sanity: the scan did read this file");
    assert_eq!(fs.write_count(&p("/outside/config.toml")), 0);
}

#[test]
fn relative_self_link_is_not_a_candidate() {
    let mut fs = MockFs::new();
    let subs = Substitutions::new(vec![("/x".to_string(), "/x-new".to_string())]);
    fs.add_dir(&p("/x/.data/lib"));
    fs.add_file(&p("/x/.data/lib/real-tool"), "content");
    fs.add_symlink(
        &p("/x/.data/bin/tool"),
        &p("../lib/real-tool"),
    );

    let candidate = relink_candidate(&fs, &p("/x/.data/bin/tool"), &subs);

    assert!(candidate.is_none());
}
