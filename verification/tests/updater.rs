use ccmv::fs::Fs;
use ccmv::mock_fs::MockFs;
use ccmv::path::FilePath;
use ccmv::substitution::replace_paths;
use ccmv::substitution::Substitutions;
use ccmv::updater::rename_json_keys;
use ccmv::updater::update_file;
use ccmv::updater::update_files_parallel;

fn p(text: &str) -> FilePath {
    FilePath::new(text)
}

fn subs(pairs: &[(&str, &str)]) -> Substitutions {
    Substitutions::new(
        pairs
            .iter()
            .map(|(o, n)| ((*o).to_owned(), (*n).to_owned()))
            .collect(),
    )
}

#[test]
fn replace_paths_applies_multiple_substitutions() {
    let content = r#"{"a":"/x/one","b":"/x/two","c":"/x/three"}"#;
    let (count, out) = replace_paths(content, &subs(&[("/x/one", "/y/1"), ("/x/two", "/y/2")]));

    assert_eq!(count, 2);
    assert!(out.contains("/y/1"));
    assert!(out.contains("/y/2"));
    assert!(out.contains("/x/three"), "untouched path must survive");
}

/// A single left-to-right pass must not rescan its own output: with
/// `a→b` and `b→c` in one set, an `a` becomes `b` and stops there.
/// Without this, chained substitutions would silently cascade.
#[test]
fn replace_paths_does_not_cascade() {
    let (count, out) = replace_paths(
        r#"{"p":"/x/a"}"#,
        &subs(&[("/x/a", "/x/b"), ("/x/b", "/x/c")]),
    );

    assert_eq!(count, 1);
    assert!(out.contains("/x/b"));
    assert!(!out.contains("/x/c"), "output must not be rescanned");
}

/// Nested sources: the longer prefix must win, otherwise `/x` would
/// consume `/x/sub` before its own entry is ever considered.
#[test]
fn replace_paths_longest_match_wins() {
    let (count, out) = replace_paths(
        r#"{"p":"/x/sub","q":"/x"}"#,
        &subs(&[("/x", "/short"), ("/x/sub", "/long")]),
    );

    assert_eq!(count, 2);
    assert!(out.contains("/long"));
    assert!(out.contains("/short"));
    assert!(!out.contains("/short/sub"));
}

/// `match_at` and `match_prefix` must NOT be merged: text content treats
/// a space as a segment boundary (so `cd /old/proj && ...` in a hook
/// command gets rewritten), but a JSON key *is* one whole path, so the
/// same rule would rewrite the unrelated sibling key `/old proj`.
#[test]
fn json_keys_are_stricter_about_boundaries_than_text() {
    let mut fs = MockFs::new();
    fs.add_file(
        &p("/home/.data.json"),
        r#"{"/x/my":{"trust":true},"/x/my stuff":{"trust":true}}"#,
    );

    let report = rename_json_keys(
        &mut fs,
        &p("/home/.data.json"),
        &subs(&[("/x/my", "/y/mine")]),
        false,
    )
    .unwrap();

    assert_eq!(report.replacements, 1, "only the exact key");
    let content = fs.read_to_string(&p("/home/.data.json")).unwrap();
    let parsed: serde_json::Value = serde_json::from_str(&content).unwrap();
    assert!(parsed.get("/y/mine").is_some());
    assert!(
        parsed.get("/x/my stuff").is_some(),
        "sibling key with a space must survive"
    );
}

#[test]
fn replace_paths_empty_set_is_noop() {
    let content = r#"{"p":"/x/a"}"#;
    let (count, out) = replace_paths(content, &subs(&[]));

    assert_eq!(count, 0);
    assert_eq!(out, content);
}

#[test]
fn update_replaces_cwd_in_jsonl() {
    let mut fs = MockFs::new();
    fs.add_file(
        &p("/data/session.jsonl"),
        r#"{"type":"user","cwd":"/old/path","msg":"hello"}
{"type":"assistant","cwd":"/old/path","msg":"hi"}"#,
    );

    let report = update_file(
        &mut fs,
        &p("/data/session.jsonl"),
        &subs(&[("/old/path", "/new/path")]),
        false,
    )
    .unwrap();

    assert_eq!(report.replacements, 2);
    assert!(!report.skipped);

    let content = fs.read_to_string(&p("/data/session.jsonl")).unwrap();
    assert!(content.contains("/new/path"));
    assert!(!content.contains("/old/path"));
}

#[test]
fn update_skips_file_without_matches() {
    let mut fs = MockFs::new();
    fs.add_file(&p("/data/other.json"), r#"{"key":"value"}"#);

    let report = update_file(
        &mut fs,
        &p("/data/other.json"),
        &subs(&[("/old/path", "/new/path")]),
        false,
    )
    .unwrap();

    assert!(report.skipped);
    assert_eq!(report.replacements, 0);
    // File should be unchanged (not rewritten)
    assert_eq!(
        fs.read_to_string(&p("/data/other.json")).unwrap(),
        r#"{"key":"value"}"#
    );
}

#[test]
fn update_skips_nonexistent_file() {
    let mut fs = MockFs::new();

    let report = update_file(
        &mut fs,
        &p("/nonexistent"),
        &subs(&[("/old/path", "/new/path")]),
        false,
    )
    .unwrap();

    assert!(report.skipped);
    assert_eq!(report.replacements, 0);
}

#[test]
fn update_handles_settings_json() {
    let mut fs = MockFs::new();
    fs.add_file(
        &p("/project/.data/settings.json"),
        r#"{"permissions":{"allow":["Bash(/home/user/old-project/.data/hooks/hook.py:*)"]},"hooks":{"PreToolUse":[{"hooks":[{"command":"python /home/user/old-project/.data/hooks/redirect.py"}]}]}}"#,
    );

    let report = update_file(
        &mut fs,
        &p("/project/.data/settings.json"),
        &subs(&[("/home/user/old-project", "/home/user/new-project")]),
        false,
    )
    .unwrap();

    assert_eq!(report.replacements, 2);
    let content = fs
        .read_to_string(&p("/project/.data/settings.json"))
        .unwrap();
    assert!(content.contains("/home/user/new-project"));
    assert!(!content.contains("/home/user/old-project"));
}

#[test]
fn update_files_parallel_processes_multiple() {
    let mut fs = MockFs::new();
    fs.add_file(&p("/a.jsonl"), r#"{"cwd":"/old"}"#);
    fs.add_file(&p("/b.jsonl"), r#"{"cwd":"/old"}"#);
    fs.add_file(&p("/c.jsonl"), r#"{"key":"value"}"#);

    let files = vec![
        p("/a.jsonl"),
        p("/b.jsonl"),
        p("/c.jsonl"),
    ];

    let reports =
        update_files_parallel(&mut fs, &files, &subs(&[("/old", "/new")]), false).unwrap();

    assert_eq!(reports.len(), 3);
    let updated: Vec<_> = reports.iter().filter(|r| !r.skipped).collect();
    let skipped: Vec<_> = reports.iter().filter(|r| r.skipped).collect();
    assert_eq!(updated.len(), 2);
    assert_eq!(skipped.len(), 1);
}

#[test]
fn update_sessions_index() {
    let mut fs = MockFs::new();
    fs.add_file(
        &p("/data/sessions-index.json"),
        r#"{"version":1,"entries":[{"fullPath":"/home/user/.data/projects/-home-user-old/abc.jsonl","projectPath":"/home/user/old"}]}"#,
    );

    let report = update_file(
        &mut fs,
        &p("/data/sessions-index.json"),
        &subs(&[("/home/user/old", "/home/user/new")]),
        false,
    )
    .unwrap();

    assert_eq!(report.replacements, 1); // only projectPath (fullPath uses encoded hyphens)
    let content = fs
        .read_to_string(&p("/data/sessions-index.json"))
        .unwrap();
    assert!(content.contains("/home/user/new"));
    assert!(!content.contains("/home/user/old"));
}

#[test]
fn dry_run_counts_but_does_not_write() {
    let mut fs = MockFs::new();
    let original = r#"{"cwd":"/old/path","data":"test"}
{"cwd":"/old/path","data":"more"}"#;
    fs.add_file(&p("/data/session.jsonl"), original);

    let report = update_file(
        &mut fs,
        &p("/data/session.jsonl"),
        &subs(&[("/old/path", "/new/path")]),
        true, // dry_run
    )
    .unwrap();

    // Same count as real run
    assert_eq!(report.replacements, 2);
    assert!(!report.skipped);

    // File content unchanged
    let content = fs.read_to_string(&p("/data/session.jsonl")).unwrap();
    assert_eq!(content, original, "dry_run must not modify the file");
}

#[test]
fn rename_json_keys_nested_projects() {
    // Real ~/.data.json structure: keys are under "projects", not top-level
    let mut fs = MockFs::new();
    fs.add_file(
        &p("/home/.data.json"),
        r#"{"numStartups":5,"projects":{"/home/user/old-project":{"hasTrustDialogAccepted":true},"/home/user/other":{"hasTrustDialogAccepted":true}}}"#,
    );

    let report = rename_json_keys(
        &mut fs,
        &p("/home/.data.json"),
        &subs(&[("/home/user/old-project", "/home/user/new-project")]),
        false,
    )
    .unwrap();

    assert_eq!(report.replacements, 1);
    let content = fs.read_to_string(&p("/home/.data.json")).unwrap();
    let parsed: serde_json::Value = serde_json::from_str(&content).unwrap();
    assert!(parsed["projects"].get("/home/user/new-project").is_some());
    assert!(parsed["projects"].get("/home/user/old-project").is_none());
    assert!(parsed["projects"].get("/home/user/other").is_some());
    // Top-level keys preserved
    assert_eq!(parsed["numStartups"], 5);
}

#[test]
fn rename_json_keys_basic() {
    // Fallback: top-level keys (simpler test format)
    let mut fs = MockFs::new();
    fs.add_file(
        &p("/home/.data.json"),
        r#"{"/home/user/old-project":{"hasTrustDialogAccepted":true,"allowedTools":["Bash"]},"/home/user/other":{"hasTrustDialogAccepted":true}}"#,
    );

    let report = rename_json_keys(
        &mut fs,
        &p("/home/.data.json"),
        &subs(&[("/home/user/old-project", "/home/user/new-project")]),
        false,
    )
    .unwrap();

    assert_eq!(report.replacements, 1);
    assert!(!report.skipped);

    let content = fs.read_to_string(&p("/home/.data.json")).unwrap();
    let parsed: serde_json::Value = serde_json::from_str(&content).unwrap();
    assert!(parsed.get("/home/user/new-project").is_some());
    assert!(parsed.get("/home/user/old-project").is_none());
    // Other project untouched
    assert!(parsed.get("/home/user/other").is_some());
    // Value preserved
    assert_eq!(
        parsed["/home/user/new-project"]["hasTrustDialogAccepted"],
        serde_json::Value::Bool(true)
    );
}

#[test]
fn rename_json_keys_subprojects() {
    let mut fs = MockFs::new();
    fs.add_file(
        &p("/home/.data.json"),
        r#"{"/old":{"trust":true},"/old/sub":{"trust":true},"/other":{"trust":true}}"#,
    );

    let report = rename_json_keys(
        &mut fs,
        &p("/home/.data.json"),
        &subs(&[("/old", "/new")]),
        false,
    )
    .unwrap();

    assert_eq!(report.replacements, 2);

    let content = fs.read_to_string(&p("/home/.data.json")).unwrap();
    let parsed: serde_json::Value = serde_json::from_str(&content).unwrap();
    assert!(parsed.get("/new").is_some());
    assert!(parsed.get("/new/sub").is_some());
    assert!(parsed.get("/other").is_some());
    assert!(parsed.get("/old").is_none());
    assert!(parsed.get("/old/sub").is_none());
}

#[test]
fn update_does_not_touch_sibling_paths() {
    let mut fs = MockFs::new();
    fs.add_file(
        &p("/data/history.jsonl"),
        r#"{"project":"/x/hyprland"}
{"project":"/x/hyprland_kde-apps"}
{"project":"/x/hyprland_config_plugin_neovim"}
{"project":"/x/hyprland-old"}
{"project":"/x/hyprland.bak"}
{"project":"/x/hyprland/sub"}"#,
    );

    let report = update_file(
        &mut fs,
        &p("/data/history.jsonl"),
        &subs(&[("/x/hyprland", "/y/hypr")]),
        false,
    )
    .unwrap();

    assert_eq!(report.replacements, 2, "only exact path and its descendant");

    let content = fs.read_to_string(&p("/data/history.jsonl")).unwrap();
    assert!(content.contains(r#"{"project":"/y/hypr"}"#));
    assert!(content.contains(r#"{"project":"/y/hypr/sub"}"#));
    assert!(content.contains("/x/hyprland_kde-apps"));
    assert!(content.contains("/x/hyprland_config_plugin_neovim"));
    assert!(content.contains("/x/hyprland-old"));
    assert!(content.contains("/x/hyprland.bak"));
}

#[test]
fn update_skips_file_with_only_sibling_matches() {
    let mut fs = MockFs::new();
    let original = r#"{"project":"/x/hyprland_kde-apps"}"#;
    fs.add_file(&p("/data/history.jsonl"), original);

    let report = update_file(
        &mut fs,
        &p("/data/history.jsonl"),
        &subs(&[("/x/hyprland", "/y/hypr")]),
        false,
    )
    .unwrap();

    assert!(report.skipped);
    assert_eq!(report.replacements, 0);
    assert_eq!(
        fs.read_to_string(&p("/data/history.jsonl")).unwrap(),
        original
    );
}

#[test]
fn rename_json_keys_ignores_sibling_keys() {
    let mut fs = MockFs::new();
    fs.add_file(
        &p("/home/.data.json"),
        r#"{"/x/hyprland":{"trust":true},"/x/hyprland/sub":{"trust":true},"/x/hyprland_kde-apps":{"trust":true},"/x/hyprland-old":{"trust":true}}"#,
    );

    let report = rename_json_keys(
        &mut fs,
        &p("/home/.data.json"),
        &subs(&[("/x/hyprland", "/y/hypr")]),
        false,
    )
    .unwrap();

    assert_eq!(report.replacements, 2);

    let content = fs.read_to_string(&p("/home/.data.json")).unwrap();
    let parsed: serde_json::Value = serde_json::from_str(&content).unwrap();
    assert!(parsed.get("/y/hypr").is_some());
    assert!(parsed.get("/y/hypr/sub").is_some());
    assert!(parsed.get("/x/hyprland").is_none());
    // Siblings survive under their original keys
    assert!(parsed.get("/x/hyprland_kde-apps").is_some());
    assert!(parsed.get("/x/hyprland-old").is_some());
}

#[test]
fn rename_json_keys_no_match() {
    let mut fs = MockFs::new();
    let original = r#"{"/unrelated":{"trust":true}}"#;
    fs.add_file(&p("/home/.data.json"), original);

    let report = rename_json_keys(
        &mut fs,
        &p("/home/.data.json"),
        &subs(&[("/old", "/new")]),
        false,
    )
    .unwrap();

    assert_eq!(report.replacements, 0);
    assert!(report.skipped);
}

#[test]
fn rename_json_keys_dry_run() {
    let mut fs = MockFs::new();
    let original = r#"{"/old":{"trust":true}}"#;
    fs.add_file(&p("/home/.data.json"), original);

    let report = rename_json_keys(
        &mut fs,
        &p("/home/.data.json"),
        &subs(&[("/old", "/new")]),
        true,
    )
    .unwrap();

    assert_eq!(report.replacements, 1);
    assert!(!report.skipped);

    // File unchanged
    let content = fs.read_to_string(&p("/home/.data.json")).unwrap();
    assert_eq!(content, original);
}

#[test]
fn dry_run_and_real_run_report_same_counts() {
    let mut fs = MockFs::new();
    let content = r#"{"permissions":{"allow":["Bash(/home/user/proj/.data/hook:*)"]},"hooks":{"cmd":"/home/user/proj/.data/redirect.py"}}"#;

    // Dry run
    fs.add_file(&p("/settings.json"), content);
    let dry = update_file(
        &mut fs,
        &p("/settings.json"),
        &subs(&[("/home/user/proj", "/new")]),
        true,
    )
    .unwrap();

    // Real run (same file, same content)
    fs.add_file(&p("/settings.json"), content);
    let real = update_file(
        &mut fs,
        &p("/settings.json"),
        &subs(&[("/home/user/proj", "/new")]),
        false,
    )
    .unwrap();

    assert_eq!(
        dry.replacements, real.replacements,
        "dry and real must report same count"
    );
    assert_eq!(dry.skipped, real.skipped);
}
