use ccmv::home::Home;
use ccmv::mock_fs::MockFs;
use ccmv::path::FilePath;
use ccmv::scanner::scan;

fn p(text: &str) -> FilePath {
    FilePath::new(text)
}

fn home(path: &str) -> Home {
    Home {
        path: p(path),
        local_dir: ".data".to_owned(),
        registry: ".data.json".to_owned(),
        archived_registry: "data.json".to_owned(),
        manifest: "contents.json".to_owned(),
    }
}

fn setup_full_project(fs: &mut MockFs) {
    let project = p("/home/user/myproject");
    let data = p("/home/user/.data");
    let encoded = "-home-user-myproject";

    // Project directory
    fs.add_dir(&project);
    fs.add_dir(&project.join(".data"));
    fs.add_file(
        &project.join(".data/settings.json"),
        r#"{"permissions":{"allow":["Bash(/home/user/myproject/.data/hooks/hook.py:*)"]}}"#,
    );
    fs.add_file(
        &project.join(".mcp.json"),
        r#"{"servers":{"path":"/home/user/myproject/server"}}"#,
    );

    // Global directory
    let global_dir = data.join("projects").join(encoded);
    fs.add_dir(&global_dir);
    fs.add_file(
        &global_dir.join("abc-123.jsonl"),
        r#"{"type":"user","cwd":"/home/user/myproject"}"#,
    );
    fs.add_file(
        &global_dir.join("sessions-index.json"),
        r#"{"entries":[{"projectPath":"/home/user/myproject"}]}"#,
    );

    // Subagent files
    let subagent_dir = global_dir.join("abc-123").join("subagents");
    fs.add_dir(&global_dir.join("abc-123"));
    fs.add_dir(&subagent_dir);
    fs.add_file(
        &subagent_dir.join("agent-a1b2c3.jsonl"),
        r#"{"type":"user","cwd":"/home/user/myproject"}"#,
    );

    // History
    fs.add_file(
        &data.join("history.jsonl"),
        r#"{"project":"/home/user/myproject"}"#,
    );
}

#[test]
fn scan_full_project() {
    let mut fs = MockFs::new();
    setup_full_project(&mut fs);

    let state = scan(
        &fs,
        &p("/home/user/myproject"),
        &home("/home/user/.data"),
    )
    .unwrap();

    assert!(state.project_dir_exists);
    assert!(state.local_claude_dir.is_some());
    assert!(state.global_project_dir.is_some());
    assert!(state.settings_json.is_some());
    assert!(state.mcp_json.is_some());
    assert!(state.sessions_index.is_some());
    assert!(state.history_jsonl.is_some());
    assert!(state.paths_consistent);
    // Should have session file + subagent file
    assert!(state.session_files.len() >= 2);
}

#[test]
fn scan_minimal_project_no_claude() {
    let mut fs = MockFs::new();
    fs.add_dir(&p("/home/user/bare-project"));

    let state = scan(
        &fs,
        &p("/home/user/bare-project"),
        &home("/home/user/.data"),
    )
    .unwrap();

    assert!(state.project_dir_exists);
    assert!(state.local_claude_dir.is_none());
    assert!(state.global_project_dir.is_none());
    assert!(state.session_files.is_empty());
    assert!(state.paths_consistent); // No files to check = consistent
}

#[test]
fn scan_moved_project_inconsistent() {
    let mut fs = MockFs::new();
    let data = p("/home/user/.data");

    // Project is now at new path
    fs.add_dir(&p("/home/user/new-location"));

    // But global refs still point to old path
    let old_encoded = "-home-user-old-location";
    let global_dir = data.join("projects").join(old_encoded);
    fs.add_dir(&global_dir);
    fs.add_file(
        &global_dir.join("session.jsonl"),
        r#"{"cwd":"/home/user/old-location"}"#,
    );

    // Scanning old path (which has global refs but project moved)
    let state = scan(&fs, &p("/home/user/old-location"), &home("/home/user/.data")).unwrap();

    assert!(!state.project_dir_exists);
    assert!(state.global_project_dir.is_some());
    assert!(!state.session_files.is_empty());
}

#[test]
fn scan_nonexistent_project() {
    let mut fs = MockFs::new();
    let state = scan(
        &fs,
        &p("/nonexistent"),
        &home("/home/user/.data"),
    )
    .unwrap();

    assert!(!state.project_dir_exists);
    assert!(state.local_claude_dir.is_none());
    assert!(state.global_project_dir.is_none());
    assert!(state.paths_consistent);
}
