use ccmv::batch::Move;
use ccmv::command::Command;
use ccmv::encoder::encode;
use ccmv::fs::Fs;
use ccmv::home::Home;
use ccmv::links::TextReference;
use ccmv::mock_fs::MockFs;
use ccmv::path::FilePath;
use ccmv::plan::Migration;
use ccmv::relink::text_refs_report;
use ccmv::relink::RelinkLogEntry;
use ccmv::scanner::scan;
use ccmv::unit::MigrateOpts;
use ccmv::unit::Unit;

fn p(text: &str) -> FilePath {
    FilePath::new(text)
}

fn home(path: &str) -> Home {
    Home {
        path: p(path),
        local_dir: ".data".to_owned(),
        registry: ".data.json".to_owned(),
        archived_registry: "data.json".to_owned(),
        manifest: "contents.json".to_owned(),
    }
}

fn default_opts() -> MigrateOpts {
    MigrateOpts {
        dry_run: false,
        force: false,
        no_backup: true,
        session_only: false,
        relink: false,
        scan_root: Vec::new(),
    }
}

fn dry_run_opts() -> MigrateOpts {
    MigrateOpts {
        dry_run: true,
        force: false,
        no_backup: true,
        session_only: false,
        relink: false,
        scan_root: Vec::new(),
    }
}

fn setup_project(fs: &mut MockFs, project_path: &str, claude_home: &str) {
    let project = p(project_path);
    let base = p(claude_home);
    let encoded = encode(&project).unwrap();

    // Project dir
    fs.add_dir(&project);
    fs.add_dir(&project.join(".data"));
    fs.add_file(
        &project.join(".data/settings.json"),
        &format!(
            r#"{{"permissions":{{"allow":["Bash({project_path}/.data/hooks/hook.py:*)"]}}}}"#
        ),
    );

    // Global dir
    let global = base.join("projects").join(&encoded);
    fs.add_dir(&global);
    fs.add_file(
        &global.join("session.jsonl"),
        &format!(r#"{{"cwd":"{project_path}"}}"#),
    );
    fs.add_file(
        &global.join("sessions-index.json"),
        &format!(r#"{{"entries":[{{"projectPath":"{project_path}"}}]}}"#),
    );

    // History
    fs.add_file(
        &base.join("history.jsonl"),
        &format!(r#"{{"project":"{project_path}"}}"#),
    );
}

#[test]
fn move_fresh_project() {
    let mut fs = MockFs::new();
    let data = home("/home/user/.data");
    setup_project(&mut fs, "/home/user/old-project", "/home/user/.data");

    let cmd = Command::Move {
        source: p("/home/user/old-project"),
        target: p("/home/user/new-project"),
        opts: default_opts(),
    };

    let report = cmd.execute(&mut fs, &data).unwrap();

    assert!(!report.nothing_to_do);
    assert!(!report.dry_run);

    // Project dir should be moved
    assert!(!fs.path_exists(&p("/home/user/old-project")));
    assert!(fs.is_dir(&p("/home/user/new-project")));

    // Global dir should be renamed
    let old_encoded = encode(&p("/home/user/old-project")).unwrap();
    let new_encoded = encode(&p("/home/user/new-project")).unwrap();
    assert!(!fs.path_exists(&data.path.join("projects").join(&old_encoded)));
    assert!(
        fs.path_exists(
            &data.path
                .join("projects")
                .join(&new_encoded)
                .join("session.jsonl")
        )
    );

    // Session content should reference new path
    let session = fs
        .read_to_string(
            &data.path
                .join("projects")
                .join(&new_encoded)
                .join("session.jsonl"),
        )
        .unwrap();
    assert!(session.contains("/home/user/new-project"));
    assert!(!session.contains("/home/user/old-project"));
}

#[test]
fn move_already_done_nothing_to_do() {
    let mut fs = MockFs::new();
    let data = home("/home/user/.data");
    // Project already at target with consistent paths
    setup_project(&mut fs, "/home/user/project", "/home/user/.data");

    let cmd = Command::Move {
        source: p("/home/user/project"),
        target: p("/home/user/project"),
        opts: default_opts(),
    };

    let report = cmd.execute(&mut fs, &data).unwrap();
    assert!(report.nothing_to_do);
}

#[test]
fn move_conflict_aborts() {
    let mut fs = MockFs::new();
    let data = home("/home/user/.data");
    setup_project(&mut fs, "/home/user/source", "/home/user/.data");
    setup_project(&mut fs, "/home/user/target", "/home/user/.data");

    let cmd = Command::Move {
        source: p("/home/user/source"),
        target: p("/home/user/target"),
        opts: default_opts(), // no --force
    };

    let result = cmd.execute(&mut fs, &data);
    assert!(result.is_err());
    assert!(result.unwrap_err().message().contains("conflict"));
}

#[test]
fn move_dry_run_no_changes() {
    let mut fs = MockFs::new();
    let data = home("/home/user/.data");
    setup_project(&mut fs, "/home/user/old", "/home/user/.data");

    let cmd = Command::Move {
        source: p("/home/user/old"),
        target: p("/home/user/new"),
        opts: dry_run_opts(),
    };

    let report = cmd.execute(&mut fs, &data).unwrap();
    assert!(report.dry_run);

    // Nothing should have changed
    assert!(fs.path_exists(&p("/home/user/old")));
    assert!(!fs.path_exists(&p("/home/user/new")));
}

#[test]
fn move_partial_migration_dir_already_moved() {
    let mut fs = MockFs::new();
    let data = home("/home/user/.data");

    // Project dir already at new location
    fs.add_dir(&p("/home/user/new-project"));
    fs.add_dir(&p("/home/user/new-project").join(".data"));
    fs.add_file(
        &p("/home/user/new-project").join(".data/settings.json"),
        r#"{"permissions":{"allow":["Bash(/home/user/old-project/.data/hooks/hook.py:*)"]}}"#,
    );

    // But global refs still point to old
    let old_encoded = encode(&p("/home/user/old-project")).unwrap();
    let global = data.path.join("projects").join(&old_encoded);
    fs.add_dir(&global);
    fs.add_file(
        &global.join("session.jsonl"),
        r#"{"cwd":"/home/user/old-project"}"#,
    );
    fs.add_file(
        &global.join("sessions-index.json"),
        r#"{"entries":[{"projectPath":"/home/user/old-project"}]}"#,
    );
    fs.add_file(
        &data.path.join("history.jsonl"),
        r#"{"project":"/home/user/old-project"}"#,
    );

    let cmd = Command::Move {
        source: p("/home/user/old-project"),
        target: p("/home/user/new-project"),
        opts: default_opts(),
    };

    let report = cmd.execute(&mut fs, &data).unwrap();
    assert!(!report.nothing_to_do);

    // Global dir renamed
    let new_encoded = encode(&p("/home/user/new-project")).unwrap();
    assert!(
        fs.path_exists(
            &data.path
                .join("projects")
                .join(&new_encoded)
                .join("session.jsonl")
        )
    );

    // Refs updated
    let session = fs
        .read_to_string(
            &data.path
                .join("projects")
                .join(&new_encoded)
                .join("session.jsonl"),
        )
        .unwrap();
    assert!(session.contains("/home/user/new-project"));
}

/// Parent with three sub-projects, all present in the registry file and
/// `history.jsonl`.
fn setup_parent_with_subprojects(fs: &mut MockFs) {
    let home = "/home/user/.data";
    for path in [
        "/home/user/parent",
        "/home/user/parent/a",
        "/home/user/parent/b",
        "/home/user/parent/c",
    ] {
        setup_project(fs, path, home);
    }
    // setup_project overwrites these per call; seed the real multi-project
    // shape once, afterwards.
    fs.add_file(
        &p("/home/user/.data/history.jsonl"),
        "{\"project\":\"/home/user/parent\"}\n{\"project\":\"/home/user/parent/a\"}\n{\"project\":\"/home/user/parent/b\"}\n{\"project\":\"/home/user/parent/c\"}",
    );
    fs.add_file(
        &p("/home/user/.data.json"),
        r#"{"/home/user/parent":{"trust":true},"/home/user/parent/a":{"trust":true},"/home/user/parent/b":{"trust":true},"/home/user/parent/c":{"trust":true}}"#,
    );
}

/// The shared global files are rewritten once for the whole tree, not
/// once per sub-project.
#[test]
fn subproject_move_writes_shared_files_once() {
    let mut fs = MockFs::new();
    let data = home("/home/user/.data");
    setup_parent_with_subprojects(&mut fs);

    let cmd = Command::Move {
        source: p("/home/user/parent"),
        target: p("/home/user/moved"),
        opts: default_opts(),
    };
    cmd.execute(&mut fs, &data).unwrap();

    assert_eq!(
        fs.write_count(&p("/home/user/.data/history.jsonl")),
        1,
        "history.jsonl"
    );
    assert_eq!(
        fs.write_count(&p("/home/user/.data.json")),
        1,
        ".data.json"
    );
}

/// An unreadable file anywhere in the tree must stop the run before the
/// first write. Discovering it mid-flight would leave some global
/// directories already renamed while the project directory and the
/// `.data.json` keys still name the old path.
#[test]
fn unreadable_session_file_stops_the_run_before_any_write() {
    let mut fs = MockFs::new();
    let data = home("/home/user/.data");
    setup_parent_with_subprojects(&mut fs);

    // Listable but not readable — stands in for a broken symlink or a
    // file the user cannot read.
    let encoded = encode(&p("/home/user/parent/b")).unwrap();
    let broken = data.path
        .join("projects")
        .join(&encoded)
        .join("broken.jsonl");
    fs.add_dir(&broken);

    let cmd = Command::Move {
        source: p("/home/user/parent"),
        target: p("/home/user/moved"),
        opts: default_opts(),
    };
    let err = cmd.execute(&mut fs, &data).unwrap_err().message();

    assert!(err.contains("broken.jsonl"), "{err}");
    assert_eq!(
        fs.write_count(&p("/home/user/.data/history.jsonl")),
        0,
        "history.jsonl must not be touched"
    );
    assert_eq!(
        fs.write_count(&p("/home/user/.data.json")),
        0,
        ".data.json must not be touched"
    );
    assert!(
        fs.is_dir(&data.path.join("projects").join(&encoded)),
        "no global directory may have been renamed"
    );
    assert!(
        fs.is_dir(&p("/home/user/parent")),
        "the project directory must still be in place"
    );
}

/// `.data/settings.json` and `.mcp.json` are per-project, not shared,
/// so the parent's single rewrite does not reach them. Hook commands and
/// MCP server paths inside a sub-project would otherwise keep pointing at
/// the pre-move directory.
#[test]
fn subproject_local_config_is_rewritten() {
    let mut fs = MockFs::new();
    let data = home("/home/user/.data");
    setup_parent_with_subprojects(&mut fs);

    let cmd = Command::Move {
        source: p("/home/user/parent"),
        target: p("/home/user/moved"),
        opts: default_opts(),
    };
    cmd.execute(&mut fs, &data).unwrap();

    let settings = fs
        .get_file(&p("/home/user/moved/a/.data/settings.json"))
        .expect("sub-project settings travelled with the parent move");
    assert!(
        settings.contains("/home/user/moved/a/.data/hooks/hook.py"),
        "{settings}"
    );
    assert!(!settings.contains("/home/user/parent"), "{settings}");
}

/// Sub-projects are moved along with their parent, not skipped.
#[test]
fn subproject_globals_and_keys_are_migrated() {
    let mut fs = MockFs::new();
    let data = home("/home/user/.data");
    setup_parent_with_subprojects(&mut fs);

    let cmd = Command::Move {
        source: p("/home/user/parent"),
        target: p("/home/user/moved"),
        opts: default_opts(),
    };
    cmd.execute(&mut fs, &data).unwrap();

    for name in ["a", "b", "c"] {
        let new_sub = format!("/home/user/moved/{name}");
        let encoded = encode(&p(&new_sub)).unwrap();
        let global = data.path.join("projects").join(&encoded);
        assert!(fs.is_dir(&global), "global dir for {new_sub}");

        let session = fs.read_to_string(&global.join("session.jsonl")).unwrap();
        assert!(session.contains(&new_sub), "session cwd for {new_sub}");
    }

    let cj = fs
        .read_to_string(&p("/home/user/.data.json"))
        .unwrap();
    let parsed: serde_json::Value = serde_json::from_str(&cj).unwrap();
    assert!(parsed.get("/home/user/moved").is_some());
    assert!(parsed.get("/home/user/moved/a").is_some());
    assert!(parsed.get("/home/user/parent/a").is_none());
}

/// Project keys may stand under `"projects"`. Sub-projects are found there too,
/// so that their global directories follow the renamed keys.
#[test]
fn subprojects_are_found_in_nested_claude_json() {
    let mut fs = MockFs::new();
    let data = home("/home/user/.data");
    setup_project(&mut fs, "/home/user/parent", "/home/user/.data");
    setup_project(&mut fs, "/home/user/parent/a", "/home/user/.data");
    fs.add_file(
        &p("/home/user/.data.json"),
        r#"{"numStartups":5,"projects":{"/home/user/parent":{"trust":true},"/home/user/parent/a":{"trust":true}}}"#,
    );

    let cmd = Command::Move {
        source: p("/home/user/parent"),
        target: p("/home/user/moved"),
        opts: default_opts(),
    };
    cmd.execute(&mut fs, &data).unwrap();

    let encoded = encode(&p("/home/user/moved/a")).unwrap();
    assert!(
        fs.is_dir(&data.path.join("projects").join(&encoded)),
        "sub-project global dir must follow the key rename"
    );
}

/// Three independent moves in one run: the per-project work happens three
/// times, the two files every project shares exactly once.
#[test]
fn batch_writes_shared_files_once() {
    let mut fs = MockFs::new();
    let data = home("/home/user/.data");
    for name in ["a", "b", "c"] {
        setup_project(&mut fs, &format!("/home/user/{name}"), "/home/user/.data");
    }
    fs.add_dir(&p("/home/user/dest"));
    fs.add_file(
        &p("/home/user/.data/history.jsonl"),
        "{\"project\":\"/home/user/a\"}\n{\"project\":\"/home/user/b\"}\n{\"project\":\"/home/user/c\"}",
    );
    fs.add_file(
        &p("/home/user/.data.json"),
        r#"{"/home/user/a":{"trust":true},"/home/user/b":{"trust":true},"/home/user/c":{"trust":true}}"#,
    );

    let moves = ["a", "b", "c"]
        .into_iter()
        .map(|name| Move {
            source: p(&format!("/home/user/{name}")),
            target: p(&format!("/home/user/dest/{name}")),
            line: None,
        })
        .collect();

    Command::Batch {
        moves,
        opts: default_opts(),
    }
    .execute(&mut fs, &data)
    .unwrap();

    assert_eq!(
        fs.write_count(&p("/home/user/.data/history.jsonl")),
        1,
        "history.jsonl"
    );
    assert_eq!(
        fs.write_count(&p("/home/user/.data.json")),
        1,
        ".data.json"
    );

    // A single write is only right if it carries all three moves.
    let history = fs
        .read_to_string(&data.path.join("history.jsonl"))
        .unwrap();
    let cj = fs
        .read_to_string(&p("/home/user/.data.json"))
        .unwrap();
    for name in ["a", "b", "c"] {
        let landed = format!("/home/user/dest/{name}");
        assert!(history.contains(&landed), "{history}");
        assert!(cj.contains(&landed), "{cj}");
    }
}

fn session_only_opts() -> MigrateOpts {
    MigrateOpts {
        dry_run: false,
        force: false,
        no_backup: true,
        session_only: true,
        relink: false,
        scan_root: Vec::new(),
    }
}

fn session_only_dry_opts() -> MigrateOpts {
    MigrateOpts {
        dry_run: true,
        force: false,
        no_backup: true,
        session_only: true,
        relink: false,
        scan_root: Vec::new(),
    }
}

/// Sets up only the global session data + history + .data.json for `source`.
/// Does not create the project directory itself (caller decides).
fn setup_session_data(fs: &mut MockFs, source: &str, claude_home: &str) {
    let project = p(source);
    let base = p(claude_home);
    let encoded = encode(&project).unwrap();
    let global = base.join("projects").join(&encoded);
    fs.add_dir(&global);
    fs.add_file(
        &global.join("session.jsonl"),
        &format!(r#"{{"cwd":"{source}"}}"#),
    );
    fs.add_file(
        &global.join("sessions-index.json"),
        &format!(r#"{{"entries":[{{"projectPath":"{source}"}}]}}"#),
    );
    fs.add_file(
        &base.join("history.jsonl"),
        &format!(r#"{{"project":"{source}"}}"#),
    );
    if let Some(parent) = base.parent() {
        fs.add_file(
            &parent.join(".data.json"),
            &format!(r#"{{"{source}":{{"trust":true}}}}"#),
        );
    }
}

#[test]
fn session_only_renames_global_dir() {
    let mut fs = MockFs::new();
    let data = home("/home/user/.data");
    let source = "/home/user/.data/worktrees/branch1/proj";
    let target = "/home/user/proj";
    fs.add_dir(&p(source));
    fs.add_dir(&p(target));
    setup_session_data(&mut fs, source, "/home/user/.data");

    let cmd = Command::Move {
        source: p(source),
        target: p(target),
        opts: session_only_opts(),
    };
    let report = cmd.execute(&mut fs, &data).unwrap();
    assert!(!report.nothing_to_do);

    let old_encoded = encode(&p(source)).unwrap();
    let new_encoded = encode(&p(target)).unwrap();
    assert!(!fs.path_exists(&data.path.join("projects").join(&old_encoded)));
    assert!(fs.is_dir(&data.path.join("projects").join(&new_encoded)));
}

#[test]
fn session_only_updates_session_jsonl_cwd() {
    let mut fs = MockFs::new();
    let data = home("/home/user/.data");
    let source = "/home/user/.data/worktrees/branch1/proj";
    let target = "/home/user/proj";
    fs.add_dir(&p(source));
    fs.add_dir(&p(target));
    setup_session_data(&mut fs, source, "/home/user/.data");

    let cmd = Command::Move {
        source: p(source),
        target: p(target),
        opts: session_only_opts(),
    };
    cmd.execute(&mut fs, &data).unwrap();

    let new_encoded = encode(&p(target)).unwrap();
    let session = fs
        .read_to_string(
            &data.path
                .join("projects")
                .join(&new_encoded)
                .join("session.jsonl"),
        )
        .unwrap();
    assert!(session.contains(target));
    assert!(!session.contains(source));
}

#[test]
fn session_only_updates_sessions_index() {
    let mut fs = MockFs::new();
    let data = home("/home/user/.data");
    let source = "/home/user/.data/worktrees/branch1/proj";
    let target = "/home/user/proj";
    fs.add_dir(&p(source));
    fs.add_dir(&p(target));
    setup_session_data(&mut fs, source, "/home/user/.data");

    let cmd = Command::Move {
        source: p(source),
        target: p(target),
        opts: session_only_opts(),
    };
    cmd.execute(&mut fs, &data).unwrap();

    let new_encoded = encode(&p(target)).unwrap();
    let idx = fs
        .read_to_string(
            &data.path
                .join("projects")
                .join(&new_encoded)
                .join("sessions-index.json"),
        )
        .unwrap();
    assert!(idx.contains(target));
    assert!(!idx.contains(source));
}

#[test]
fn session_only_updates_history_jsonl() {
    let mut fs = MockFs::new();
    let data = home("/home/user/.data");
    let source = "/home/user/.data/worktrees/branch1/proj";
    let target = "/home/user/proj";
    fs.add_dir(&p(source));
    fs.add_dir(&p(target));
    setup_session_data(&mut fs, source, "/home/user/.data");

    let cmd = Command::Move {
        source: p(source),
        target: p(target),
        opts: session_only_opts(),
    };
    cmd.execute(&mut fs, &data).unwrap();

    let history = fs
        .read_to_string(&data.path.join("history.jsonl"))
        .unwrap();
    assert!(history.contains(target));
    assert!(!history.contains(source));
}

#[test]
fn session_only_does_not_touch_source_project_dir() {
    let mut fs = MockFs::new();
    let data = home("/home/user/.data");
    let source = "/home/user/.data/worktrees/branch1/proj";
    let target = "/home/user/proj";
    fs.add_dir(&p(source));
    fs.add_dir(&p(target));
    // local files inside source — must remain unchanged
    fs.add_dir(&p(source).join(".data"));
    let settings_path = p(source).join(".data/settings.json");
    let settings_content = r#"{"keep":"me"}"#;
    fs.add_file(&settings_path, settings_content);
    setup_session_data(&mut fs, source, "/home/user/.data");

    let cmd = Command::Move {
        source: p(source),
        target: p(target),
        opts: session_only_opts(),
    };
    cmd.execute(&mut fs, &data).unwrap();

    assert!(fs.is_dir(&p(source)));
    assert!(fs.is_dir(&p(source).join(".data")));
    assert_eq!(fs.read_to_string(&settings_path).unwrap(), settings_content);
}

#[test]
fn session_only_does_not_touch_target_project_dir() {
    let mut fs = MockFs::new();
    let data = home("/home/user/.data");
    let source = "/home/user/.data/worktrees/branch1/proj";
    let target = "/home/user/proj";
    fs.add_dir(&p(source));
    fs.add_dir(&p(target));
    // existing unrelated file inside target — must remain unchanged
    let existing = p(target).join("README.md");
    let existing_content = r"# target stays";
    fs.add_file(&existing, existing_content);
    setup_session_data(&mut fs, source, "/home/user/.data");

    let cmd = Command::Move {
        source: p(source),
        target: p(target),
        opts: session_only_opts(),
    };
    cmd.execute(&mut fs, &data).unwrap();

    assert!(fs.is_dir(&p(target)));
    assert_eq!(fs.read_to_string(&existing).unwrap(), existing_content);
    // No .data or settings.json injected into target
    assert!(!fs.path_exists(&p(target).join(".data/settings.json")));
}

#[test]
fn session_only_noop_when_source_equals_target() {
    let mut fs = MockFs::new();
    let data = home("/home/user/.data");
    let source = "/home/user/proj";
    fs.add_dir(&p(source));
    setup_session_data(&mut fs, source, "/home/user/.data");

    let cmd = Command::Move {
        source: p(source),
        target: p(source),
        opts: session_only_opts(),
    };
    let report = cmd.execute(&mut fs, &data).unwrap();
    assert!(report.nothing_to_do);
    assert_eq!(report.action, "session-only-noop");
}

#[test]
fn session_only_errors_when_target_path_missing() {
    let mut fs = MockFs::new();
    let data = home("/home/user/.data");
    let source = "/home/user/old";
    let target = "/home/user/missing";
    fs.add_dir(&p(source));
    // The target is not added.
    setup_session_data(&mut fs, source, "/home/user/.data");

    let cmd = Command::Move {
        source: p(source),
        target: p(target),
        opts: session_only_opts(),
    };
    let err = cmd.execute(&mut fs, &data).unwrap_err();
    assert!(err.message().contains("target path does not exist"));
}

#[test]
fn session_only_errors_when_source_has_no_sessions() {
    let mut fs = MockFs::new();
    let data = home("/home/user/.data");
    let source = "/home/user/empty";
    let target = "/home/user/proj";
    fs.add_dir(&p(source));
    fs.add_dir(&p(target));
    // The source has no global session data.

    let cmd = Command::Move {
        source: p(source),
        target: p(target),
        opts: session_only_opts(),
    };
    let err = cmd.execute(&mut fs, &data).unwrap_err();
    let msg = err.message();
    assert!(
        msg.contains("nothing to move") || msg.contains("source not found"),
        "unexpected error: {msg}"
    );
}

#[test]
fn session_only_dry_run_makes_no_changes() {
    let mut fs = MockFs::new();
    let data = home("/home/user/.data");
    let source = "/home/user/.data/worktrees/branch1/proj";
    let target = "/home/user/proj";
    fs.add_dir(&p(source));
    fs.add_dir(&p(target));
    setup_session_data(&mut fs, source, "/home/user/.data");

    let old_encoded = encode(&p(source)).unwrap();
    let old_global = data.path.join("projects").join(&old_encoded);
    let session_before = fs
        .read_to_string(&old_global.join("session.jsonl"))
        .unwrap();
    let history_before = fs
        .read_to_string(&data.path.join("history.jsonl"))
        .unwrap();

    let cmd = Command::Move {
        source: p(source),
        target: p(target),
        opts: session_only_dry_opts(),
    };
    let report = cmd.execute(&mut fs, &data).unwrap();
    assert!(report.dry_run);

    // Old global still in place
    assert!(fs.is_dir(&old_global));
    let new_encoded = encode(&p(target)).unwrap();
    assert!(!fs.path_exists(&data.path.join("projects").join(&new_encoded)));
    // Files unchanged
    assert_eq!(
        fs.read_to_string(&old_global.join("session.jsonl"))
            .unwrap(),
        session_before
    );
    assert_eq!(
        fs.read_to_string(&data.path.join("history.jsonl"))
            .unwrap(),
        history_before
    );
}

/// Without anything at the source, a session-only run must not take the target
/// for it.
#[test]
fn session_only_bails_when_source_has_no_data_even_if_target_does() {
    let mut fs = MockFs::new();
    let data = home("/home/user/.data");
    let source = "/home/user/.data/worktrees/gone/proj";
    let target = "/home/user/proj";
    // Source has NO project dir and NO global dir.
    // Target exists AND has its own session data.
    fs.add_dir(&p(target));
    setup_session_data(&mut fs, target, "/home/user/.data");

    let cmd = Command::Move {
        source: p(source),
        target: p(target),
        opts: session_only_opts(),
    };
    let err = cmd.execute(&mut fs, &data).unwrap_err();
    let msg = err.message();
    assert!(
        msg.contains("source not found") || msg.contains("nothing to move"),
        "expected source-not-found bail, got: {msg}"
    );
}

#[test]
fn session_only_no_backup_skips_backup() {
    let mut fs = MockFs::new();
    let data = home("/home/user/.data");
    let source = "/home/user/.data/worktrees/branch1/proj";
    let target = "/home/user/proj";
    fs.add_dir(&p(source));
    fs.add_dir(&p(target));
    setup_session_data(&mut fs, source, "/home/user/.data");

    let cmd = Command::Move {
        source: p(source),
        target: p(target),
        opts: session_only_opts(), // no_backup = true
    };
    let report = cmd.execute(&mut fs, &data).unwrap();
    assert!(report.backup_paths.is_empty());
}

#[test]
fn session_only_works_when_source_dir_already_deleted() {
    let mut fs = MockFs::new();
    let data = home("/home/user/.data");
    let source = "/home/user/.data/worktrees/branch1/proj";
    let target = "/home/user/proj";
    // The source directory is gone.
    fs.add_dir(&p(target));
    setup_session_data(&mut fs, source, "/home/user/.data");

    let cmd = Command::Move {
        source: p(source),
        target: p(target),
        opts: session_only_opts(),
    };
    let report = cmd.execute(&mut fs, &data).unwrap();
    assert!(!report.nothing_to_do);

    // .data.json key renamed
    let cj = fs
        .read_to_string(&p("/home/user/.data.json"))
        .unwrap();
    assert!(cj.contains(target));
    assert!(!cj.contains(source));

    // Global dir moved
    let new_encoded = encode(&p(target)).unwrap();
    assert!(fs.is_dir(&data.path.join("projects").join(&new_encoded)));
}

fn relink_opts(scan_root: Vec<FilePath>) -> MigrateOpts {
    MigrateOpts {
        dry_run: false,
        force: false,
        no_backup: true,
        session_only: false,
        relink: true,
        scan_root,
    }
}

fn relink_dry_run_opts(scan_root: Vec<FilePath>) -> MigrateOpts {
    MigrateOpts {
        dry_run: true,
        force: false,
        no_backup: true,
        session_only: false,
        relink: true,
        scan_root,
    }
}

#[test]
fn relink_repoints_absolute_link() {
    let mut fs = MockFs::new();
    let data = home("/home/user/.data");
    setup_project(&mut fs, "/home/user/old-project", "/home/user/.data");
    fs.add_file(&p("/home/user/old-project/target.txt"), "content");
    fs.add_dir(&p("/outside"));
    fs.add_symlink(
        &p("/outside/link"),
        &p("/home/user/old-project/target.txt"),
    );

    let cmd = Command::Move {
        source: p("/home/user/old-project"),
        target: p("/home/user/new-project"),
        opts: relink_opts(vec![p("/outside")]),
    };
    cmd.execute(&mut fs, &data).unwrap();

    assert_eq!(
        fs.read_link(&p("/outside/link")).unwrap(),
        p("/home/user/new-project/target.txt")
    );
}

#[test]
fn relink_keeps_relative_link_relative() {
    let mut fs = MockFs::new();
    let data = home("/home/user/.data");
    setup_project(&mut fs, "/home/user/old-project", "/home/user/.data");
    fs.add_file(&p("/home/user/old-project/target.txt"), "content");
    fs.add_dir(&p("/home/user/somewhere/sub"));
    // From /home/user/somewhere/sub, "../../old-project/target.txt"
    // resolves to /home/user/old-project/target.txt.
    fs.add_symlink(
        &p("/home/user/somewhere/sub/link"),
        &p("../../old-project/target.txt"),
    );

    let cmd = Command::Move {
        source: p("/home/user/old-project"),
        target: p("/home/user/new-project"),
        opts: relink_opts(vec![p("/home/user/somewhere")]),
    };
    cmd.execute(&mut fs, &data).unwrap();

    let written = fs
        .read_link(&p("/home/user/somewhere/sub/link"))
        .unwrap();
    assert!(!written.is_absolute(), "{}", written.as_str());
    assert_eq!(
        written,
        p("../../new-project/target.txt"),
        "{}",
        written.as_str()
    );
}

#[test]
fn relink_repoints_self_link_at_new_location() {
    let mut fs = MockFs::new();
    let data = home("/home/user/.data");
    setup_project(&mut fs, "/home/user/old-project", "/home/user/.data");
    fs.add_dir(&p("/home/user/old-project/.data/lib"));
    fs.add_file(
        &p("/home/user/old-project/.data/lib/real-tool"),
        "content",
    );
    fs.add_symlink(
        &p("/home/user/old-project/.data/bin/tool"),
        &p("/home/user/old-project/.data/lib/real-tool"),
    );

    let cmd = Command::Move {
        source: p("/home/user/old-project"),
        target: p("/home/user/new-project"),
        opts: relink_opts(vec![p("/home/user/old-project")]),
    };
    cmd.execute(&mut fs, &data).unwrap();

    assert!(
        !fs.is_symlink(&p("/home/user/old-project/.data/bin/tool")),
        "old path must be gone; the whole project directory moved"
    );
    assert_eq!(
        fs.read_link(&p("/home/user/new-project/.data/bin/tool"))
            .unwrap(),
        p("/home/user/new-project/.data/lib/real-tool")
    );
}

#[test]
fn relink_skips_link_that_was_already_dead() {
    let mut fs = MockFs::new();
    let data = home("/home/user/.data");
    setup_project(&mut fs, "/home/user/old-project", "/home/user/.data");
    // /home/user/old-project/gone.txt was never registered — dead before
    // the Move.
    fs.add_dir(&p("/outside"));
    fs.add_symlink(
        &p("/outside/link"),
        &p("/home/user/old-project/gone.txt"),
    );

    let cmd = Command::Move {
        source: p("/home/user/old-project"),
        target: p("/home/user/new-project"),
        opts: relink_opts(vec![p("/outside")]),
    };
    cmd.execute(&mut fs, &data).unwrap();

    assert_eq!(
        fs.read_link(&p("/outside/link")).unwrap(),
        p("/home/user/old-project/gone.txt"),
        "a link dead before the Move is not this Run's business"
    );
}

#[test]
fn relink_does_nothing_when_move_fails() {
    let mut fs = MockFs::new();
    let data = home("/home/user/.data");
    setup_project(&mut fs, "/home/user/old-project", "/home/user/.data");
    fs.add_file(&p("/home/user/old-project/target.txt"), "content");
    fs.add_dir(&p("/outside"));
    fs.add_symlink(
        &p("/outside/link"),
        &p("/home/user/old-project/target.txt"),
    );
    // The rename can never succeed: the target's parent directory
    // refuses writes.
    fs.add_dir(&p("/readonly-dest"));
    fs.add_readonly_dir(&p("/readonly-dest"));

    let cmd = Command::Move {
        source: p("/home/user/old-project"),
        target: p("/readonly-dest/new-project"),
        opts: relink_opts(vec![p("/outside")]),
    };
    let err = cmd.execute(&mut fs, &data).unwrap_err();

    assert!(err.message().contains("nothing was changed"), "{err:?}");
    assert_eq!(
        fs.read_link(&p("/outside/link")).unwrap(),
        p("/home/user/old-project/target.txt"),
        "a failed Move must relink nothing"
    );
}

/// A link inside one unit points into another. It is found only if the scan runs
/// before any unit of the batch is renamed.
#[test]
fn relink_scans_before_any_rename_in_batch() {
    let mut fs = MockFs::new();
    let data = home("/home/user/.data");
    setup_project(&mut fs, "/home/user/a", "/home/user/.data");
    setup_project(&mut fs, "/home/user/b", "/home/user/.data");
    fs.add_file(&p("/home/user/b/marker.txt"), "content");
    fs.add_symlink(
        &p("/home/user/a/.data/link"),
        &p("/home/user/b/marker.txt"),
    );
    fs.add_dir(&p("/home/user/dest"));

    let moves = vec![
        Move {
            source: p("/home/user/a"),
            target: p("/home/user/dest/a"),
            line: None,
        },
        Move {
            source: p("/home/user/b"),
            target: p("/home/user/dest/b"),
            line: None,
        },
    ];

    Command::Batch {
        moves,
        opts: relink_opts(vec![p("/home/user/a")]),
    }
    .execute(&mut fs, &data)
    .unwrap();

    assert_eq!(
        fs.read_link(&p("/home/user/dest/a/.data/link"))
            .unwrap(),
        p("/home/user/dest/b/marker.txt"),
        "the link's target was alive before the batch started, regardless of which unit's \
         rename ran first — a scan after A's rename would never have found this link at all"
    );
}

/// A link in a read-only directory cannot be written; the run must not
/// stop there — the rename already landed, and a link elsewhere is
/// demonstrably still repointed afterwards.
#[test]
fn relink_continues_after_write_failure() {
    let mut fs = MockFs::new();
    let data = home("/home/user/.data");
    setup_project(&mut fs, "/home/user/old-project", "/home/user/.data");
    fs.add_file(&p("/home/user/old-project/target.txt"), "content");

    fs.add_dir(&p("/readonly"));
    fs.add_readonly_dir(&p("/readonly"));
    fs.add_symlink(
        &p("/readonly/link"),
        &p("/home/user/old-project/target.txt"),
    );

    fs.add_dir(&p("/outside"));
    fs.add_symlink(
        &p("/outside/link"),
        &p("/home/user/old-project/target.txt"),
    );

    let cmd = Command::Move {
        source: p("/home/user/old-project"),
        target: p("/home/user/new-project"),
        opts: relink_opts(vec![p("/readonly"), p("/outside")]),
    };
    let report = cmd.execute(&mut fs, &data).unwrap();

    assert_eq!(
        report.relink_failures.len(),
        1,
        "{:?}",
        report.relink_failures
    );
    assert_eq!(
        fs.read_link(&p("/readonly/link")).unwrap(),
        p("/home/user/old-project/target.txt"),
        "a write failure must not silently succeed"
    );
    assert_eq!(
        fs.read_link(&p("/outside/link")).unwrap(),
        p("/home/user/new-project/target.txt"),
        "a link elsewhere must still be repointed despite the failure"
    );
}

#[test]
fn relink_write_failure_sets_exit_code() {
    let mut fs = MockFs::new();
    let data = home("/home/user/.data");
    setup_project(&mut fs, "/home/user/old-project", "/home/user/.data");
    fs.add_file(&p("/home/user/old-project/target.txt"), "content");

    fs.add_dir(&p("/readonly"));
    fs.add_readonly_dir(&p("/readonly"));
    fs.add_symlink(
        &p("/readonly/link"),
        &p("/home/user/old-project/target.txt"),
    );

    let cmd = Command::Move {
        source: p("/home/user/old-project"),
        target: p("/home/user/new-project"),
        opts: relink_opts(vec![p("/readonly")]),
    };
    let report = cmd.execute(&mut fs, &data).unwrap();

    assert_eq!(
        report.relink_failures.len(),
        1,
        "{:?}",
        report.relink_failures
    );
    assert_eq!(
        report.exit_code(),
        1,
        "a genuine write failure from replace_symlink must set a non-zero exit code"
    );
}

/// A run that repoints links in other projects has to say so, and where the log
/// is: no other record says that those trees were written to.
#[test]
fn real_run_reports_how_many_links_it_repointed_and_where_the_log_is() {
    let mut fs = MockFs::new();
    let data = home("/home/user/.data");
    setup_project(&mut fs, "/home/user/old-project", "/home/user/.data");
    fs.add_file(&p("/home/user/old-project/target.txt"), "content");
    fs.add_dir(&p("/outside"));
    fs.add_symlink(
        &p("/outside/link"),
        &p("/home/user/old-project/target.txt"),
    );

    let cmd = Command::Move {
        source: p("/home/user/old-project"),
        target: p("/home/user/new-project"),
        opts: relink_opts(vec![p("/outside")]),
    };
    let report = cmd.execute(&mut fs, &data).unwrap();

    assert!(!report.dry_run);
    assert_eq!(report.relinked_count, 1);
    let log_path = report
        .relink_log_path
        .as_ref()
        .expect("a real run names the relink log it wrote");
    assert!(
        log_path.as_str().ends_with(".relink.tsv"),
        "{}",
        log_path.as_str()
    );
    assert!(
        fs.get_file(log_path).is_some(),
        "the reported path must be the file that was actually written"
    );
}

/// Nothing repointed, nothing to announce — and no log path pointing at a
/// file that was never written.
#[test]
fn run_without_relink_reports_no_repointed_links() {
    let mut fs = MockFs::new();
    let data = home("/home/user/.data");
    setup_project(&mut fs, "/home/user/old-project", "/home/user/.data");

    let cmd = Command::Move {
        source: p("/home/user/old-project"),
        target: p("/home/user/new-project"),
        opts: default_opts(),
    };
    let report = cmd.execute(&mut fs, &data).unwrap();

    assert_eq!(report.relinked_count, 0);
    assert!(report.relink_log_path.is_none());
}

#[test]
fn relink_log_records_every_change() {
    let mut fs = MockFs::new();
    let data = home("/home/user/.data");
    setup_project(&mut fs, "/home/user/old-project", "/home/user/.data");
    fs.add_file(&p("/home/user/old-project/target.txt"), "content");
    fs.add_dir(&p("/outside"));
    fs.add_symlink(
        &p("/outside/link"),
        &p("/home/user/old-project/target.txt"),
    );

    let cmd = Command::Move {
        source: p("/home/user/old-project"),
        target: p("/home/user/new-project"),
        opts: relink_opts(vec![p("/outside")]),
    };
    cmd.execute(&mut fs, &data).unwrap();

    let logs = fs
        .list_dir_recursive(&data.path.join("backups/ccmv"))
        .unwrap();
    let log_path = logs
        .iter()
        .find(|p| p.as_str().ends_with(".relink.tsv"))
        .expect("relink log written");
    let content = fs.get_file(log_path).unwrap();

    assert_eq!(
        content,
        "/outside/link\t/home/user/old-project/target.txt\t/home/user/new-project/target.txt\n"
    );
}

/// The rows are sorted. The entries come out of order here, so that rows written
/// as they come would fail this.
#[test]
fn write_relink_log_sorts_rows_by_path() {
    let mut fs = MockFs::new();
    let data = home("/home/user/.data");
    setup_project(&mut fs, "/home/user/old-project", "/home/user/.data");
    let state = scan(&fs, &p("/home/user/old-project"), &data).unwrap();
    let unit = Unit::from_state(
        &p("/home/user/old-project"),
        &p("/home/user/new-project"),
        state,
    )
    .unwrap();
    let migration =
        Migration::from_units(vec![unit], &data, &relink_opts(Vec::new()), "20260101-000000").unwrap();

    let entries = vec![
        RelinkLogEntry {
            path: p("/outside/c"),
            old: p("/old/c"),
            new: p("/new/c"),
        },
        RelinkLogEntry {
            path: p("/outside/a"),
            old: p("/old/a"),
            new: p("/new/a"),
        },
        RelinkLogEntry {
            path: p("/outside/b"),
            old: p("/old/b"),
            new: p("/new/b"),
        },
    ];

    migration.write_relink_log(&mut fs, entries, &vec![]).unwrap();

    let logs = fs
        .list_dir_recursive(&data.path.join("backups/ccmv"))
        .unwrap();
    let log_path = logs
        .iter()
        .find(|p| p.as_str().ends_with(".relink.tsv"))
        .expect("relink log written");
    let content = fs.get_file(log_path).unwrap();

    assert_eq!(
        content,
        "/outside/a\t/old/a\t/new/a\n/outside/b\t/old/b\t/new/b\n/outside/c\t/old/c\t/new/c\n"
    );
}

/// Making a link anew with the old target in the log restores where it led
/// before the move, also for a relative link that moved along with its project.
#[test]
fn relink_log_old_column_survives_the_readme_rollback() {
    let mut fs = MockFs::new();
    let data = home("/home/user/.data");
    setup_project(&mut fs, "/home/user/a", "/home/user/.data");
    setup_project(&mut fs, "/home/user/b", "/home/user/.data");
    fs.add_file(&p("/home/user/b/marker.txt"), "content");
    // From /home/user/a/.data, "../../b/marker.txt" resolves to
    // /home/user/b/marker.txt. The link's own path (under a) and its
    // target (under b) belong to two *different* Substitution entries,
    // so this is a candidate — not the excluded self-referential case,
    // which only excludes a link and its target moving under the *same*
    // entry.
    fs.add_symlink(
        &p("/home/user/a/.data/link"),
        &p("../../b/marker.txt"),
    );
    fs.add_dir(&p("/home/user/dest"));

    let moves = vec![
        Move {
            source: p("/home/user/a"),
            target: p("/home/user/dest/a"),
            line: None,
        },
        Move {
            source: p("/home/user/b"),
            target: p("/home/user/dest/b"),
            line: None,
        },
    ];

    Command::Batch {
        moves,
        opts: relink_opts(vec![p("/home/user/a")]),
    }
    .execute(&mut fs, &data)
    .unwrap();

    let logs = fs
        .list_dir_recursive(&data.path.join("backups/ccmv"))
        .unwrap();
    let log_path = logs
        .iter()
        .find(|p| p.as_str().ends_with(".relink.tsv"))
        .expect("relink log written");
    let content = fs.get_file(log_path).unwrap();
    let row = content.lines().next().expect("one relink row");
    let mut columns = row.split('\t');
    let path = p(columns.next().unwrap());
    let old = p(columns.next().unwrap());

    // What the log is for: the link is made anew with its old target.
    fs.replace_symlink(&path, &old).unwrap();

    assert_eq!(
        fs.read_link(&path).unwrap(),
        p("/home/user/b/marker.txt"),
        "the rolled-back link must resolve exactly where the original did before the Move"
    );
}

/// The rename and the relink it enabled have both already landed by the
/// time the log is written — an error writing the log itself must not
/// discard that report, nor abort with a hard `Err`: it joins
/// `relink_failures` like any other partial failure, and the run still
/// returns `Ok`.
#[test]
fn relink_log_failure_is_reported_not_fatal() {
    let mut fs = MockFs::new();
    let data = home("/home/user/.data");
    setup_project(&mut fs, "/home/user/old-project", "/home/user/.data");
    fs.add_file(&p("/home/user/old-project/target.txt"), "content");
    fs.add_dir(&p("/outside"));
    fs.add_symlink(
        &p("/outside/link"),
        &p("/home/user/old-project/target.txt"),
    );
    // The Relink Log's own directory refuses writes — the log can't be
    // written, even though the rename and the relink into `/outside/link`
    // already succeeded.
    fs.add_readonly_dir(&p("/home/user/.data/backups/ccmv"));

    let cmd = Command::Move {
        source: p("/home/user/old-project"),
        target: p("/home/user/new-project"),
        opts: relink_opts(vec![p("/outside")]),
    };
    let report = cmd.execute(&mut fs, &data).unwrap();

    assert_eq!(
        report.relink_failures.len(),
        1,
        "{:?}",
        report.relink_failures
    );
    assert_ne!(report.exit_code(), 0);
    assert_eq!(
        fs.read_link(&p("/outside/link")).unwrap(),
        p("/home/user/new-project/target.txt"),
        "the relink itself must still have landed despite the log write failing"
    );
}

/// No candidates changed — the scan found nothing alive to repoint. An
/// empty log file would read as a failed run, not a quiet one.
#[test]
fn relink_log_absent_when_nothing_changed() {
    let mut fs = MockFs::new();
    let data = home("/home/user/.data");
    setup_project(&mut fs, "/home/user/old-project", "/home/user/.data");
    fs.add_dir(&p("/outside"));

    let cmd = Command::Move {
        source: p("/home/user/old-project"),
        target: p("/home/user/new-project"),
        opts: relink_opts(vec![p("/outside")]),
    };
    cmd.execute(&mut fs, &data).unwrap();

    let logs = fs
        .list_dir_recursive(&data.path.join("backups/ccmv"))
        .unwrap();
    assert!(logs.is_empty(), "{logs:?}");
}

/// Without an archive to borrow a name from, the log is still written, with a
/// timestamp of its own.
#[test]
fn relink_log_written_with_no_backup() {
    let mut fs = MockFs::new();
    let data = home("/home/user/.data");
    setup_project(&mut fs, "/home/user/old-project", "/home/user/.data");
    fs.add_file(&p("/home/user/old-project/target.txt"), "content");
    fs.add_dir(&p("/outside"));
    fs.add_symlink(
        &p("/outside/link"),
        &p("/home/user/old-project/target.txt"),
    );

    let cmd = Command::Move {
        source: p("/home/user/old-project"),
        target: p("/home/user/new-project"),
        opts: relink_opts(vec![p("/outside")]),
    };
    cmd.execute(&mut fs, &data).unwrap();

    let logs = fs
        .list_dir_recursive(&data.path.join("backups/ccmv"))
        .unwrap();
    let log_path = logs
        .iter()
        .find(|p| p.as_str().ends_with(".relink.tsv"))
        .expect("relink log written even without a backup archive");

    let encoded = encode(&p("/home/user/old-project")).unwrap();
    let file_name = log_path.file_name().unwrap();
    let timestamp = file_name
        .strip_prefix(&format!("{encoded}-"))
        .and_then(|rest| rest.strip_suffix(".relink.tsv"))
        .unwrap_or_else(|| {
            panic!("expected {{encoded}}-{{timestamp}}.relink.tsv, got {file_name}")
        });
    assert_eq!(
        timestamp.len(),
        "20260101-000000".len(),
        "expected a YYYYMMDD-HHMMSS timestamp of its own, got {file_name}"
    );
    assert!(
        timestamp.chars().all(|c| c.is_ascii_digit() || c == '-'),
        "expected a YYYYMMDD-HHMMSS timestamp of its own, got {file_name}"
    );
}

/// The Relink Log shares its `{encoded}-{timestamp}` name with the run's
/// backup archive, so the two are visibly a pair without a manifest.
///
/// A path with another name shows that the log takes the archive's name: both
/// would be named alike after the project otherwise.
#[test]
fn relink_log_shares_backup_timestamp() {
    let mut fs = MockFs::new();
    let data = home("/home/user/.data");
    setup_project(&mut fs, "/home/user/old-project", "/home/user/.data");
    let state = scan(&fs, &p("/home/user/old-project"), &data).unwrap();
    let unit = Unit::from_state(
        &p("/home/user/old-project"),
        &p("/home/user/new-project"),
        state,
    )
    .unwrap();
    let migration =
        Migration::from_units(vec![unit], &data, &relink_opts(Vec::new()), "20260101-000000").unwrap();

    let backup_path =
        p("/home/user/.data/backups/ccmv/unrelated-name-20260101-000000.tar.gz");
    let log_path = migration.artifact_log_path(&vec![backup_path], "relink.tsv").unwrap();

    assert_eq!(
        log_path,
        p(
            "/home/user/.data/backups/ccmv/unrelated-name-20260101-000000.relink.tsv"
        )
    );
}

#[test]
fn dry_run_lists_candidates_without_writing() {
    let mut fs = MockFs::new();
    let data = home("/home/user/.data");
    setup_project(&mut fs, "/home/user/old-project", "/home/user/.data");
    fs.add_file(&p("/home/user/old-project/target.txt"), "content");
    fs.add_dir(&p("/outside"));
    fs.add_symlink(
        &p("/outside/link"),
        &p("/home/user/old-project/target.txt"),
    );

    let cmd = Command::Move {
        source: p("/home/user/old-project"),
        target: p("/home/user/new-project"),
        opts: relink_dry_run_opts(vec![p("/outside")]),
    };
    let report = cmd.execute(&mut fs, &data).unwrap();

    assert_eq!(
        report.relink_candidates.len(),
        1,
        "{:?}",
        report.relink_candidates
    );
    assert_eq!(
        fs.read_link(&p("/outside/link")).unwrap(),
        p("/home/user/old-project/target.txt"),
        "no replace_symlink must have happened"
    );
    let logs = fs
        .list_dir_recursive(&data.path.join("backups/ccmv"))
        .unwrap();
    assert!(
        logs.iter()
            .all(|p| !p.as_str().ends_with(".relink.tsv")),
        "dry-run must not write a relink log, {logs:?}"
    );
}

#[test]
fn dry_run_lists_self_link_under_old_path() {
    let mut fs = MockFs::new();
    let data = home("/home/user/.data");
    setup_project(&mut fs, "/home/user/old-project", "/home/user/.data");
    fs.add_dir(&p("/home/user/old-project/.data/lib"));
    fs.add_file(
        &p("/home/user/old-project/.data/lib/real-tool"),
        "content",
    );
    fs.add_symlink(
        &p("/home/user/old-project/.data/bin/tool"),
        &p("/home/user/old-project/.data/lib/real-tool"),
    );

    let cmd = Command::Move {
        source: p("/home/user/old-project"),
        target: p("/home/user/new-project"),
        opts: relink_dry_run_opts(vec![p("/home/user/old-project")]),
    };
    let report = cmd.execute(&mut fs, &data).unwrap();

    assert_eq!(
        report.relink_candidates.len(),
        1,
        "{:?}",
        report.relink_candidates
    );
    assert_eq!(
        report.relink_candidates[0].old,
        p("/home/user/old-project/.data/bin/tool"),
        "a candidate appears under its OLD path — nothing was moved"
    );
    assert_eq!(
        report.relink_candidates[0].new,
        p("/home/user/new-project/.data/lib/real-tool")
    );
}

/// A second run over the same state does nothing: a link that points at the new
/// target is no candidate any more.
#[test]
fn relink_second_run_reports_no_changes() {
    let mut fs = MockFs::new();
    let data = home("/home/user/.data");
    setup_project(&mut fs, "/home/user/old-project", "/home/user/.data");
    fs.add_file(&p("/home/user/old-project/target.txt"), "content");
    fs.add_dir(&p("/outside"));
    fs.add_symlink(
        &p("/outside/link"),
        &p("/home/user/old-project/target.txt"),
    );

    let first = Command::Move {
        source: p("/home/user/old-project"),
        target: p("/home/user/new-project"),
        opts: relink_opts(vec![p("/outside")]),
    };
    first.execute(&mut fs, &data).unwrap();
    let logs_after_first = fs
        .list_dir_recursive(&data.path.join("backups/ccmv"))
        .unwrap();
    let log_path = logs_after_first
        .iter()
        .find(|p| p.as_str().ends_with(".relink.tsv"))
        .expect("the first run must have written a log")
        .clone();
    // A second run would write to the same name, so the writes are counted.
    assert_eq!(
        fs.write_count(&log_path),
        1,
        "sanity: the first run must have written the log exactly once"
    );

    // Same invocation again: the old source path is gone, and
    // /outside/link already points at the new target.
    let second = Command::Move {
        source: p("/home/user/old-project"),
        target: p("/home/user/new-project"),
        opts: relink_opts(vec![p("/outside")]),
    };
    let report = second.execute(&mut fs, &data).unwrap();

    assert!(
        report.relink_candidates.is_empty(),
        "{:?}",
        report.relink_candidates
    );
    assert!(
        report.relink_failures.is_empty(),
        "{:?}",
        report.relink_failures
    );
    assert_eq!(
        fs.read_link(&p("/outside/link")).unwrap(),
        p("/home/user/new-project/target.txt"),
        "the second run must not touch an already-relinked link"
    );
    assert_eq!(
        fs.write_count(&log_path),
        1,
        "the second run must not rewrite the relink log at all — a regression that \
         re-matches the link and repoints it at the identical target would still bump this, \
         even though the file's final contents look unchanged"
    );
}

/// A reference found during a run lands in a `.textrefs.tsv` file next to the
/// relink log, under the same name.
#[test]
fn text_refs_log_records_findings() {
    let mut fs = MockFs::new();
    let data = home("/home/user/.data");
    setup_project(&mut fs, "/home/user/old-project", "/home/user/.data");
    fs.add_dir(&p("/outside"));
    fs.add_file(
        &p("/outside/config.toml"),
        "path = \"/home/user/old-project/data\"",
    );

    let cmd = Command::Move {
        source: p("/home/user/old-project"),
        target: p("/home/user/new-project"),
        opts: relink_opts(vec![p("/outside")]),
    };
    let report = cmd.execute(&mut fs, &data).unwrap();

    assert_eq!(report.text_reference_count, 1, "{report:?}");
    let logs = fs
        .list_dir_recursive(&data.path.join("backups/ccmv"))
        .unwrap();
    let log_path = logs
        .iter()
        .find(|p| p.as_str().ends_with(".textrefs.tsv"))
        .expect("text references report written");
    assert_eq!(
        Some(log_path.clone()),
        report.text_refs_report_path,
        "the report must name the file it actually wrote"
    );
    let content = fs.get_file(log_path).unwrap();
    assert_eq!(
        content,
        "/outside/config.toml\t1\t/home/user/old-project\t/home/user/new-project\n"
    );
}

/// No Text References were found — an empty report file would read as a
/// failed run, the same rule `relink_log_absent_when_nothing_changed`
/// checks for the Relink Log.
#[test]
fn text_refs_log_absent_when_nothing_found() {
    let mut fs = MockFs::new();
    let data = home("/home/user/.data");
    setup_project(&mut fs, "/home/user/old-project", "/home/user/.data");
    fs.add_dir(&p("/outside"));

    let cmd = Command::Move {
        source: p("/home/user/old-project"),
        target: p("/home/user/new-project"),
        opts: relink_opts(vec![p("/outside")]),
    };
    let report = cmd.execute(&mut fs, &data).unwrap();

    assert_eq!(report.text_reference_count, 0);
    assert_eq!(report.text_refs_report_path, None);
    let logs = fs
        .list_dir_recursive(&data.path.join("backups/ccmv"))
        .unwrap();
    assert!(
        logs.iter()
            .all(|p| !p.as_str().ends_with(".textrefs.tsv")),
        "{logs:?}"
    );
}

/// Without `--relink`, the text scan must not run at all — the same
/// gate the symlink scan already has. A finding that a `--relink` run
/// would have caught here must go completely unreported.
#[test]
fn text_scan_does_not_run_without_relink_flag() {
    let mut fs = MockFs::new();
    let data = home("/home/user/.data");
    setup_project(&mut fs, "/home/user/old-project", "/home/user/.data");
    fs.add_dir(&p("/outside"));
    fs.add_file(
        &p("/outside/config.toml"),
        "path = \"/home/user/old-project/data\"",
    );
    // Same Scan Root a --relink run would use — only `relink` itself is
    // off, so a leftover scan would still have somewhere to look.
    let mut opts = relink_opts(vec![p("/outside")]);
    opts.relink = false;

    let cmd = Command::Move {
        source: p("/home/user/old-project"),
        target: p("/home/user/new-project"),
        opts,
    };
    let report = cmd.execute(&mut fs, &data).unwrap();

    assert_eq!(report.text_reference_count, 0);
    assert_eq!(report.text_refs_report_path, None);
    let logs = fs
        .list_dir_recursive(&data.path.join("backups/ccmv"))
        .unwrap();
    assert!(
        logs.iter()
            .all(|p| !p.as_str().ends_with(".textrefs.tsv")),
        "{logs:?}"
    );
}

/// Under `--dry-run` the report still counts what it found, in the
/// style of the rest of the dry-run output, but writes nothing — see
/// `dry_run_lists_candidates_without_writing` for the same rule applied
/// to Relink Candidates.
#[test]
fn text_refs_dry_run_reports_count_without_writing() {
    let mut fs = MockFs::new();
    let data = home("/home/user/.data");
    setup_project(&mut fs, "/home/user/old-project", "/home/user/.data");
    fs.add_dir(&p("/outside"));
    fs.add_file(
        &p("/outside/config.toml"),
        "path = \"/home/user/old-project/data\"",
    );

    let cmd = Command::Move {
        source: p("/home/user/old-project"),
        target: p("/home/user/new-project"),
        opts: relink_dry_run_opts(vec![p("/outside")]),
    };
    let report = cmd.execute(&mut fs, &data).unwrap();

    assert_eq!(report.text_reference_count, 1, "{report:?}");
    assert_eq!(report.text_refs_report_path, None);
    // The count alone is not the report: under --dry-run there is no
    // file to point at, so the findings themselves must ride along on
    // the report, the same way relink_candidates does for symlinks.
    assert_eq!(
        report.text_reference_findings.len(),
        1,
        "{:?}",
        report.text_reference_findings
    );
    assert_eq!(
        report.text_reference_findings[0].file,
        p("/outside/config.toml")
    );
    assert_eq!(
        report.text_reference_findings[0].old,
        "/home/user/old-project"
    );
    assert_eq!(
        report.text_reference_findings[0].new,
        "/home/user/new-project"
    );
    let logs = fs
        .list_dir_recursive(&data.path.join("backups/ccmv"))
        .unwrap();
    assert!(
        logs.iter()
            .all(|p| !p.as_str().ends_with(".textrefs.tsv")),
        "dry-run must not write a text references report, {logs:?}"
    );
}

fn text_reference(file: &str, line: usize) -> TextReference {
    TextReference {
        file: p(file),
        line,
        old: "/x/proj".to_owned(),
        new: "/y/proj".to_owned(),
    }
}

/// The rows of one file stand together, in the order of their lines, whatever
/// the order of the findings.
#[test]
fn report_groups_findings_by_file() {
    let findings = vec![
        text_reference("/outside/b.toml", 1),
        text_reference("/outside/a.toml", 5),
        text_reference("/outside/a.toml", 2),
    ];

    let report = text_refs_report(&findings);

    assert_eq!(
        report.lines().collect::<Vec<_>>(),
        vec![
            "/outside/a.toml\t2\t/x/proj\t/y/proj",
            "/outside/a.toml\t5\t/x/proj\t/y/proj",
            "/outside/b.toml\t1\t/x/proj\t/y/proj",
        ]
    );
}

/// The first column is the full absolute path, not a name relative to
/// some root — a consumer greps for one project's rows by that prefix,
/// and a shortened or relative path would make the filter miss them.
#[test]
fn report_is_filterable_by_project_prefix() {
    let findings = vec![
        text_reference("/home/user/project-a/notes.md", 1),
        text_reference("/home/user/project-b/notes.md", 1),
    ];

    let report = text_refs_report(&findings);
    let project_a_rows: Vec<&str> = report
        .lines()
        .filter(|line| line.starts_with("/home/user/project-a"))
        .collect();

    assert_eq!(
        project_a_rows,
        vec!["/home/user/project-a/notes.md\t1\t/x/proj\t/y/proj"]
    );
}

#[test]
fn report_columns_are_file_line_old_new() {
    let findings = vec![text_reference("/outside/config.toml", 3)];

    let report = text_refs_report(&findings);
    let columns: Vec<&str> = report.trim_end().split('\t').collect();

    assert_eq!(
        columns,
        vec!["/outside/config.toml", "3", "/x/proj", "/y/proj"]
    );
}
