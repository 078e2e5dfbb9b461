use ccmv::batch::parse;
use ccmv::cli::Cli;
use ccmv::cli::Commands;
use ccmv::command::normalize_path;
use ccmv::command::paths_to_resolve;
use ccmv::command::Command;
use ccmv::command::Resolved;
use ccmv::encoder::encode;
use ccmv::error::FsError;
use ccmv::fs::Fs;
use ccmv::home::Home;
use ccmv::mock_fs::MockFs;
use ccmv::path::FilePath;
use ccmv::report::report_lines;

const BASE: &str = "/home/user";
const TIMESTAMP: &str = "20260101-000000";

fn p(text: &str) -> FilePath {
    FilePath::new(text)
}

fn home() -> Home {
    Home {
        path: p("/home/user/.data"),
        local_dir: ".data".to_owned(),
        registry: ".data.json".to_owned(),
        archived_registry: "data.json".to_owned(),
        manifest: "contents.json".to_owned(),
    }
}

fn global_of(path: &str) -> FilePath {
    home().path.join("projects").join(&encode(&p(path)).unwrap())
}

fn read(fs: &MockFs, path: &FilePath) -> String {
    fs.read_to_string(path).unwrap()
}

fn registry(fs: &MockFs) -> serde_json::Value {
    serde_json::from_str(&read(fs, &p("/home/user/.data.json"))).unwrap()
}

/// A project with local settings, two recorded conversations, and its lines in
/// the registry and in the history. Gives the project's path.
fn setup_project(fs: &mut MockFs, name: &str) -> String {
    let project = p(BASE).join(name);
    let path = project.as_str().to_owned();
    let global = global_of(&path);

    fs.add_dir(&p(BASE));
    fs.add_dir(&project);
    fs.add_dir(&project.join(".data"));
    fs.add_file(
        &project.join(".data/settings.json"),
        &format!(
            r#"{{"permissions":{{"allow":["Bash({path}/.data/hooks/hook.py:*)"]}},"hooks":{{"PreToolUse":[{{"hooks":[{{"type":"command","command":"python {path}/.data/hooks/redirect.py"}}]}}]}}}}"#
        ),
    );
    fs.add_file(
        &project.join(".mcp.json"),
        &format!(r#"{{"servers":{{"local":{{"command":"node","args":["{path}/server.js"]}}}}}}"#),
    );

    fs.add_dir(&global);
    fs.add_file(
        &global.join("abc-session.jsonl"),
        &format!(
            "{{\"type\":\"user\",\"message\":{{\"role\":\"user\",\"content\":\"hello\"}},\"timestamp\":\"2026-01-01T00:00:00Z\",\"cwd\":\"{path}\"}}\n{{\"type\":\"assistant\",\"message\":{{\"role\":\"assistant\",\"content\":\"hi\"}},\"timestamp\":\"2026-01-01T00:00:01Z\",\"cwd\":\"{path}\"}}"
        ),
    );
    fs.add_file(
        &global.join("sessions-index.json"),
        &format!(
            r#"{{"version":1,"entries":[{{"sessionId":"abc-session","fullPath":"{}/abc-session.jsonl","projectPath":"{path}"}}]}}"#,
            global.as_str()
        ),
    );
    fs.add_dir(&global.join("abc-session/subagents"));
    fs.add_file(
        &global.join("abc-session/subagents/agent-xyz.jsonl"),
        &format!(r#"{{"type":"user","cwd":"{path}"}}"#),
    );

    let registry_path = p("/home/user/.data.json");
    let mut known = if fs.path_exists(&registry_path) {
        registry(fs)
    } else {
        serde_json::from_str("{}").unwrap()
    };
    let entry: serde_json::Value = serde_json::from_str(
        r#"{"hasTrustDialogAccepted":true,"allowedTools":[],"projectOnboardingSeenCount":1}"#,
    )
    .unwrap();
    known.as_object_mut().unwrap().insert(path.clone(), entry);
    fs.add_file(&registry_path, &serde_json::to_string(&known).unwrap());

    let history_path = home().path.join("history.jsonl");
    let line = format!(r#"{{"display":"test","timestamp":1700000000,"project":"{path}"}}"#);
    let history = if fs.path_exists(&history_path) {
        format!("{}\n{line}", read(fs, &history_path))
    } else {
        format!("{line}\n")
    };
    fs.add_file(&history_path, &history);
    path
}

fn cli_with_paths(paths: &[&str]) -> Cli {
    Cli {
        command: None,
        paths: paths.iter().map(|text| p(text)).collect(),
        batch: None,
        dry_run: false,
        verbose: false,
        force: false,
        no_backup: true,
        session_only: false,
        relink: false,
        scan_root: Vec::new(),
    }
}

fn cli_with_batch(list: &str) -> Cli {
    let mut cli = cli_with_paths(&[]);
    cli.batch = Some(p(list));
    cli
}

/// The command that a command line asks for, with paths resolved against `fs`.
fn command_of(fs: &MockFs, cli: &Cli) -> Result<Command, String> {
    let raw = match &cli.batch {
        Some(list) => parse(&read(fs, list)).map_err(|e| e.message())?,
        None => Vec::new(),
    };
    let resolved: Vec<Resolved> = paths_to_resolve(cli, &raw)
        .into_iter()
        .map(|path| Resolved {
            canonical: if fs.path_exists(&normalize_path(&path)) {
                Ok(normalize_path(&path))
            } else {
                Err(FsError::about("not there", &path))
            },
            absolute: Ok(path),
        })
        .collect();
    Command::from_cli(cli, &raw, &resolved, fs).map_err(|e| e.message())
}

/// Runs a command line and gives what is printed.
fn run(fs: &mut MockFs, cli: &Cli) -> Result<String, String> {
    let report = command_of(fs, cli)?
        .execute_at(fs, &home(), TIMESTAMP)
        .map_err(|e| e.message())?;
    Ok(report_lines(&report, cli.verbose).join("\n"))
}

#[test]
fn e2e_dry_run_no_changes() {
    let mut fs = MockFs::new();
    let old = setup_project(&mut fs, "myproject");
    let mut cli = cli_with_paths(&[&old, "/home/user/newproject"]);
    cli.dry_run = true;

    let stdout = run(&mut fs, &cli).unwrap();

    assert!(stdout.contains("Dry run"), "{stdout}");
    assert!(fs.path_exists(&p(&old)));
    assert!(!fs.path_exists(&p("/home/user/newproject")));
}

#[test]
fn e2e_dry_run_reports_all_files_and_counts() {
    let mut fs = MockFs::new();
    let old = setup_project(&mut fs, "myproject");
    let mut cli = cli_with_paths(&[&old, "/home/user/newproject"]);
    cli.dry_run = true;

    let stdout = run(&mut fs, &cli).unwrap();

    for name in [
        "abc-session.jsonl",
        "sessions-index.json",
        "settings.json",
        ".mcp.json",
        "history.jsonl",
        "agent-xyz.jsonl",
    ] {
        assert!(stdout.contains(name), "missing {name} in dry-run output:\n{stdout}");
    }
    assert!(
        !stdout.contains("(0 replacements)"),
        "dry-run should not report 0 replacements for files containing the path:\n{stdout}"
    );
}

#[test]
fn e2e_dry_run_with_underscores_in_path() {
    let mut fs = MockFs::new();
    let old = setup_project(&mut fs, "my_project_name");
    let mut cli = cli_with_paths(&[&old, "/home/user/new_location"]);
    cli.dry_run = true;

    let stdout = run(&mut fs, &cli).unwrap();

    assert!(
        stdout.contains("abc-session.jsonl"),
        "failed to find session files for underscore path:\n{stdout}"
    );
    assert!(
        !stdout.contains("(0 replacements)"),
        "0 replacements for underscore path:\n{stdout}"
    );
}

#[test]
fn e2e_dry_run_does_not_create_backup() {
    let mut fs = MockFs::new();
    let old = setup_project(&mut fs, "myproject");
    let mut cli = cli_with_paths(&[&old, "/home/user/newproject"]);
    cli.dry_run = true;
    cli.no_backup = false;

    run(&mut fs, &cli).unwrap();

    assert!(
        !fs.path_exists(&p("/home/user/.data/backups/ccmv")),
        "dry-run should not create backup"
    );
}

fn extract_replacement_count(line: &str) -> &str {
    let start = line.rfind('(').unwrap() + 1;
    let end = line.rfind(' ').unwrap();
    &line[start..end]
}

fn replacement_counts(stdout: &str) -> Vec<&str> {
    stdout
        .lines()
        .filter(|l| l.contains("replacements)"))
        .map(extract_replacement_count)
        .collect()
}

/// A dry run and the run itself report the same files and replacement counts.
#[test]
fn e2e_dry_run_matches_real_run() {
    let mut dry_fs = MockFs::new();
    let old = setup_project(&mut dry_fs, "test_project");
    let mut cli = cli_with_paths(&[&old, "/home/user/moved_project"]);
    cli.dry_run = true;
    let dry_stdout = run(&mut dry_fs, &cli).unwrap();

    let mut real_fs = MockFs::new();
    setup_project(&mut real_fs, "test_project");
    cli.dry_run = false;
    let real_stdout = run(&mut real_fs, &cli).unwrap();

    let dry_counts = replacement_counts(&dry_stdout);
    assert!(!dry_counts.is_empty(), "{dry_stdout}");
    assert_eq!(
        dry_counts,
        replacement_counts(&real_stdout),
        "Dry:\n{dry_stdout}\nReal:\n{real_stdout}"
    );
}

#[test]
fn e2e_nonexistent_source_aborts() {
    let mut fs = MockFs::new();
    fs.add_dir(&p(BASE));
    let cli = cli_with_paths(&["/home/user/does-not-exist", "/home/user/target"]);

    let stderr = run(&mut fs, &cli).unwrap_err();

    assert!(stderr.contains("source not found"), "{stderr}");
}

#[test]
fn e2e_conflict_aborts() {
    let mut fs = MockFs::new();
    let source = setup_project(&mut fs, "src-dir/myproject");
    setup_project(&mut fs, "dst-dir/myproject");
    fs.add_dir(&p("/home/user/dst-dir"));
    // The target is a directory that is there, so the move goes into it: to a
    // project that has data of its own.
    let cli = cli_with_paths(&[&source, "/home/user/dst-dir"]);

    let stderr = run(&mut fs, &cli).unwrap_err();

    assert!(stderr.contains("conflict"), "{stderr}");
}

/// A rename that cannot work has to be caught before the first write.
#[test]
fn e2e_unusable_target_directory_stops_before_any_write() {
    let mut fs = MockFs::new();
    let source = setup_project(&mut fs, "myproject");
    let history = home().path.join("history.jsonl");
    let before = read(&fs, &history);
    let cli = cli_with_paths(&[&source, "/home/user/no/such/dir"]);

    let stderr = run(&mut fs, &cli).unwrap_err();

    assert!(stderr.contains("cannot move"), "{stderr}");
    assert!(stderr.contains("target directory does not exist"), "{stderr}");
    assert!(fs.path_exists(&p(&source)), "source must still be in place");
    assert_eq!(read(&fs, &history), before, "history.jsonl must not have been touched");
}

#[test]
fn e2e_force_merges_into_existing_target() {
    let mut fs = MockFs::new();
    let source = setup_project(&mut fs, "src-dir/myproject");
    let target = setup_project(&mut fs, "dst-dir/myproject");
    fs.add_dir(&p("/home/user/dst-dir"));
    let mut cli = cli_with_paths(&[&source, "/home/user/dst-dir"]);
    cli.force = true;

    run(&mut fs, &cli).unwrap();

    assert!(!fs.path_exists(&p(&source)), "source should be gone");
    assert!(fs.path_exists(&p(&target)), "target should exist");
    let session = read(&fs, &global_of(&target).join("abc-session.jsonl"));
    assert!(session.contains(&target), "session should reference new path");
}

#[test]
fn e2e_idempotent_double_run() {
    let mut fs = MockFs::new();
    let path = setup_project(&mut fs, "myproject");

    let stdout = run(&mut fs, &cli_with_paths(&[&path, &path])).unwrap();

    assert!(stdout.contains("Nothing to do"), "{stdout}");
}

#[test]
fn e2e_idempotent_rerun_after_completed_move() {
    let mut fs = MockFs::new();
    fs.add_dir(&p("/home/user/old-workspace"));
    let old = setup_project(&mut fs, "old-workspace/myproject");
    fs.add_dir(&p("/home/user/new-workspace"));
    let cli = cli_with_paths(&[&old, "/home/user/new-workspace"]);

    run(&mut fs, &cli).unwrap();

    assert!(!fs.path_exists(&p(&old)), "source should be gone");
    assert!(
        fs.path_exists(&p("/home/user/new-workspace/myproject")),
        "target should exist"
    );

    let stdout = run(&mut fs, &cli).unwrap();
    assert!(stdout.contains("Total path replacements: 0"), "{stdout}");
}

#[test]
fn e2e_idempotent_rerun_explicit_target() {
    let mut fs = MockFs::new();
    let old = setup_project(&mut fs, "old-name");

    let stdout = run(&mut fs, &cli_with_paths(&[&old, "/home/user/new-name"])).unwrap();
    assert!(!stdout.contains("Total path replacements: 0"), "{stdout}");
    assert!(!fs.path_exists(&p(&old)));
    assert!(fs.path_exists(&p("/home/user/new-name")));

    let stdout = run(&mut fs, &cli_with_paths(&[&old, "/home/user/new-name"])).unwrap();
    assert!(stdout.contains("Total path replacements: 0"), "{stdout}");
}

/// Twelve projects and a batch file moving each into `dest/`. Twelve is past
/// the point where the output is cut short, which is what the `-v` test needs.
fn setup_twelve(fs: &mut MockFs) -> String {
    fs.add_dir(&p("/home/user/dest"));
    let mut lines = String::new();
    for i in 0..12 {
        let source = setup_project(fs, &format!("proj{i}"));
        lines.push_str(&format!("{source}\t/home/user/dest/proj{i}\n"));
    }
    fs.add_file(&p("/home/user/moves.tsv"), &lines);
    "/home/user/moves.tsv".to_owned()
}

#[test]
fn e2e_batch_dry_run_prints_the_plan_without_writing() {
    let mut fs = MockFs::new();
    let list = setup_twelve(&mut fs);
    let history = home().path.join("history.jsonl");
    let before = read(&fs, &history);
    let mut cli = cli_with_batch(&list);
    cli.dry_run = true;

    let stdout = run(&mut fs, &cli).unwrap();

    assert!(stdout.contains("move 12 projects"), "{stdout}");
    assert!(stdout.contains("proj0"), "{stdout}");
    assert!(
        stdout.contains("... (2 more, use -v for all)"),
        "the move list is cut short: {stdout}"
    );
    assert_eq!(
        stdout.matches("more, use -v for all").count(),
        2,
        "both lists are cut short: {stdout}"
    );
    assert_eq!(read(&fs, &history), before);
    assert!(fs.is_dir(&p("/home/user/proj0")), "source must stay put");
    assert!(!fs.path_exists(&p("/home/user/dest/proj0")));
}

#[test]
fn e2e_batch_verbose_prints_every_move() {
    let mut fs = MockFs::new();
    let list = setup_twelve(&mut fs);
    let mut cli = cli_with_batch(&list);
    cli.dry_run = true;
    cli.verbose = true;

    let stdout = run(&mut fs, &cli).unwrap();

    for i in 0..12 {
        assert!(stdout.contains(&format!("proj{i} ->")), "proj{i}: {stdout}");
    }
    assert!(!stdout.contains("more, use -v"), "{stdout}");
}

#[test]
fn e2e_batch_moves_every_project_and_keeps_references_consistent() {
    let mut fs = MockFs::new();
    let list = setup_twelve(&mut fs);

    let stdout = run(&mut fs, &cli_with_batch(&list)).unwrap();

    assert!(stdout.contains("move 12 projects"), "{stdout}");
    let history = read(&fs, &home().path.join("history.jsonl"));
    for i in 0..12 {
        let target = format!("/home/user/dest/proj{i}");
        assert!(fs.is_dir(&p(&target)), "{target} must exist");
        assert!(!fs.path_exists(&p(&format!("/home/user/proj{i}"))));
        assert!(history.contains(&target), "history misses {target}");
        let session = read(&fs, &global_of(&target).join("abc-session.jsonl"));
        assert!(session.contains(&target), "session misses {target}");
    }
}

/// A target that is already a project of its own is refused, and `--force` is
/// what says to overwrite it anyway.
#[test]
fn e2e_batch_occupied_target_needs_force() {
    let mut fs = MockFs::new();
    let source = setup_project(&mut fs, "src");
    let target = setup_project(&mut fs, "dest/taken");
    fs.add_dir(&p("/home/user/dest"));
    fs.add_file(&p("/home/user/moves.tsv"), &format!("{source}\t{target}\n"));
    let mut cli = cli_with_batch("/home/user/moves.tsv");

    let stderr = run(&mut fs, &cli).unwrap_err();
    assert!(stderr.contains("--force"), "{stderr}");
    assert!(fs.is_dir(&p(&source)), "nothing may move: {source}");

    cli.force = true;
    run(&mut fs, &cli).unwrap();
    assert!(!fs.path_exists(&p(&source)));
    assert!(fs.is_file(&p(&target).join(".data/settings.json")));
}

#[test]
fn e2e_batch_leaves_other_projects_in_history_alone() {
    let mut fs = MockFs::new();
    let moved = setup_project(&mut fs, "moved");
    let stays = setup_project(&mut fs, "stays");
    fs.add_dir(&p("/home/user/dest"));
    let target = "/home/user/dest/moved";
    fs.add_file(&p("/home/user/moves.tsv"), &format!("{moved}\t{target}\n"));

    run(&mut fs, &cli_with_batch("/home/user/moves.tsv")).unwrap();

    let history = read(&fs, &home().path.join("history.jsonl"));
    assert!(history.contains(target), "moved project must be rewritten: {history}");
    assert!(
        !history.contains(&format!("\"{moved}\"")),
        "old path must be gone: {history}"
    );
    assert!(history.contains(&stays), "the other project must be untouched: {history}");
}

#[test]
fn e2e_move_updates_claude_json() {
    let mut fs = MockFs::new();
    let old = setup_project(&mut fs, "old-project");
    let new = "/home/user/new-project";

    run(&mut fs, &cli_with_paths(&[&old, new])).unwrap();

    let parsed = registry(&fs);
    assert!(parsed.get(new).is_some(), "new path key should exist");
    assert!(parsed.get(&old).is_none(), "old path key should be gone");
    assert_eq!(
        parsed[new]["hasTrustDialogAccepted"],
        serde_json::Value::Bool(true),
        "trust state should be preserved"
    );
}

#[test]
fn e2e_move_preserves_other_projects() {
    let mut fs = MockFs::new();
    let old = setup_project(&mut fs, "project-a");
    let other = setup_project(&mut fs, "project-b");
    let new = "/home/user/project-a-moved";

    run(&mut fs, &cli_with_paths(&[&old, new])).unwrap();

    let parsed = registry(&fs);
    assert!(parsed.get(new).is_some(), "moved project should have new key");
    assert!(parsed.get(&old).is_none(), "old key should be gone");
    assert!(parsed.get(&other).is_some(), "other project should be untouched");
}

#[test]
fn e2e_dry_run_does_not_modify_claude_json() {
    let mut fs = MockFs::new();
    let old = setup_project(&mut fs, "myproject");
    let before = read(&fs, &p("/home/user/.data.json"));
    let mut cli = cli_with_paths(&[&old, "/home/user/newproject"]);
    cli.dry_run = true;

    run(&mut fs, &cli).unwrap();

    assert_eq!(before, read(&fs, &p("/home/user/.data.json")));
}

#[test]
fn e2e_backup_creates_archive() {
    let mut fs = MockFs::new();
    let path = setup_project(&mut fs, "myproject");
    let mut cli = cli_with_paths(&[]);
    cli.command = Some(Commands::Backup { path: p(&path) });

    let stdout = run(&mut fs, &cli).unwrap();

    assert!(stdout.contains("Backup:"), "{stdout}");
    let entries = fs
        .list_dir_recursive(&p("/home/user/.data/backups/ccmv"))
        .unwrap();
    assert_eq!(entries.len(), 1);
    assert_eq!(
        entries[0],
        p("/home/user/.data/backups/ccmv/-home-user-myproject-20260101-000000.tar.gz")
    );
}

#[test]
fn e2e_backup_restore_roundtrip() {
    let mut fs = MockFs::new();
    let path = setup_project(&mut fs, "myproject");
    let project = p(&path);
    let global = global_of(&path);
    let files = [
        global.join("abc-session.jsonl"),
        global.join("sessions-index.json"),
        global.join("abc-session/subagents/agent-xyz.jsonl"),
        project.join(".data/settings.json"),
        project.join(".mcp.json"),
    ];
    let before: Vec<String> = files.iter().map(|file| read(&fs, file)).collect();

    let mut cli = cli_with_paths(&[]);
    cli.command = Some(Commands::Backup { path: p(&path) });
    run(&mut fs, &cli).unwrap();

    fs.remove_dir_all(&global).unwrap();
    fs.remove_dir_all(&project.join(".data")).unwrap();
    fs.remove_file(&project.join(".mcp.json")).unwrap();
    assert!(!fs.path_exists(&global));

    cli.command = Some(Commands::Restore {
        backup_file: p("/home/user/.data/backups/ccmv/-home-user-myproject-20260101-000000.tar.gz"),
    });
    let stdout = run(&mut fs, &cli).unwrap();

    assert!(stdout.contains("Action: restore"), "{stdout}");
    let after: Vec<String> = files.iter().map(|file| read(&fs, file)).collect();
    assert_eq!(before, after);
}

#[test]
fn e2e_move_happy_path() {
    let mut fs = MockFs::new();
    let old = setup_project(&mut fs, "source/myapp");
    fs.add_dir(&p("/home/user/target"));
    let new = "/home/user/target/myapp";

    run(&mut fs, &cli_with_paths(&[&old, new])).unwrap();

    assert!(!fs.path_exists(&p(&old)));
    assert!(fs.path_exists(&p(new)));
    assert!(fs.path_exists(&p(new).join(".mcp.json")));
    let settings = read(&fs, &p(new).join(".data/settings.json"));
    assert!(settings.contains(new));
    assert!(!settings.contains(&old));
    let session = read(&fs, &global_of(new).join("abc-session.jsonl"));
    assert!(session.contains(new));
    assert!(!session.contains(&old));
    let history = read(&fs, &home().path.join("history.jsonl"));
    assert!(history.contains(new));
    assert!(!history.contains(&old));
}

/// A move updates the same files that a dry run reports.
#[test]
fn e2e_move_updates_all_files_reported_by_dry_run() {
    let mut fs = MockFs::new();
    let old = setup_project(&mut fs, "source_project");
    let new = "/home/user/target_project";

    let stdout = run(&mut fs, &cli_with_paths(&[&old, new])).unwrap();

    for name in [
        "abc-session.jsonl",
        "sessions-index.json",
        "settings.json",
        ".mcp.json",
        "history.jsonl",
        "agent-xyz.jsonl",
    ] {
        assert!(stdout.contains(name), "missing {name}:\n{stdout}");
    }
    assert!(!stdout.contains("(0 replacements)"), "unexpected 0 replacements:\n{stdout}");
    for file in [
        global_of(new).join("abc-session.jsonl"),
        p(new).join(".data/settings.json"),
        home().path.join("history.jsonl"),
    ] {
        let content = read(&fs, &file);
        assert!(content.contains(new), "{}: not updated", file.as_str());
        assert!(!content.contains(&old), "{}: still has old path", file.as_str());
    }
}

#[test]
fn e2e_move_into_existing_directory() {
    let mut fs = MockFs::new();
    let old = setup_project(&mut fs, "myproject");
    fs.add_dir(&p("/home/user/destination"));

    run(&mut fs, &cli_with_paths(&[&old, "/home/user/destination"])).unwrap();

    let new = "/home/user/destination/myproject";
    assert!(!fs.path_exists(&p(&old)), "source should be gone");
    assert!(fs.path_exists(&p(new)));
    assert!(fs.path_exists(&p(new).join(".data/settings.json")));
    let session = read(&fs, &global_of(new).join("abc-session.jsonl"));
    assert!(session.contains(new), "session should reference new path");
    assert!(!session.contains(&old), "session should not reference old path");
}

#[test]
fn e2e_move_with_dotdot_in_target() {
    let mut fs = MockFs::new();
    fs.add_dir(&p("/home/user/sub"));
    let old = setup_project(&mut fs, "sub/dir/myproject");

    run(
        &mut fs,
        &cli_with_paths(&[&old, "/home/user/sub/dir/../myproject"]),
    )
    .unwrap();

    let new = "/home/user/sub/myproject";
    assert!(fs.path_exists(&p(new)));
    assert!(!fs.path_exists(&p(&old)), "source should be gone");
    let encoded = encode(&p(new)).unwrap();
    assert!(!encoded.contains("----"), "dotdot not normalized: {encoded}");
    let session = read(&fs, &global_of(new).join("abc-session.jsonl"));
    assert!(session.contains(new), "session should reference normalized path");
}

#[test]
fn e2e_rename_happy_path() {
    let mut fs = MockFs::new();
    let old = setup_project(&mut fs, "old-name");
    let new = "/home/user/new-name";

    run(&mut fs, &cli_with_paths(&[&old, new])).unwrap();

    assert!(!fs.path_exists(&p(&old)));
    assert!(fs.path_exists(&p(new)));
    let session = read(&fs, &global_of(new).join("abc-session.jsonl"));
    assert!(session.contains(new));
}

#[test]
fn e2e_move_does_not_touch_prefix_sibling_projects() {
    let mut fs = MockFs::new();
    let old = setup_project(&mut fs, "hyprland");
    let kde = setup_project(&mut fs, "hyprland_kde-apps");
    let sibling = setup_project(&mut fs, "hyprland-old");
    fs.add_dir(&p("/home/user/moved"));
    let new = "/home/user/moved/hyprland";

    run(&mut fs, &cli_with_paths(&[&old, new])).unwrap();

    assert!(!fs.path_exists(&p(&old)));
    assert!(fs.path_exists(&p(new)));
    let session = read(&fs, &global_of(new).join("abc-session.jsonl"));
    assert!(session.contains(new));
    assert!(!session.contains(&old));
    let history = read(&fs, &home().path.join("history.jsonl"));
    let parsed = registry(&fs);
    for path in [&kde, &sibling] {
        assert!(fs.path_exists(&p(path)));
        assert!(fs.path_exists(&global_of(path)));
        assert!(history.contains(path.as_str()));
        assert!(parsed.get(path).is_some());
    }
    assert!(parsed.get(new).is_some());
    assert!(parsed.get(&old).is_none());
}

#[test]
fn e2e_move_migrates_subproject() {
    let mut fs = MockFs::new();
    let parent = setup_project(&mut fs, "parent");
    let child = setup_project(&mut fs, "parent/child");
    let new_parent = "/home/user/moved-parent";
    let new_child = "/home/user/moved-parent/child";

    run(&mut fs, &cli_with_paths(&[&parent, new_parent])).unwrap();

    assert!(!fs.path_exists(&p(&parent)), "old parent should be gone");
    assert!(fs.path_exists(&p(new_parent)), "new parent should exist");
    let session = read(&fs, &global_of(new_child).join("abc-session.jsonl"));
    assert!(session.contains(new_child));
    assert!(!session.contains(&child));
    let parsed = registry(&fs);
    assert!(parsed.get(new_parent).is_some(), "parent key should be updated");
    assert!(parsed.get(new_child).is_some(), "child key should be updated");
    assert!(parsed.get(&parent).is_none(), "old parent key should be gone");
    assert!(parsed.get(&child).is_none(), "old child key should be gone");
}

/// Only the session data moves, and both project directories stay as they are.
#[test]
fn session_only_worktree_to_main() {
    let mut fs = MockFs::new();
    let src = setup_project(&mut fs, ".data/worktrees/branch1/myproject");
    let tgt = "/home/user/myproject";
    fs.add_dir(&p(tgt));
    fs.add_dir(&p(tgt).join("src"));
    fs.add_file(&p(tgt).join("README.md"), "main repo readme");
    fs.add_file(&p(tgt).join("src/main.rs"), "fn main() {}");
    let settings = read(&fs, &p(&src).join(".data/settings.json"));
    let mcp = read(&fs, &p(&src).join(".mcp.json"));
    let tgt_before = fs.list_dir_recursive(&p(tgt)).unwrap();
    let src_before = fs.list_dir_recursive(&p(&src)).unwrap();
    let mut cli = cli_with_paths(&[&src, tgt]);
    cli.session_only = true;

    run(&mut fs, &cli).unwrap();

    assert!(!fs.path_exists(&global_of(&src)), "source global dir should be removed");
    for name in [
        "abc-session.jsonl",
        "sessions-index.json",
        "abc-session/subagents/agent-xyz.jsonl",
    ] {
        let content = read(&fs, &global_of(tgt).join(name));
        assert!(content.contains(tgt), "{name}");
        assert!(!content.contains(&src), "{name}");
    }
    let history = read(&fs, &home().path.join("history.jsonl"));
    assert!(history.contains(tgt));
    assert!(!history.contains(&src));
    let parsed = registry(&fs);
    assert!(parsed.get(tgt).is_some(), "target trust key missing");
    assert!(parsed.get(&src).is_none(), "source trust key still present");
    assert_eq!(fs.list_dir_recursive(&p(&src)).unwrap(), src_before);
    assert_eq!(read(&fs, &p(&src).join(".data/settings.json")), settings);
    assert_eq!(read(&fs, &p(&src).join(".mcp.json")), mcp);
    assert_eq!(fs.list_dir_recursive(&p(tgt)).unwrap(), tgt_before);
    assert_eq!(read(&fs, &p(tgt).join("README.md")), "main repo readme");
    assert_eq!(read(&fs, &p(tgt).join("src/main.rs")), "fn main() {}");
}

#[test]
fn session_only_dry_run_matches_real() {
    let tgt = "/home/user/myapp";
    let mut dry_fs = MockFs::new();
    let src = setup_project(&mut dry_fs, ".data/worktrees/wt/myapp");
    dry_fs.add_dir(&p(tgt));
    let mut cli = cli_with_paths(&[&src, tgt]);
    cli.session_only = true;
    cli.dry_run = true;
    let dry_stdout = run(&mut dry_fs, &cli).unwrap();

    let mut real_fs = MockFs::new();
    setup_project(&mut real_fs, ".data/worktrees/wt/myapp");
    real_fs.add_dir(&p(tgt));
    cli.dry_run = false;
    let real_stdout = run(&mut real_fs, &cli).unwrap();

    assert!(dry_stdout.contains("Action: session-only"), "{dry_stdout}");
    assert!(real_stdout.contains("Action: session-only"), "{real_stdout}");
    assert_eq!(
        replacement_counts(&dry_stdout),
        replacement_counts(&real_stdout),
        "Dry:\n{dry_stdout}\nReal:\n{real_stdout}"
    );
}

fn archive_names(data: &[u8]) -> Vec<String> {
    let mut archive = tar::Archive::new(flate2::read::GzDecoder::new(data));
    archive
        .entries()
        .unwrap()
        .map(|e| e.unwrap().path().unwrap().to_string_lossy().into_owned())
        .collect()
}

/// A session-only run leaves the source tree alone, so its backup holds the
/// global data and nothing from that tree.
#[test]
fn session_only_backup_excludes_local_files() {
    let mut fs = MockFs::new();
    let src = setup_project(&mut fs, ".data/worktrees/wt/myapp");
    let tgt = "/home/user/myapp";
    fs.add_dir(&p(tgt));
    let mut cli = cli_with_paths(&[&src, tgt]);
    cli.session_only = true;
    cli.no_backup = false;

    let stdout = run(&mut fs, &cli).unwrap();

    let backup_line = stdout
        .lines()
        .find(|l| l.starts_with("Backup:"))
        .expect("expected 'Backup:' line");
    let backup_path = backup_line.trim_start_matches("Backup:").trim();
    let names = archive_names(&fs.read_bytes(&p(backup_path)).unwrap());
    assert!(names.iter().any(|n| n == "contents.json"), "manifest missing: {names:?}");
    assert!(
        names.iter().any(|n| n.starts_with("global/")),
        "global/ payload missing: {names:?}"
    );
    assert!(
        !names.iter().any(|n| n.starts_with("local/")),
        "session-only backup must not contain local/ entries: {names:?}"
    );
}

#[test]
fn session_only_backup_roundtrip() {
    let mut fs = MockFs::new();
    let src = setup_project(&mut fs, ".data/worktrees/wt/myapp");
    let tgt = "/home/user/myapp";
    fs.add_dir(&p(tgt));
    let mut cli = cli_with_paths(&[&src, tgt]);
    cli.session_only = true;
    cli.no_backup = false;
    let stdout = run(&mut fs, &cli).unwrap();
    let backup_line = stdout
        .lines()
        .find(|l| l.starts_with("Backup:"))
        .expect("expected 'Backup:' line in output");
    let backup_path = backup_line.trim_start_matches("Backup:").trim().to_owned();
    assert!(fs.path_exists(&p(&backup_path)), "backup file should exist");
    assert!(!fs.path_exists(&global_of(&src)));
    assert!(fs.path_exists(&global_of(tgt)));

    fs.remove_dir_all(&global_of(tgt)).unwrap();
    let mut restore = cli_with_paths(&[]);
    restore.command = Some(Commands::Restore { backup_file: p(&backup_path) });
    run(&mut fs, &restore).unwrap();

    // The backup was made before the rename: what it holds goes back there.
    let global = global_of(&src);
    assert!(fs.path_exists(&global.join("sessions-index.json")));
    assert!(fs.path_exists(&global.join("abc-session/subagents/agent-xyz.jsonl")));
    assert!(read(&fs, &global.join("abc-session.jsonl")).contains(&src));
}

/// Gives the source's conversation a name of its own, so that merging does not
/// bring it together with the target's.
fn rename_session(fs: &mut MockFs, global: &FilePath) {
    fs.rename(
        &global.join("abc-session.jsonl"),
        &global.join("worktree-session.jsonl"),
    )
    .unwrap();
    fs.rename(&global.join("abc-session"), &global.join("worktree-session"))
        .unwrap();
}

#[test]
fn session_only_merges_into_existing_target_global() {
    let mut fs = MockFs::new();
    let src = setup_project(&mut fs, ".data/worktrees/wt/myapp");
    let tgt = setup_project(&mut fs, "myapp");
    let src_global = global_of(&src);
    let tgt_global = global_of(&tgt);
    rename_session(&mut fs, &src_global);
    let target_session_before = read(&fs, &tgt_global.join("abc-session.jsonl"));
    let mut cli = cli_with_paths(&[&src, &tgt]);
    cli.session_only = true;

    run(&mut fs, &cli).unwrap();

    assert!(!fs.path_exists(&src_global), "source global should be gone");
    assert!(fs.path_exists(&tgt_global.join("worktree-session/subagents/agent-xyz.jsonl")));
    assert_eq!(
        target_session_before,
        read(&fs, &tgt_global.join("abc-session.jsonl")),
        "pre-existing target session should not be touched"
    );
    let migrated = read(&fs, &tgt_global.join("worktree-session.jsonl"));
    assert!(migrated.contains(&tgt));
    assert!(!migrated.contains(&src));
}

#[test]
fn session_only_merges_sessions_index_preserves_target_entries() {
    let mut fs = MockFs::new();
    let src = setup_project(&mut fs, ".data/worktrees/wt/myapp");
    let tgt = setup_project(&mut fs, "myapp");
    let src_global = global_of(&src);
    let tgt_global = global_of(&tgt);
    fs.add_file(
        &src_global.join("sessions-index.json"),
        &format!(
            r#"{{"version":1,"entries":[{{"sessionId":"src-session-uuid","projectPath":"{src}"}}]}}"#
        ),
    );
    fs.add_file(
        &tgt_global.join("sessions-index.json"),
        &format!(
            r#"{{"version":1,"entries":[{{"sessionId":"tgt-session-uuid","projectPath":"{tgt}"}}]}}"#
        ),
    );
    rename_session(&mut fs, &src_global);
    let mut cli = cli_with_paths(&[&src, &tgt]);
    cli.session_only = true;

    run(&mut fs, &cli).unwrap();

    let merged_text = read(&fs, &tgt_global.join("sessions-index.json"));
    let merged: serde_json::Value = serde_json::from_str(&merged_text).unwrap();
    let ids: Vec<&str> = merged["entries"]
        .as_array()
        .unwrap()
        .iter()
        .filter_map(|e| e.get("sessionId").and_then(|v| v.as_str()))
        .collect();
    assert_eq!(ids, ["tgt-session-uuid", "src-session-uuid"]);
    assert!(!merged_text.contains(&src), "merged index still contains old source path");
}

/// Two projects: `a` holds an absolute and a relative link into `b`, a link
/// that was dead before the move, and a file that names `b`. `b` holds a link
/// into itself. Moving `b` repoints every live link and leaves the rest alone.
#[test]
fn e2e_relink_repoints_inbound_links_across_a_real_filesystem() {
    let mut fs = MockFs::new();
    let a = p(&setup_project(&mut fs, "a"));
    let b = p(&setup_project(&mut fs, "b"));
    let tool = b.join(".data/lib/real-tool");
    fs.add_dir(&b.join(".data/lib"));
    fs.add_file(&tool, "tool content");
    fs.add_symlink(&b.join(".data/bin-tool"), &tool);
    fs.add_dir(&a.join(".data/links"));
    fs.add_symlink(&a.join(".data/links/absolute-link"), &tool);
    fs.add_symlink(
        &a.join(".data/links/relative-link"),
        &p("../../../b/.data/lib/real-tool"),
    );
    let dead_target = b.join(".data/lib/missing-tool");
    fs.add_symlink(&a.join(".data/links/dead-link"), &dead_target);
    fs.add_file(
        &a.join(".data/notes.txt"),
        "see /home/user/b/README for details",
    );
    let mut cli = cli_with_paths(&[b.as_str(), "/home/user/b-moved"]);
    cli.relink = true;
    cli.no_backup = false;

    let stdout = run(&mut fs, &cli).unwrap();

    assert!(stdout.contains("Text references: 1"), "{stdout}");
    let new_tool = p("/home/user/b-moved/.data/lib/real-tool");
    assert_eq!(
        fs.read_link(&a.join(".data/links/absolute-link")).unwrap(),
        new_tool
    );
    assert_eq!(
        fs.read_link(&a.join(".data/links/relative-link")).unwrap(),
        p("../../../b-moved/.data/lib/real-tool")
    );
    assert!(!fs.is_symlink(&b.join(".data/bin-tool")));
    assert_eq!(
        fs.read_link(&p("/home/user/b-moved/.data/bin-tool")).unwrap(),
        new_tool
    );
    assert_eq!(
        fs.read_link(&a.join(".data/links/dead-link")).unwrap(),
        dead_target
    );
    assert_eq!(
        read(&fs, &a.join(".data/notes.txt")),
        "see /home/user/b/README for details"
    );

    let stem = p("/home/user/.data/backups/ccmv").join(&format!(
        "{}-{TIMESTAMP}",
        encode(&b).unwrap()
    ));
    assert!(fs.is_file(&p(&format!("{}.tar.gz", stem.as_str()))));
    let log = read(&fs, &p(&format!("{}.relink.tsv", stem.as_str())));
    assert_eq!(log.lines().count(), 3, "expected one row per repointed link: {log}");
    let references = read(&fs, &p(&format!("{}.textrefs.tsv", stem.as_str())));
    assert_eq!(
        references,
        "/home/user/a/.data/notes.txt\t1\t/home/user/b\t/home/user/b-moved\n"
    );
}

#[test]
fn from_cli_propagates_session_only_and_skips_mv_semantics() {
    let mut fs = MockFs::new();
    fs.add_dir(&p("/home/user/target"));
    fs.add_dir(&p("/home/user/target/worktree-src"));
    let mut cli = cli_with_paths(&["/home/user/target/worktree-src", "/home/user/target"]);
    cli.session_only = true;

    match command_of(&fs, &cli).unwrap() {
        Command::Move { source, target, opts } => {
            assert!(opts.session_only);
            assert_eq!(source, p("/home/user/target/worktree-src"));
            assert_eq!(target, p("/home/user/target"));
        }
        _ => panic!("expected Move"),
    }
}

#[test]
fn from_cli_without_session_only_still_applies_mv_semantics() {
    let mut fs = MockFs::new();
    fs.add_dir(&p("/home/user/target"));
    fs.add_dir(&p("/home/user/target/myproj"));
    let cli = cli_with_paths(&["/home/user/target/myproj", "/home/user/target"]);

    match command_of(&fs, &cli).unwrap() {
        Command::Move { target, opts, .. } => {
            assert!(!opts.session_only);
            assert_eq!(target, p("/home/user/target/myproj"));
        }
        _ => panic!("expected Move"),
    }
}

#[test]
fn from_cli_moves_every_source_into_the_target_dir() {
    let mut fs = MockFs::new();
    for dir in ["/t/dest", "/t/a", "/t/b"] {
        fs.add_dir(&p(dir));
    }

    let Command::Batch { moves, .. } =
        command_of(&fs, &cli_with_paths(&["/t/a", "/t/b", "/t/dest"])).unwrap()
    else {
        panic!("expected Batch")
    };
    let targets: Vec<FilePath> = moves.iter().map(|m| m.target.clone()).collect();
    assert_eq!(targets, [p("/t/dest/a"), p("/t/dest/b")]);
}

#[test]
fn from_cli_reads_moves_from_a_batch_file() {
    let mut fs = MockFs::new();
    fs.add_file(&p("/t/moves.tsv"), "# header\n\n/a\t/x/a\n/b\t/x/b\n");

    let Command::Batch { moves, .. } = command_of(&fs, &cli_with_batch("/t/moves.tsv")).unwrap()
    else {
        panic!("expected Batch")
    };
    let seen: Vec<_> = moves
        .iter()
        .map(|m| (m.source.clone(), m.target.clone(), m.line))
        .collect();
    assert_eq!(
        seen,
        [
            (p("/a"), p("/x/a"), Some(3)),
            (p("/b"), p("/x/b"), Some(4)),
        ]
    );
}

#[test]
fn from_cli_rejects_multi_source_when_target_not_a_dir() {
    let mut fs = MockFs::new();
    fs.add_dir(&p("/t/a"));
    fs.add_dir(&p("/t/b"));
    fs.add_file(&p("/t/dest.txt"), "not a directory");

    let Err(err) = command_of(&fs, &cli_with_paths(&["/t/a", "/t/b", "/t/dest.txt"])) else {
        panic!("expected an error")
    };
    assert!(err.contains("target is not a directory"), "{err}");
}

#[test]
fn from_cli_wants_a_source_and_a_target() {
    let fs = MockFs::new();
    let Err(none) = command_of(&fs, &cli_with_paths(&[])) else {
        panic!("expected an error")
    };
    let Err(one) = command_of(&fs, &cli_with_paths(&["/t/a"])) else {
        panic!("expected an error")
    };
    assert!(none.starts_with("missing <SOURCE> and <TARGET> arguments"), "{none}");
    assert!(one.starts_with("missing <TARGET> argument"), "{one}");
}

#[test]
fn relink_conflicts_with_session_only() {
    let mut cli = cli_with_paths(&["/a", "/b"]);
    assert!(cli.conflict().is_none());
    cli.relink = true;
    assert!(cli.conflict().is_none());
    cli.session_only = true;
    let message = cli.conflict().expect("expected a conflict").to_lowercase();
    assert!(message.contains("repair"), "{message}");
    assert!(message.contains("ccmv-0019"), "{message}");
}

#[test]
fn normalizing_takes_dots_out() {
    assert_eq!(normalize_path(&p("/a/b/../c/./d")).as_str(), "/a/c/d");
    assert_eq!(normalize_path(&p("/../a")).as_str(), "/a");
    assert_eq!(normalize_path(&p("a/../../b")).as_str(), "b");
}
