use ccmv::backup::create_backup;
use ccmv::backup::restore_backup;
use ccmv::backup::restore_target;
use ccmv::backup::BackupManifest;
use ccmv::encoder::encode;
use ccmv::error::Error;
use ccmv::fs::Fs;
use ccmv::home::Home;
use ccmv::mock_fs::MockFs;
use ccmv::path::FilePath;

const TIMESTAMP: &str = "20260101-000000";

fn p(text: &str) -> FilePath {
    FilePath::new(text)
}

fn home() -> Home {
    Home {
        path: p("/t/.data"),
        local_dir: ".data".to_owned(),
        registry: ".data.json".to_owned(),
        archived_registry: "data.json".to_owned(),
        manifest: "contents.json".to_owned(),
    }
}

fn setup_test_project(fs: &mut MockFs) -> (FilePath, FilePath) {
    let project = p("/t/myproject");
    fs.add_dir(&project);
    fs.add_dir(&project.join(".data"));
    fs.add_file(&project.join(".data/settings.json"), r#"{"test": true}"#);
    fs.add_file(&project.join(".mcp.json"), r#"{"servers": {}}"#);

    let global = home().path.join("projects").join(&encode(&project).unwrap());
    fs.add_dir(&global);
    fs.add_file(&global.join("session-abc.jsonl"), r#"{"cwd":"/test"}"#);
    fs.add_file(&global.join("sessions-index.json"), r#"{"version": 1}"#);
    fs.add_dir(&global.join("session-abc/subagents"));
    fs.add_file(
        &global.join("session-abc/subagents/agent-xyz.jsonl"),
        r#"{"type":"agent"}"#,
    );
    (project, global)
}

fn back_up(fs: &mut MockFs, project: &FilePath, global: &FilePath) -> Result<FilePath, Error> {
    create_backup(
        fs,
        project,
        &home(),
        global,
        &Some(project.join(".data")),
        &Some(project.join(".mcp.json")),
        &None,
        TIMESTAMP,
    )
}

/// What an archive holds, as the crates read it that wrote it.
fn entries(data: &[u8]) -> Vec<(String, Vec<u8>)> {
    let mut archive = tar::Archive::new(flate2::read::GzDecoder::new(data));
    archive
        .entries()
        .unwrap()
        .map(|e| {
            let mut e = e.unwrap();
            let name = e.path().unwrap().to_string_lossy().into_owned();
            let mut content = Vec::new();
            std::io::Read::read_to_end(&mut e, &mut content).unwrap();
            (name, content)
        })
        .collect()
}

/// An archive with the given entries.
fn packed(entries: &[(&str, &[u8])]) -> Vec<u8> {
    let mut builder = tar::Builder::new(flate2::write::GzEncoder::new(
        Vec::new(),
        flate2::Compression::default(),
    ));
    for (name, content) in entries {
        let mut header = tar::Header::new_gnu();
        header.set_size(content.len().try_into().unwrap());
        header.set_mode(0o644);
        header.set_cksum();
        builder.append_data(&mut header, name, *content).unwrap();
    }
    builder.into_inner().unwrap().finish().unwrap()
}

#[test]
fn create_backup_produces_archive() {
    let mut fs = MockFs::new();
    let (project, global) = setup_test_project(&mut fs);

    let backup_path = back_up(&mut fs, &project, &global).unwrap();

    assert!(fs.path_exists(&backup_path));
    assert!(backup_path.as_str().ends_with(".tar.gz"));
    assert!(backup_path.starts_with(&p("/t/.data/backups/ccmv")));
    assert_eq!(
        backup_path.as_str(),
        "/t/.data/backups/ccmv/-t-myproject-20260101-000000.tar.gz"
    );
}

#[test]
fn backup_restore_roundtrip() {
    let mut fs = MockFs::new();
    let (project, global) = setup_test_project(&mut fs);
    let backup_path = back_up(&mut fs, &project, &global).unwrap();
    fs.remove_dir_all(&global).unwrap();
    fs.remove_dir_all(&project.join(".data")).unwrap();
    fs.remove_file(&project.join(".mcp.json")).unwrap();

    let manifest = restore_backup(&mut fs, &backup_path, "contents.json").unwrap();

    assert_eq!(manifest.source_path, project);
    assert_eq!(manifest.claude_home, home().path);
    assert_eq!(manifest.timestamp, TIMESTAMP);
    assert_eq!(
        fs.read_to_string(&global.join("session-abc.jsonl")).unwrap(),
        r#"{"cwd":"/test"}"#
    );
    assert_eq!(
        fs.read_to_string(&global.join("sessions-index.json")).unwrap(),
        r#"{"version": 1}"#
    );
    assert_eq!(
        fs.read_to_string(&global.join("session-abc/subagents/agent-xyz.jsonl"))
            .unwrap(),
        r#"{"type":"agent"}"#
    );
    assert_eq!(
        fs.read_to_string(&project.join(".data/settings.json")).unwrap(),
        r#"{"test": true}"#
    );
    assert_eq!(
        fs.read_to_string(&project.join(".mcp.json")).unwrap(),
        r#"{"servers": {}}"#
    );
}

/// A link that leads nowhere is left out and does not stop the backup.
#[test]
fn create_backup_skips_broken_symlinks_in_local_claude_dir() {
    let mut fs = MockFs::new();
    let (project, global) = setup_test_project(&mut fs);
    fs.add_dir(&project.join(".data/skills"));
    fs.add_symlink(
        &project.join(".data/skills/broken-link"),
        &p("/nonexistent/target"),
    );

    let backup_path = back_up(&mut fs, &project, &global).unwrap();

    let names: Vec<String> = entries(&fs.read_bytes(&backup_path).unwrap())
        .into_iter()
        .map(|e| e.0)
        .collect();
    assert!(!names.iter().any(|n| n.contains("broken-link")), "{names:?}");
}

#[test]
fn create_backup_without_optional_files() {
    let mut fs = MockFs::new();
    let project = p("/t/bare-project");
    fs.add_dir(&project);
    let global = home().path.join("projects").join(&encode(&project).unwrap());
    fs.add_dir(&global);
    fs.add_file(&global.join("session.jsonl"), "{}");

    let backup_path = create_backup(
        &mut fs, &project, &home(), &global, &None, &None, &None, TIMESTAMP,
    )
    .unwrap();

    assert!(fs.path_exists(&backup_path));
}

#[test]
fn an_archive_starts_with_its_manifest() {
    let mut fs = MockFs::new();
    let (project, global) = setup_test_project(&mut fs);
    fs.add_file(&p("/t/.data.json"), "{}");

    let backup_path = create_backup(
        &mut fs,
        &project,
        &home(),
        &global,
        &Some(project.join(".data")),
        &Some(project.join(".mcp.json")),
        &Some(p("/t/.data.json")),
        TIMESTAMP,
    )
    .unwrap();

    let held = entries(&fs.read_bytes(&backup_path).unwrap());
    let names: Vec<&str> = held.iter().map(|e| e.0.as_str()).collect();
    assert_eq!(names[0], "contents.json");
    let manifest: serde_json::Value = serde_json::from_slice(&held[0].1).unwrap();
    assert_eq!(manifest["source_path"].as_str(), Some("/t/myproject"));
    assert_eq!(manifest["claude_home"].as_str(), Some("/t/.data"));
    assert_eq!(manifest["timestamp"].as_str(), Some(TIMESTAMP));
    for name in [
        "global/session-abc.jsonl",
        "global/sessions-index.json",
        "global/session-abc/subagents/agent-xyz.jsonl",
        "local/.data/settings.json",
        "local/.mcp.json",
        "data.json",
    ] {
        assert!(names.contains(&name), "{name} is missing: {names:?}");
    }
}

#[test]
fn a_relative_project_has_no_backup() {
    let mut fs = MockFs::new();
    let err = back_up(&mut fs, &p("myproject"), &p("/t/.data/projects/x")).unwrap_err();
    assert!(matches!(err, Error::Encoder(_)), "{err:?}");
}

#[test]
fn a_name_that_no_archive_can_keep_fails_the_backup() {
    let mut fs = MockFs::new();
    let (project, global) = setup_test_project(&mut fs);
    fs.add_file(&global.join("a\0b.jsonl"), "{}");
    let err = back_up(&mut fs, &project, &global).unwrap_err();
    assert!(matches!(err, Error::Archive(_)), "{err:?}");
}

#[test]
fn a_refused_entry_stops_a_restore() {
    let mut fs = MockFs::new();
    let manifest = br#"{"source_path":"/w/p","claude_home":"/h/.data","timestamp":"t","version":"v"}"#;
    fs.write_bytes(
        &p("/t/a.tar.gz"),
        &packed(&[("contents.json", manifest), ("global/x.jsonl", b"{}")]),
    )
    .unwrap();
    fs.add_readonly_dir(&p("/h/.data/projects/-w-p"));
    let err = restore_backup(&mut fs, &p("/t/a.tar.gz"), "contents.json").unwrap_err();
    assert!(matches!(err, Error::Fs(_)), "{err:?}");
    assert!(!fs.path_exists(&p("/h/.data/projects/-w-p/x.jsonl")));
}

/// What is not there is left out of the archive.
#[test]
fn missing_files_are_left_out() {
    let mut fs = MockFs::new();
    let (project, global) = setup_test_project(&mut fs);
    fs.remove_file(&project.join(".mcp.json")).unwrap();

    let backup_path = back_up(&mut fs, &project, &global).unwrap();

    let held = entries(&fs.read_bytes(&backup_path).unwrap());
    assert!(held.iter().all(|e| e.0 != "local/.mcp.json"));
}

fn manifest() -> BackupManifest {
    BackupManifest {
        source_path: p("/t/myproject"),
        claude_home: p("/t/.data"),
        timestamp: TIMESTAMP.to_owned(),
        version: "0.3.0".to_owned(),
    }
}

#[test]
fn restored_files_go_where_they_came_from() {
    let m = manifest();
    let target = |name: &str| restore_target(&m, name).unwrap().map(|t| t.as_str().to_owned());
    assert_eq!(
        target("global/a/b.jsonl"),
        Some("/t/.data/projects/-t-myproject/a/b.jsonl".to_owned())
    );
    assert_eq!(
        target("local/.data/settings.json"),
        Some("/t/myproject/.data/settings.json".to_owned())
    );
    assert_eq!(target("other/x"), None);
}

#[test]
fn an_archive_without_a_manifest_is_refused() {
    let mut fs = MockFs::new();
    fs.write_bytes(&p("/t/a.tar.gz"), &packed(&[])).unwrap();
    let err = restore_backup(&mut fs, &p("/t/a.tar.gz"), "contents.json").unwrap_err();
    assert!(matches!(err, Error::ManifestMissing(_)), "{err:?}");
    assert_eq!(err.message(), "backup archive did not contain contents.json");
}

#[test]
fn an_archive_must_start_with_its_manifest() {
    let mut fs = MockFs::new();
    fs.write_bytes(&p("/t/a.tar.gz"), &packed(&[("global/x.jsonl", b"{}")]))
        .unwrap();
    let err = restore_backup(&mut fs, &p("/t/a.tar.gz"), "contents.json").unwrap_err();
    assert!(matches!(err, Error::ManifestNotFirst(_)), "{err:?}");
    assert_eq!(err.message(), "contents.json must be the first entry in the archive");
}

#[test]
fn a_manifest_that_cannot_be_read_is_refused() {
    for text in ["{", "{}", "[]", r#"{"source_path":1}"#, r#"["/p","/h","t"]"#] {
        let mut fs = MockFs::new();
        fs.write_bytes(&p("/t/a.tar.gz"), &packed(&[("contents.json", text.as_bytes())]))
            .unwrap();
        let err = restore_backup(&mut fs, &p("/t/a.tar.gz"), "contents.json").unwrap_err();
        assert!(matches!(err, Error::ManifestUnreadable(..)), "{text}: {err:?}");
        assert!(err.message().starts_with("parsing contents.json: "), "{err:?}");
    }
}

#[test]
fn a_manifest_that_is_no_text_is_refused() {
    let mut fs = MockFs::new();
    fs.write_bytes(&p("/t/a.tar.gz"), &packed(&[("contents.json", &[0xff, 0xfe])]))
        .unwrap();
    let err = restore_backup(&mut fs, &p("/t/a.tar.gz"), "contents.json").unwrap_err();
    assert_eq!(
        err.message(),
        "reading contents.json: stream did not contain valid UTF-8"
    );
}

#[test]
fn a_manifest_may_list_its_members() {
    let mut fs = MockFs::new();
    let manifest = br#"["/work/p","/h/.data","20240101-000000","0.3.0"]"#;
    fs.write_bytes(
        &p("/t/a.tar.gz"),
        &packed(&[("contents.json", manifest), ("global/x.jsonl", b"{}")]),
    )
    .unwrap();
    let m = restore_backup(&mut fs, &p("/t/a.tar.gz"), "contents.json").unwrap();
    assert_eq!(m.source_path.as_str(), "/work/p");
    assert_eq!(m.claude_home.as_str(), "/h/.data");
    assert_eq!(m.timestamp, "20240101-000000");
    assert_eq!(m.version, "0.3.0");
    assert_eq!(
        fs.read_to_string(&p("/h/.data/projects/-work-p/x.jsonl")).unwrap(),
        "{}"
    );
}

#[test]
fn what_is_no_archive_cannot_be_restored() {
    let mut fs = MockFs::new();
    fs.add_file(&p("/t/a.tar.gz"), "not an archive");
    let err = restore_backup(&mut fs, &p("/t/a.tar.gz"), "contents.json").unwrap_err();
    assert!(matches!(err, Error::Archive(_)), "{err:?}");
}

#[test]
fn a_backup_that_is_not_there_cannot_be_restored() {
    let mut fs = MockFs::new();
    let err = restore_backup(&mut fs, &p("/t/none.tar.gz"), "contents.json").unwrap_err();
    assert!(matches!(err, Error::Fs(_)), "{err:?}");
}

/// An entry that nothing claims is passed over.
#[test]
fn unknown_entries_are_passed_over() {
    let mut fs = MockFs::new();
    let text = r#"{"source_path":"/t/q","claude_home":"/t/.data","timestamp":"x","version":"1"}"#;
    fs.write_bytes(
        &p("/t/a.tar.gz"),
        &packed(&[
            ("contents.json", text.as_bytes()),
            ("elsewhere/x", b"no"),
            ("global/s.jsonl", b"yes"),
        ]),
    )
    .unwrap();
    let m = restore_backup(&mut fs, &p("/t/a.tar.gz"), "contents.json").unwrap();
    assert_eq!(m.version, "1");
    assert_eq!(
        fs.read_to_string(&p("/t/.data/projects/-t-q/s.jsonl")).unwrap(),
        "yes"
    );
    assert!(!fs.path_exists(&p("/t/elsewhere/x")));
}
