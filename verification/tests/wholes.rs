use ccmv::batch::parse;
use ccmv::encoder::encode;
use ccmv::error::Error;
use ccmv::fs::Fs;
use ccmv::home::Home;
use ccmv::links::is_text;
use ccmv::links::relative_target;
use ccmv::merge::merge_dirs;
use ccmv::merge::merge_sessions_index;
use ccmv::merge::MAX_DEPTH;
use ccmv::migration::MigrationReport;
use ccmv::mock_fs::MockFs;
use ccmv::path::FilePath;
use ccmv::plan::Migration;
use ccmv::unit::MigrateOpts;

const TIMESTAMP: &str = "20260101-000000";

fn p(text: &str) -> FilePath {
    FilePath::new(text)
}

fn home() -> Home {
    Home {
        path: p("/h/.data"),
        local_dir: ".data".to_owned(),
        registry: ".data.json".to_owned(),
        archived_registry: "data.json".to_owned(),
        manifest: "contents.json".to_owned(),
    }
}

fn opts() -> MigrateOpts {
    MigrateOpts {
        dry_run: false,
        no_backup: true,
        force: false,
        session_only: false,
        relink: false,
        scan_root: Vec::new(),
    }
}

fn global_of(path: &str) -> FilePath {
    home().path.join("projects").join(&encode(&p(path)).unwrap())
}

/// Two projects, `/w/one` and `/w/two`, each with a conversation, a file of its
/// own and a line in the shared files.
fn two_projects() -> MockFs {
    let mut fs = MockFs::new();
    fs.add_dir(&p("/h/.data"));
    fs.add_dir(&p("/h/.data/projects"));
    fs.add_dir(&p("/w"));
    for path in ["/w/one", "/w/two"] {
        fs.add_dir(&p(path));
        fs.add_file(&p(path).join("src/main.rs"), &format!("// {path}"));
        fs.add_dir(&p(path).join("src"));
        fs.add_dir(&global_of(path));
        fs.add_file(
            &global_of(path).join("s.jsonl"),
            &format!(r#"{{"cwd":"{path}"}}"#),
        );
    }
    fs.add_file(
        &p("/h/.data/history.jsonl"),
        "{\"project\":\"/w/one\"}\n{\"project\":\"/w/two\"}\n",
    );
    fs.add_file(
        &p("/h/.data.json"),
        r#"{"projects":{"/w/one":{},"/w/two":{}}}"#,
    );
    fs
}

fn run(fs: &mut MockFs, moves: &[(&str, &str)], opts: &MigrateOpts) -> MigrationReport {
    let moves: Vec<(FilePath, FilePath)> = moves.iter().map(|(a, b)| (p(a), p(b))).collect();
    let m = Migration::new(fs, &moves, &home(), opts, TIMESTAMP).unwrap();
    m.run(fs).unwrap()
}

#[test]
fn comments_above_a_batch_only_shift_its_lines() {
    let input = "/a\t/b\n\n/c\t/d";
    let plain = parse(input).unwrap();
    let shifted = parse(&format!("# one\n\n \t \n{input}")).unwrap();
    assert_eq!(plain.len(), 2);
    assert_eq!(shifted.len(), 2);
    for (a, b) in plain.iter().zip(&shifted) {
        assert_eq!(a.source, b.source);
        assert_eq!(a.target, b.target);
        assert_eq!(a.line + 3, b.line);
    }
    let err = parse("# one\nno fields\n").unwrap_err();
    assert!(matches!(err, Error::BatchFields(2, _)), "{err:?}");
}

#[test]
fn line_ends_of_either_kind_read_alike() {
    let input = "# c\n/a\t/b\n\n/c\t/d\n";
    let plain = parse(input).unwrap();
    let other = parse(&input.replace('\n', "\r\n")).unwrap();
    assert_eq!(plain.len(), other.len());
    for (a, b) in plain.iter().zip(&other) {
        assert_eq!((&a.source, &a.target, a.line), (&b.source, &b.target, b.line));
    }
}

#[test]
fn every_kind_of_white_space_is_blank() {
    let spaces = "\t\u{b}\u{c} \u{85}\u{a0}\u{1680}\u{2000}\u{2005}\u{200a}\u{2028}\u{2029}\u{202f}\u{205f}\u{3000}";
    assert!(parse(&format!("{spaces}# c\n{spaces}\n")).unwrap().is_empty());
    for other in ["\u{200b}", "\u{180e}", "\u{feff}"] {
        let err = parse(other).unwrap_err();
        assert!(matches!(err, Error::BatchFields(1, _)), "{other:?}");
    }
}

#[test]
fn a_component_is_told_by_its_characters() {
    assert!(is_text(&vec!['x', 'x'], 'x', 2));
    assert!(!is_text(&vec!['x'], 'x', 2));
    assert!(!is_text(&vec!['x', 'y'], 'x', 2));
    assert!(is_text(&vec!['.'], '.', 1));
}

#[test]
fn a_rename_there_and_back_leaves_no_trace() {
    let mut fs = MockFs::new();
    fs.add_dir(&p("/a"));
    fs.add_dir(&p("/a/sub"));
    fs.add_file(&p("/a/sub/f"), "text");
    fs.add_symlink(&p("/a/l"), &p("/elsewhere"));
    fs.rename(&p("/a"), &p("/b")).unwrap();
    assert!(!fs.is_dir(&p("/a")) && !fs.is_symlink(&p("/a/l")));
    assert!(fs.is_dir(&p("/b/sub")));
    assert_eq!(fs.read_link(&p("/b/l")).unwrap().as_str(), "/elsewhere");
    assert_eq!(fs.read_to_string(&p("/b/sub/f")).unwrap(), "text");
    fs.rename(&p("/b"), &p("/a")).unwrap();
    assert!(!fs.path_exists(&p("/b")) && !fs.is_symlink(&p("/b/l")));
    assert!(fs.is_dir(&p("/a/sub")));
    assert_eq!(fs.read_link(&p("/a/l")).unwrap().as_str(), "/elsewhere");
    assert_eq!(fs.read_to_string(&p("/a/sub/f")).unwrap(), "text");
}

#[test]
fn shared_files_are_written_once_for_all_moves() {
    let mut fs = two_projects();
    run(&mut fs, &[("/w/one", "/w/uno"), ("/w/two", "/w/due")], &opts());
    assert_eq!(fs.write_count(&p("/h/.data/history.jsonl")), 1);
    assert_eq!(fs.write_count(&p("/h/.data.json")), 1);
    assert_eq!(
        fs.read_to_string(&p("/h/.data/history.jsonl")).unwrap(),
        "{\"project\":\"/w/uno\"}\n{\"project\":\"/w/due\"}\n"
    );
    let registry: serde_json::Value =
        serde_json::from_str(&fs.read_to_string(&p("/h/.data.json")).unwrap()).unwrap();
    assert!(registry["projects"]["/w/uno"].is_object());
    assert!(registry["projects"]["/w/due"].is_object());
}

#[test]
fn the_sessions_of_every_project_follow() {
    let mut fs = two_projects();
    fs.add_dir(&global_of("/w/one/sub"));
    fs.add_file(
        &global_of("/w/one/sub").join("s.jsonl"),
        r#"{"cwd":"/w/one/sub"}"#,
    );
    fs.add_file(
        &p("/h/.data.json"),
        r#"{"projects":{"/w/one":{},"/w/one/sub":{},"/w/two":{}}}"#,
    );
    let moves = [("/w/one", "/w/uno"), ("/w/two", "/w/due")];
    let mut o = opts();
    o.dry_run = true;
    let dry = run(&mut fs, &moves, &o);
    let wet = run(&mut fs, &moves, &opts());
    for path in ["/w/uno", "/w/uno/sub", "/w/due"] {
        assert_eq!(
            fs.read_to_string(&global_of(path).join("s.jsonl")).unwrap(),
            format!(r#"{{"cwd":"{path}"}}"#)
        );
    }
    let counts = |r: &MigrationReport| -> Vec<usize> {
        r.files_updated.iter().map(|f| f.replacements).collect()
    };
    assert_eq!(counts(&dry), counts(&wet));
}

#[test]
fn the_files_of_a_project_arrive_with_it() {
    let mut fs = two_projects();
    run(&mut fs, &[("/w/one", "/w/uno")], &opts());
    assert_eq!(
        fs.read_to_string(&p("/w/uno/src/main.rs")).unwrap(),
        "// /w/one"
    );
    assert!(!fs.path_exists(&p("/w/one/src/main.rs")));
    assert_eq!(
        fs.read_to_string(&p("/w/two/src/main.rs")).unwrap(),
        "// /w/two"
    );
}

#[test]
fn a_project_is_merged_with_what_is_at_its_target() {
    let mut fs = two_projects();
    fs.add_dir(&p("/w/uno"));
    fs.add_file(&p("/w/uno/kept"), "kept");
    run(&mut fs, &[("/w/one", "/w/uno")], &opts());
    assert_eq!(fs.read_to_string(&p("/w/uno/kept")).unwrap(), "kept");
    assert_eq!(
        fs.read_to_string(&p("/w/uno/src/main.rs")).unwrap(),
        "// /w/one"
    );
    assert!(!fs.is_dir(&p("/w/one")));
}

#[test]
fn a_session_only_run_leaves_all_else_alone() {
    let mut fs = two_projects();
    fs.add_symlink(&p("/w/link"), &p("/w/one/src"));
    fs.add_dir(&p("/w/uno"));
    fs.add_dir(&global_of("/w/uno"));
    fs.add_file(&global_of("/w/uno").join("t.jsonl"), "{}");
    let mut o = opts();
    o.session_only = true;
    let report = run(&mut fs, &[("/w/one", "/w/uno")], &o);
    assert!(report.verification_skipped);
    assert!(fs.is_dir(&p("/w/one/src")) && fs.is_dir(&p("/w/uno")));
    assert!(!fs.path_exists(&p("/w/uno/src/main.rs")));
    assert_eq!(fs.read_link(&p("/w/link")).unwrap().as_str(), "/w/one/src");
    assert!(!fs.is_dir(&global_of("/w/one")));
    assert!(fs.is_dir(&global_of("/w/uno")));
    assert_eq!(
        fs.read_to_string(&global_of("/w/uno").join("s.jsonl")).unwrap(),
        r#"{"cwd":"/w/uno"}"#
    );
    assert!(fs.path_exists(&global_of("/w/uno").join("t.jsonl")));
}

#[test]
fn a_repeated_run_changes_nothing() {
    let mut fs = two_projects();
    let moves = [("/w/one", "/w/uno")];
    let first = run(&mut fs, &moves, &opts());
    assert!(first.files_updated.iter().any(|f| f.replacements > 0));
    assert!(!first.verification_skipped);
    let before: Vec<(FilePath, Vec<u8>)> = fs
        .list_dir_recursive(&p("/"))
        .unwrap()
        .into_iter()
        .map(|path| {
            let data = fs.read_bytes(&path).unwrap();
            (path, data)
        })
        .collect();
    let second = run(&mut fs, &moves, &opts());
    assert!(second.files_updated.iter().all(|f| f.replacements == 0));
    assert_eq!(fs.list_dir_recursive(&p("/")).unwrap().len(), before.len());
    for (path, data) in before {
        assert_eq!(fs.read_bytes(&path).unwrap(), data, "{}", path.as_str());
    }
    assert_eq!(fs.write_count(&p("/h/.data/history.jsonl")), 1);
}

#[test]
fn a_dry_run_foretells_the_moves_and_links() {
    let mut fs = two_projects();
    fs.add_symlink(&p("/w/link"), &p("/w/one/src"));
    fs.add_symlink(&p("/w/dead"), &p("/w/one/gone"));
    let mut o = opts();
    o.relink = true;
    o.scan_root = vec![p("/w")];
    o.dry_run = true;
    let moves = [("/w/one", "/w/uno"), ("/w/two", "/w/due")];
    let dry = run(&mut fs, &moves, &o);
    o.dry_run = false;
    let wet = run(&mut fs, &moves, &o);
    assert_eq!(dry.moves.len(), 2);
    assert_eq!(wet.moves.len(), 2);
    for (a, b) in dry.moves.iter().zip(&wet.moves) {
        assert_eq!(a.source.as_str(), b.source.as_str());
        assert_eq!(a.target.as_str(), b.target.as_str());
        let (a, b) = (
            a.global_dir_rename.as_ref().unwrap(),
            b.global_dir_rename.as_ref().unwrap(),
        );
        assert_eq!(a.0.as_str(), b.0.as_str());
        assert_eq!(a.1.as_str(), b.1.as_str());
    }
    assert_eq!(dry.text_reference_count, wet.text_reference_count);
    assert_eq!(dry.relink_candidates.len(), 1);
    assert_eq!(wet.relinked_count, 1);
    assert!(wet.relink_failures.is_empty());
    assert_eq!(fs.read_link(&p("/w/link")).unwrap().as_str(), "/w/uno/src");
}

#[test]
fn links_that_a_backup_passes_over_are_reported() {
    let mut fs = two_projects();
    let dead = global_of("/w/one").join("dead");
    fs.add_symlink(&dead, &p("/nowhere"));
    let mut o = opts();
    o.no_backup = false;
    let report = run(&mut fs, &[("/w/one", "/w/uno")], &o);
    let skipped: Vec<&str> = report.skipped_links.iter().map(|l| l.as_str()).collect();
    assert_eq!(skipped, vec![dead.as_str()]);
    assert_eq!(report.backup_paths.len(), 1);
}

#[test]
fn a_relative_target_takes_the_shortest_way() {
    let relative = |link: &str, target: &str| {
        relative_target(&p(link), &p(target)).as_str().to_owned()
    };
    assert_eq!(relative("/a/b/l", "/a/b/c"), "c");
    assert_eq!(relative("/a/b/l", "/a/c/d"), "../c/d");
    assert_eq!(relative("/a/b/c/l", "/x"), "../../../x");
}

#[test]
fn links_move_in_a_merge_with_their_directory() {
    let mut fs = MockFs::new();
    for dir in ["/s", "/s/sub", "/s/whole", "/d", "/d/sub"] {
        fs.add_dir(&p(dir));
    }
    fs.add_file(&p("/s/sub/f"), "new");
    fs.add_file(&p("/d/sub/f"), "old");
    fs.add_file(&p("/d/sub/kept"), "kept");
    fs.add_symlink(&p("/s/whole/l"), &p("/t"));
    merge_dirs(&mut fs, &p("/s"), &p("/d"), MAX_DEPTH).unwrap();
    assert_eq!(fs.read_link(&p("/d/whole/l")).unwrap().as_str(), "/t");
    assert!(!fs.is_symlink(&p("/s/whole/l")));
    assert_eq!(fs.read_to_string(&p("/d/sub/f")).unwrap(), "new");
    assert_eq!(fs.read_to_string(&p("/d/sub/kept")).unwrap(), "kept");
    assert!(!fs.is_dir(&p("/s")) && fs.is_dir(&p("/d")));
}

#[test]
fn a_link_that_cannot_move_stops_a_merge_and_is_kept() {
    let mut fs = MockFs::new();
    fs.add_dir(&p("/s"));
    fs.add_dir(&p("/d"));
    fs.add_symlink(&p("/s/l"), &p("/t"));
    let err = merge_dirs(&mut fs, &p("/s"), &p("/d"), MAX_DEPTH).unwrap_err();
    assert!(matches!(err, Error::Fs(_)), "{err:?}");
    assert_eq!(fs.read_link(&p("/s/l")).unwrap().as_str(), "/t");
    assert!(fs.is_dir(&p("/s")));
}

#[test]
fn two_good_indexes_are_merged() {
    let mut fs = MockFs::new();
    fs.add_dir(&p("/s"));
    fs.add_dir(&p("/d"));
    fs.add_file(&p("/s/sessions-index.json"), r#"{"version":2,"entries":[1]}"#);
    fs.add_file(&p("/d/sessions-index.json"), r#"{"version":1,"entries":[2]}"#);
    merge_sessions_index(&mut fs, &p("/s"), &p("/d")).unwrap();
    assert!(!fs.path_exists(&p("/s/sessions-index.json")));
    assert_eq!(
        fs.read_to_string(&p("/d/sessions-index.json")).unwrap(),
        r#"{"entries":[2,1],"version":1}"#
    );
}

#[test]
fn an_index_that_cannot_be_read_is_left_alone() {
    let cases = [("{", "{}"), ("{}", "{"), ("{}", "[1]")];
    for (source, target) in cases {
        let mut fs = MockFs::new();
        fs.add_dir(&p("/s"));
        fs.add_dir(&p("/d"));
        fs.add_file(&p("/s/sessions-index.json"), source);
        fs.add_file(&p("/d/sessions-index.json"), target);
        let err = merge_sessions_index(&mut fs, &p("/s"), &p("/d")).unwrap_err();
        assert!(
            matches!(err, Error::Json(_) | Error::IndexShape(_)),
            "{source} {target}: {err:?}"
        );
        assert_eq!(fs.read_to_string(&p("/s/sessions-index.json")).unwrap(), source);
        assert_eq!(fs.read_to_string(&p("/d/sessions-index.json")).unwrap(), target);
    }
}

fn try_run(
    fs: &mut MockFs,
    moves: &[(&str, &str)],
    opts: &MigrateOpts,
) -> Result<MigrationReport, Error> {
    let moves: Vec<(FilePath, FilePath)> = moves.iter().map(|(a, b)| (p(a), p(b))).collect();
    let m = Migration::new(fs, &moves, &home(), opts, TIMESTAMP).unwrap();
    m.run(fs)
}

/// Settings and server lists are found below the new paths, with the new paths in
/// them, those of a project below another one too.
#[test]
fn the_settings_of_every_project_arrive() {
    let mut fs = two_projects();
    fs.add_dir(&p("/w/one/sub"));
    fs.add_file(
        &p("/h/.data.json"),
        r#"{"projects":{"/w/one":{},"/w/one/sub":{},"/w/two":{}}}"#,
    );
    for path in ["/w/one", "/w/one/sub"] {
        fs.add_dir(&p(path).join(".data"));
        fs.add_file(
            &p(path).join(".data/settings.json"),
            &format!(r#"{{"dir":"{path}"}}"#),
        );
        fs.add_file(&p(path).join(".mcp.json"), &format!(r#"["{path}/bin"]"#));
    }
    run(&mut fs, &[("/w/one", "/w/uno")], &opts());
    for path in ["/w/uno", "/w/uno/sub"] {
        assert_eq!(
            fs.read_to_string(&p(path).join(".data/settings.json")).unwrap(),
            format!(r#"{{"dir":"{path}"}}"#)
        );
        assert_eq!(
            fs.read_to_string(&p(path).join(".mcp.json")).unwrap(),
            format!(r#"["{path}/bin"]"#)
        );
    }
    assert!(!fs.path_exists(&p("/w/one/.mcp.json")));
}

/// A run that stops at one project has moved those before it and left those behind
/// it, and can be picked up from there.
#[test]
fn a_stopped_run_can_be_picked_up() {
    let mut fs = two_projects();
    fs.add_dir(&p("/w/three"));
    fs.add_dir(&global_of("/w/three"));
    fs.add_file(
        &global_of("/w/three").join("s.jsonl"),
        r#"{"cwd":"/w/three"}"#,
    );
    fs.add_readonly_dir(&global_of("/w/due"));
    let moves = [
        ("/w/one", "/w/uno"),
        ("/w/two", "/w/due"),
        ("/w/three", "/w/tre"),
    ];
    let err = try_run(&mut fs, &moves, &opts()).unwrap_err();
    assert!(matches!(err, Error::Fs(_)), "{err:?}");

    let session = |fs: &MockFs, path: &str| fs.read_to_string(&global_of(path).join("s.jsonl"));
    assert_eq!(session(&fs, "/w/uno").unwrap(), r#"{"cwd":"/w/uno"}"#);
    assert!(fs.is_dir(&p("/w/uno")) && !fs.is_dir(&p("/w/one")));
    assert_eq!(session(&fs, "/w/three").unwrap(), r#"{"cwd":"/w/three"}"#);
    assert!(fs.is_dir(&p("/w/three")) && !fs.is_dir(&p("/w/tre")));
    assert_eq!(fs.write_count(&p("/h/.data/history.jsonl")), 0);

    let again = [("/w/one", "/w/uno"), ("/w/three", "/w/tre")];
    let report = run(&mut fs, &again, &opts());
    assert!(!report.nothing_to_do);
    assert_eq!(session(&fs, "/w/uno").unwrap(), r#"{"cwd":"/w/uno"}"#);
    assert_eq!(session(&fs, "/w/tre").unwrap(), r#"{"cwd":"/w/tre"}"#);
    assert!(fs.is_dir(&p("/w/tre")) && !fs.is_dir(&p("/w/three")));
    assert_eq!(
        fs.read_to_string(&p("/h/.data/history.jsonl")).unwrap(),
        "{\"project\":\"/w/uno\"}\n{\"project\":\"/w/two\"}\n"
    );
}

/// A directory that was moved by hand is recorded under its new path.
#[test]
fn a_project_that_was_moved_by_hand_is_caught_up_with() {
    let mut fs = two_projects();
    fs.rename(&p("/w/one"), &p("/w/uno")).unwrap();
    run(&mut fs, &[("/w/one", "/w/uno")], &opts());
    assert_eq!(
        fs.read_to_string(&global_of("/w/uno").join("s.jsonl")).unwrap(),
        r#"{"cwd":"/w/uno"}"#
    );
    assert_eq!(
        fs.read_to_string(&p("/w/uno/src/main.rs")).unwrap(),
        "// /w/one"
    );
    assert!(fs
        .read_to_string(&p("/h/.data.json"))
        .unwrap()
        .contains("/w/uno"));
}

/// A dry run counts the same in every file as the real one, settings among them.
#[test]
fn a_dry_run_counts_what_the_real_one_replaces() {
    let mut fs = two_projects();
    fs.add_file(&p("/w/one/.mcp.json"), r#"["/w/one/a","/w/one/b","/w/other"]"#);
    fs.add_file(&global_of("/w/one").join("sessions-index.json"), r#"{"entries":["/w/one"]}"#);
    let moves = [("/w/one", "/w/uno"), ("/w/two", "/w/due")];
    let mut o = opts();
    o.dry_run = true;
    let dry = run(&mut fs, &moves, &o);
    let wet = run(&mut fs, &moves, &opts());
    let counts = |r: &MigrationReport| -> Vec<usize> {
        r.files_updated.iter().map(|f| f.replacements).collect()
    };
    assert_eq!(counts(&dry), counts(&wet));
    assert_eq!(counts(&wet), vec![1, 1, 2, 1, 2, 2]);
}
