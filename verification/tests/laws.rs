use ccmv::batch::parse;
use ccmv::batch::Move;
use ccmv::command::Command;
use ccmv::encoder::encode;
use ccmv::error::Error;
use ccmv::fs::can_rename;
use ccmv::fs::Fs;
use ccmv::home::Home;
use ccmv::links::lexically_normalize;
use ccmv::links::relative_target;
use ccmv::links::resolve_link_target;
use ccmv::links::scan_roots;
use ccmv::links::text_references;
use ccmv::migration::MigrationReport;
use ccmv::migration::MoveReport;
use ccmv::mock_fs::MockFs;
use ccmv::path::FilePath;
use ccmv::path_map::PathMap;
use ccmv::plan::Migration;
use ccmv::relink::RelinkFailure;
use ccmv::report::report_lines;
use ccmv::substitution::replace_paths;
use ccmv::substitution::Substitutions;
use ccmv::unit::MigrateOpts;
use ccmv::unit::Unit;
use ccmv::updater::rename_json_keys;
use ccmv::updater::update_file;
use ccmv::updater::UpdateReport;

fn p(text: &str) -> FilePath {
    FilePath::new(text)
}

fn subs(pairs: &[(&str, &str)]) -> Substitutions {
    Substitutions::new(
        pairs
            .iter()
            .map(|(o, n)| ((*o).to_owned(), (*n).to_owned()))
            .collect(),
    )
}

fn home() -> Home {
    Home {
        path: p("/h/.data"),
        local_dir: ".data".to_owned(),
        registry: ".data.json".to_owned(),
        archived_registry: "data.json".to_owned(),
        manifest: "contents.json".to_owned(),
    }
}

fn opts() -> MigrateOpts {
    MigrateOpts {
        dry_run: false,
        force: false,
        no_backup: true,
        session_only: false,
        relink: false,
        scan_root: Vec::new(),
    }
}

fn go(fs: &mut MockFs, from: &str, to: &str, opts: MigrateOpts) -> Result<MigrationReport, Error> {
    Command::Move {
        source: p(from),
        target: p(to),
        opts,
    }
    .execute_at(fs, &home(), "20260101-000000")
}

/// A project `/h/old` with one recorded conversation.
fn small_project() -> MockFs {
    let mut fs = MockFs::new();
    fs.add_dir(&p("/h"));
    fs.add_dir(&p("/h/old"));
    fs.add_file(&p("/h/old/notes"), "kept");
    fs.add_dir(&p("/h/.data/projects/-h-old"));
    fs.add_file(&p("/h/.data/projects/-h-old/s.jsonl"), r#"{"cwd":"/h/old"}"#);
    fs.add_file(&p("/h/.data/history.jsonl"), r#"{"project":"/h/old"}"#);
    fs
}

#[test]
fn encoded_paths_hold_plain_characters() {
    let encoded = encode(&p("/home/Ünï_c/a.b-9")).unwrap();
    assert_eq!(encoded, "-home--n--c-a-b-9");
    assert_eq!(encode(&p("/a-b-9")).unwrap(), "-a-b-9");
    assert_eq!(encode(&p("/a/b/")).unwrap(), encode(&p("/a/b")).unwrap());
    assert!(encode(&p("a/b")).is_err());
}

#[test]
fn the_longest_entry_decides() {
    let s = subs(&[("/x", "/short"), ("/x/sub", "/long")]);
    assert_eq!(replace_paths("/x/sub/a", &s), (1, "/long/a".to_owned()));
    assert_eq!(s.rebase(&p("/x/sub/a")).unwrap(), p("/long/a"));
    assert_eq!(s.rebase(&p("/x/other")).unwrap(), p("/short/other"));
}

#[test]
fn a_longer_name_is_no_match() {
    let s = subs(&[("/x/proj", "/y")]);
    for text in ["/x/project", "/x/proj-2", "/x/proj_2", "/x/projé", "/x/proj9"] {
        assert_eq!(replace_paths(text, &s), (0, text.to_owned()));
    }
    for (text, changed) in [
        ("/x/proj", "/y"),
        ("/x/proj/a", "/y/a"),
        ("\"/x/proj\"", "\"/y\""),
        ("/x/proj:*", "/y:*"),
    ] {
        assert_eq!(replace_paths(text, &s), (1, changed.to_owned()));
    }
    assert!(s.rebase(&p("/x/project")).is_none());
}

#[test]
fn an_empty_set_changes_nothing() {
    let s = subs(&[]);
    assert!(s.is_empty());
    assert_eq!(replace_paths("/x/proj", &s), (0, "/x/proj".to_owned()));
    assert!(s.rebase(&p("/x/proj")).is_none());
}

#[test]
fn a_moved_path_stays_where_it_is() {
    let s = subs(&[("/x/a", "/y/a"), ("/x/b", "/z")]);
    let moved = s.rebase(&p("/x/a/deep")).unwrap();
    assert_eq!(moved, p("/y/a/deep"));
    assert!(s.rebase(&moved).is_none());
}

/// Paths that swap places do not run into each other.
#[test]
fn replacing_is_one_pass() {
    let s = subs(&[("/a", "/b"), ("/b", "/a")]);
    assert_eq!(replace_paths("/a /b /a", &s), (3, "/b /a /b".to_owned()));
}

#[test]
fn an_entry_without_a_path_never_matches() {
    let s = subs(&[("", "/y")]);
    assert_eq!(replace_paths("text", &s), (0, "text".to_owned()));
}

#[test]
fn blank_lines_may_hold_any_space() {
    let moves = parse("\u{2003}\u{a0}\n \u{3000}# note\n/a\t/b\r\n").unwrap();
    assert_eq!(moves.len(), 1);
    assert_eq!(moves[0].source, "/a");
    assert_eq!(moves[0].target, "/b");
    assert_eq!(moves[0].line, 3);
}

#[test]
fn batch_lines_hold_two_fields() {
    let fields = parse("/a\t/b\n/a /b\n").unwrap_err();
    assert!(matches!(fields, Error::BatchFields(2, _)), "{fields:?}");
    let extra = parse("/a\t/b\t/c\n").unwrap_err();
    assert!(matches!(extra, Error::BatchFields(1, _)), "{extra:?}");
    let empty = parse("\n\t/b\n").unwrap_err();
    assert!(matches!(empty, Error::BatchEmptyField(2)), "{empty:?}");
}

#[test]
fn what_is_written_reads_back() {
    let mut fs = MockFs::new();
    fs.add_dir(&p("/d"));
    fs.write_atomically(&p("/d/a"), "one ü").unwrap();
    assert_eq!(fs.read_to_string(&p("/d/a")).unwrap(), "one ü");
    fs.write_bytes(&p("/d/b"), &vec![0xff, 0xfe]).unwrap();
    assert_eq!(fs.read_bytes(&p("/d/b")).unwrap(), vec![0xff, 0xfe]);
    assert!(fs.read_to_string(&p("/d/b")).is_err(), "this is no text");
}

#[test]
fn a_moved_directory_keeps_its_files() {
    let mut fs = MockFs::new();
    fs.add_dir(&p("/a/sub"));
    fs.add_file(&p("/a/x"), "1");
    fs.add_file(&p("/a/sub/y"), "2");
    fs.add_file(&p("/ab"), "3");
    fs.rename(&p("/a"), &p("/b")).unwrap();
    assert_eq!(fs.get_file(&p("/b/x")).unwrap(), "1");
    assert_eq!(fs.get_file(&p("/b/sub/y")).unwrap(), "2");
    assert_eq!(fs.get_file(&p("/ab")).unwrap(), "3");
    assert!(!fs.path_exists(&p("/a/x")));
}

#[test]
fn only_empty_directories_are_removed() {
    let mut fs = MockFs::new();
    fs.add_dir(&p("/d/empty"));
    fs.add_dir(&p("/d/file"));
    fs.add_file(&p("/d/file/x"), "1");
    fs.add_dir(&p("/d/link"));
    fs.add_symlink(&p("/d/link/l"), &p("/nowhere"));
    fs.add_dir(&p("/d/dir/sub"));
    assert!(fs.remove_dir(&p("/d/none")).is_err());
    for kept in ["/d/file", "/d/link", "/d/dir"] {
        assert!(fs.remove_dir(&p(kept)).is_err(), "{kept}");
        assert!(fs.is_dir(&p(kept)), "{kept}");
    }
    fs.remove_dir(&p("/d/empty")).unwrap();
    assert!(!fs.path_exists(&p("/d/empty")));
    assert!(fs.is_dir(&p("/d")));
}

#[test]
fn renames_that_cannot_work_are_told_apart() {
    let mut fs = MockFs::new();
    fs.add_dir(&p("/a"));
    fs.add_dir(&p("/mnt"));
    fs.add_mount(&p("/mnt"), 7);
    fs.add_dir(&p("/ro"));
    fs.add_readonly_dir(&p("/ro"));
    assert!(can_rename(&fs, &p("/a"), &p("/b")).is_ok());
    let missing = can_rename(&fs, &p("/a"), &p("/no/b")).unwrap_err();
    assert!(missing.message().contains("target directory does not exist"));
    let mount = can_rename(&fs, &p("/a"), &p("/mnt/b")).unwrap_err();
    assert!(matches!(mount, Error::CrossFilesystem(_, _)), "{mount:?}");
    assert!(can_rename(&fs, &p("/a"), &p("/ro/b")).is_err());
    let top = can_rename(&fs, &p("/a"), &p("/")).unwrap_err();
    assert!(matches!(top, Error::NoParent(_)), "{top:?}");
}

#[test]
fn a_dry_update_counts_alike_and_writes_nothing() {
    let s = subs(&[("/old", "/new")]);
    let mut fs = MockFs::new();
    fs.add_file(&p("/f"), "/old and /old/x");
    let dry = update_file(&mut fs, &p("/f"), &s, true).unwrap();
    assert_eq!(fs.write_count(&p("/f")), 0);
    let real = update_file(&mut fs, &p("/f"), &s, false).unwrap();
    assert_eq!(dry.replacements, 2);
    assert_eq!(real.replacements, 2);
    assert_eq!(fs.get_file(&p("/f")).unwrap(), "/new and /new/x");
    update_file(&mut fs, &p("/f"), &s, false).unwrap();
    assert_eq!(fs.write_count(&p("/f")), 1, "nothing matched any more");
}

/// Keys that change places keep their own values.
#[test]
fn renamed_keys_keep_their_values() {
    let mut fs = MockFs::new();
    fs.add_file(
        &p("/r.json"),
        r#"{"/a":0,"projects":{"/a":1,"/b":2,"/c":3,"/a/x":4}}"#,
    );
    let report =
        rename_json_keys(&mut fs, &p("/r.json"), &subs(&[("/a", "/b"), ("/b", "/a")]), false)
            .unwrap();
    assert_eq!(report.replacements, 3);
    let v: serde_json::Value = serde_json::from_str(&fs.get_file(&p("/r.json")).unwrap()).unwrap();
    let expected: serde_json::Value =
        serde_json::from_str(r#"{"/a":0,"projects":{"/a":2,"/b":1,"/c":3,"/b/x":4}}"#).unwrap();
    assert_eq!(v, expected);
}

#[test]
fn a_registry_that_is_no_json_is_refused() {
    let mut fs = MockFs::new();
    fs.add_file(&p("/r.json"), "{");
    let err = rename_json_keys(&mut fs, &p("/r.json"), &subs(&[("/a", "/b")]), false).unwrap_err();
    assert!(!err.message().is_empty());
    assert_eq!(fs.get_file(&p("/r.json")).unwrap(), "{");
}

#[test]
fn a_relative_target_leads_to_what_it_was_made_for() {
    for (link, target) in [
        ("/a/b/link", "/a/c/file"),
        ("/a/link", "/a/b/c"),
        ("/link", "/x/y"),
        ("/a/b/c/link", "/z"),
    ] {
        let relative = relative_target(&p(link), &p(target));
        assert!(!relative.is_absolute());
        assert_eq!(resolve_link_target(&p(link), &relative), p(target));
    }
    assert_eq!(relative_target(&p("/a/b/link"), &p("/a/c/file")), p("../c/file"));
    assert_eq!(lexically_normalize(&p("/a/./b/../c")), p("/a/c"));
}

#[test]
fn no_root_lies_inside_another() {
    let mut fs = MockFs::new();
    fs.add_dir(&p("/w/a/.data"));
    fs.add_file(&p("/r.json"), r#"{"/w/a":{},"/w/b":{}}"#);
    let roots = scan_roots(
        &fs,
        &Some(p("/r.json")),
        &vec![p("/w/a/.data/deep"), p("/w/z")],
        ".data",
    )
    .unwrap();
    for a in &roots {
        for b in &roots {
            assert!(a == b || !a.starts_with(b), "{roots:?}");
        }
    }
    assert!(roots.iter().any(|r| *r == p("/w/a/.data")), "{roots:?}");
}

#[test]
fn references_are_counted_by_lines() {
    let mut fs = MockFs::new();
    fs.add_file(&p("/f"), "one\n/old/x /old\n\n/old");
    let found = text_references(&fs, &p("/f"), &subs(&[("/old", "/new")]));
    let lines: Vec<usize> = found.iter().map(|r| r.line).collect();
    assert_eq!(lines, [2, 2, 4]);
    assert_eq!(found[0].old, "/old");
    assert_eq!(found[0].new, "/new");
}

#[test]
fn a_settled_run_changes_nothing() {
    let mut fs = MockFs::new();
    fs.add_dir(&p("/h/old"));
    fs.add_dir(&p("/h/.data/projects/-h-old"));
    fs.add_file(&p("/h/.data/projects/-h-old/s.jsonl"), r#"{"cwd":"/h/old"}"#);
    let report = go(&mut fs, "/h/old", "/h/old", opts()).unwrap();
    assert!(report.nothing_to_do);
    assert_eq!(fs.write_count(&p("/h/.data/projects/-h-old/s.jsonl")), 0);
    assert_eq!(
        report_lines(&report, false),
        ["Nothing to do — project references are already consistent."]
    );
}

#[test]
fn a_refused_run_changes_nothing() {
    let mut fs = small_project();
    let err = go(&mut fs, "/h/old", "/none/new", opts()).unwrap_err();
    assert!(err.message().contains("cannot move"), "{}", err.message());
    assert!(fs.is_dir(&p("/h/old")));
    assert_eq!(fs.write_count(&p("/h/.data/history.jsonl")), 0);
    assert_eq!(
        fs.get_file(&p("/h/.data/projects/-h-old/s.jsonl")).unwrap(),
        r#"{"cwd":"/h/old"}"#
    );
}

#[test]
fn a_dry_run_changes_nothing() {
    let mut fs = small_project();
    let mut dry = opts();
    dry.dry_run = true;
    let report = go(&mut fs, "/h/old", "/h/new", dry).unwrap();
    assert!(report.dry_run);
    assert_eq!(report.files_updated.len(), 2);
    assert!(fs.is_dir(&p("/h/old")));
    assert!(!fs.path_exists(&p("/h/new")));
    assert_eq!(fs.write_count(&p("/h/.data/history.jsonl")), 0);
}

#[test]
fn session_files_follow_their_project() {
    let mut fs = small_project();
    go(&mut fs, "/h/old", "/h/new", opts()).unwrap();
    assert_eq!(
        fs.get_file(&p("/h/.data/projects/-h-new/s.jsonl")).unwrap(),
        r#"{"cwd":"/h/new"}"#
    );
    assert_eq!(fs.get_file(&p("/h/new/notes")).unwrap(), "kept");
    assert_eq!(
        fs.get_file(&p("/h/.data/history.jsonl")).unwrap(),
        r#"{"project":"/h/new"}"#
    );
}

#[test]
fn a_session_only_run_leaves_the_projects() {
    let mut fs = small_project();
    fs.add_dir(&p("/h/new"));
    fs.add_file(&p("/h/new/other"), "there");
    let mut only = opts();
    only.session_only = true;
    let report = go(&mut fs, "/h/old", "/h/new", only).unwrap();
    assert_eq!(report.action, "session-only");
    assert_eq!(fs.get_file(&p("/h/old/notes")).unwrap(), "kept");
    assert_eq!(fs.get_file(&p("/h/new/other")).unwrap(), "there");
    assert!(!fs.path_exists(&p("/h/new/notes")));
    assert_eq!(
        fs.get_file(&p("/h/.data/projects/-h-new/s.jsonl")).unwrap(),
        r#"{"cwd":"/h/new"}"#
    );
}

/// A file of another project that names a moving one is reported, not changed.
#[test]
fn other_files_are_left_alone() {
    let mut fs = small_project();
    fs.add_dir(&p("/other"));
    fs.add_file(&p("/other/notes"), "see /h/old/notes");
    fs.add_file(&p("/h/old-2"), "/h/old");
    let mut search = opts();
    search.relink = true;
    search.scan_root = vec![p("/other")];
    let report = go(&mut fs, "/h/old", "/h/new", search).unwrap();
    assert_eq!(report.text_reference_count, 1);
    assert_eq!(fs.get_file(&p("/other/notes")).unwrap(), "see /h/old/notes");
    assert_eq!(fs.get_file(&p("/h/old-2")).unwrap(), "/h/old");
}

/// Where a unit fails, those before it have moved and those behind it have not.
#[test]
fn a_run_that_stops_leaves_the_rest_alone() {
    let mut fs = small_project();
    fs.add_dir(&p("/h/second"));
    fs.add_dir(&p("/h/.data/projects/-h-second"));
    fs.add_file(&p("/h/.data/projects/-h-second/sessions-index.json"), "[]");
    fs.add_dir(&p("/h/.data/projects/-h-taken"));
    fs.add_file(&p("/h/.data/projects/-h-taken/sessions-index.json"), "[]");
    let mut force = opts();
    force.force = true;
    let moves = vec![
        Move {
            source: p("/h/old"),
            target: p("/h/new"),
            line: None,
        },
        Move {
            source: p("/h/second"),
            target: p("/h/taken"),
            line: None,
        },
    ];
    let err = Command::Batch { moves, opts: force }
        .execute_at(&mut fs, &home(), "t")
        .unwrap_err();
    assert!(matches!(err, Error::IndexShape(_)), "{err:?}");
    assert!(fs.is_dir(&p("/h/new")));
    assert!(fs.is_dir(&p("/h/second")));
    assert_eq!(fs.write_count(&p("/h/.data/history.jsonl")), 0);
}

#[test]
fn relative_paths_are_refused() {
    let mut fs = small_project();
    assert!(go(&mut fs, "old", "/h/new", opts()).is_err());
    assert!(go(&mut fs, "/h/old", "new", opts()).is_err());
    assert!(fs.is_dir(&p("/h/old")));
}

#[test]
fn a_run_needs_a_unit() {
    let none: Vec<Unit> = Vec::new();
    let Err(err) = Migration::from_units(none, &home(), &opts(), "t") else {
        panic!("expected an error")
    };
    assert!(matches!(err, Error::NothingToMigrate), "{err:?}");
}

#[test]
fn logs_take_their_name_from_a_backup_that_has_one() {
    let mut fs = small_project();
    let unit = Unit::scan(&fs, &p("/h/old"), &p("/h/new"), &home(), &opts()).unwrap();
    fs.add_dir(&p("/h"));
    let run = Migration::from_units(vec![unit], &home(), &opts(), "t").unwrap();
    let nameless = run.artifact_log_path(&vec![p("/")], "x").unwrap_err();
    assert!(matches!(nameless, Error::NamelessBackup(_)), "{nameless:?}");
    let suffix = run.artifact_log_path(&vec![p("/b/a.zip")], "x").unwrap_err();
    assert!(matches!(suffix, Error::BackupSuffix(_)), "{suffix:?}");
    assert_eq!(
        run.artifact_log_path(&vec![p("/b/a.tar.gz")], "x").unwrap(),
        p("/h/.data/backups/ccmv/a.x")
    );
    assert_eq!(
        run.artifact_log_path(&vec![], "x").unwrap(),
        p("/h/.data/backups/ccmv/-h-old-t.x")
    );
}

#[test]
fn a_project_without_global_data_has_nothing_to_back_up() {
    let mut fs = MockFs::new();
    fs.add_dir(&p("/h/bare"));
    let err = Command::Backup { path: p("/h/bare") }
        .execute_at(&mut fs, &home(), "t")
        .unwrap_err();
    assert!(matches!(err, Error::NothingToBackUp), "{err:?}");
}

#[test]
fn a_batch_is_refused_as_a_whole() {
    let mut fs = small_project();
    let moves = vec![
        Move {
            source: p("/h/old"),
            target: p("/h/new"),
            line: Some(1),
        },
        Move {
            source: p("/h/none"),
            target: p("/h/other"),
            line: Some(2),
        },
    ];
    let err = Command::Batch {
        moves,
        opts: opts(),
    }
    .execute_at(&mut fs, &home(), "t")
    .unwrap_err();
    assert!(matches!(err, Error::Plan(_)), "{err:?}");
    assert!(fs.is_dir(&p("/h/old")));
}

#[test]
fn one_path_is_kept_once() {
    let mut map: PathMap<u8> = PathMap::new();
    map.insert(p("/a/b"), 1);
    map.insert(p("/a//b/."), 2);
    assert_eq!(map.len(), 1);
    assert_eq!(map.get(&p("/a/b")), Some(&2));
    map.insert(p("/ab"), 3);
    map.relocate(&p("/a"), &p("/z"));
    assert_eq!(map.get(&p("/z/b")), Some(&2));
    assert_eq!(map.get(&p("/ab")), Some(&3));
    assert!(!map.contains(&p("/a/b")));
    assert_eq!(map.remove(&p("/z/b")), Some(2));
    assert_eq!(map.len(), 1);
}

fn full_report() -> MigrationReport {
    MigrationReport {
        action: "move".to_owned(),
        moves: vec![MoveReport {
            source: p("/a"),
            target: p("/b"),
            global_dir_rename: None,
        }],
        files_updated: vec![
            UpdateReport {
                file: p("/f"),
                replacements: 3,
                skipped: false,
            },
            UpdateReport {
                file: p("/g"),
                replacements: 4,
                skipped: true,
            },
        ],
        backup_paths: vec![p("/x.tar.gz")],
        dry_run: true,
        nothing_to_do: false,
        relink_failures: vec![RelinkFailure {
            path: p("/l"),
            error: "refused".to_owned(),
        }],
        relink_candidates: Vec::new(),
        relinked_count: 2,
        relink_log_path: Some(p("/x.relink.tsv")),
        text_reference_count: 5,
        text_refs_report_path: None,
        text_reference_findings: Vec::new(),
        skipped_links: Vec::new(),
        verification_skipped: false,
    }
}

#[test]
fn a_report_is_printed_line_by_line() {
    assert_eq!(
        report_lines(&full_report(), false),
        [
            "Dry run — no changes made.",
            "",
            "Action: move",
            "  /a -> /b",
            "Backup: /x.tar.gz",
            "Files updated: 1",
            "  /f (3 replacements)",
            "Total path replacements: 3",
            "Relinked: 2 (see /x.relink.tsv)",
            "Relink failures: 1",
            "  /l: refused",
            "Text references: 5",
        ]
    );
}

#[test]
fn a_failed_link_shows_in_the_exit_code() {
    let mut report = full_report();
    assert_eq!(report.exit_code(), 1);
    report.relink_failures = Vec::new();
    assert_eq!(report.exit_code(), 0);
}

/// A command that was carried out goes through once more and changes nothing.
#[test]
fn a_command_given_twice_changes_nothing() {
    let mut fs = small_project();
    fs.add_file(&p("/h/.data.json"), r#"{"projects":{"/h/old":{"n":1}}}"#);
    let first = go(&mut fs, "/h/old", "/h/new", opts()).unwrap();
    assert!(first.files_updated.iter().any(|f| f.replacements > 0));
    let state = |fs: &MockFs| -> Vec<(String, Vec<u8>)> {
        fs.list_dir_recursive(&p("/"))
            .unwrap()
            .into_iter()
            .map(|path| (path.as_str().to_owned(), fs.read_bytes(&path).unwrap()))
            .collect()
    };
    let before = state(&fs);
    let second = go(&mut fs, "/h/old", "/h/new", opts()).unwrap();
    assert!(second.files_updated.iter().all(|f| f.replacements == 0));
    assert_eq!(state(&fs), before);
    assert_eq!(fs.write_count(&p("/h/.data.json")), 1);
}
