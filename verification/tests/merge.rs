use ccmv::error::Error;
use ccmv::fs::Fs;
use ccmv::merge::merge_dirs;
use ccmv::merge::merge_index;
use ccmv::merge::merge_sessions_index;
use ccmv::mock_fs::MockFs;
use ccmv::path::FilePath;

fn p(text: &str) -> FilePath {
    FilePath::new(text)
}

fn json(text: &str) -> serde_json::Value {
    serde_json::from_str(text).unwrap()
}

/// Merging brings every file over, keeps what was there, and takes the source
/// away. Where both have a file, the source's stays.
#[test]
fn merging_directories_loses_nothing() {
    let mut fs = MockFs::new();
    for dir in ["/s", "/s/sub", "/d", "/d/sub"] {
        fs.add_dir(&p(dir));
    }
    fs.add_file(&p("/s/one"), "from s");
    fs.add_file(&p("/s/both"), "from s");
    fs.add_file(&p("/s/sub/deep"), "from s");
    fs.add_file(&p("/d/two"), "from d");
    fs.add_file(&p("/d/both"), "from d");
    fs.add_file(&p("/d/sub/other"), "from d");

    merge_dirs(&mut fs, &p("/s"), &p("/d"), 4096).unwrap();

    let text = |path: &str| fs.get_file(&p(path)).unwrap();
    assert_eq!(text("/d/one"), "from s");
    assert_eq!(text("/d/both"), "from s");
    assert_eq!(text("/d/sub/deep"), "from s");
    assert_eq!(text("/d/two"), "from d");
    assert_eq!(text("/d/sub/other"), "from d");
    assert!(!fs.path_exists(&p("/s/one")));
    assert!(!fs.path_exists(&p("/s/sub")));
}

/// Directories come over too, empty ones among them, and where nothing stands in its
/// way merging goes through to the end.
#[test]
fn merging_brings_directories_and_goes_through() {
    let mut fs = MockFs::new();
    for dir in ["/s", "/s/empty", "/s/sub", "/s/sub/void", "/d", "/d/sub", "/d/own"] {
        fs.add_dir(&p(dir));
    }
    fs.add_file(&p("/s/sub/f"), "from s");

    merge_dirs(&mut fs, &p("/s"), &p("/d"), 4096).unwrap();

    for dir in ["/d/empty", "/d/sub", "/d/sub/void", "/d/own"] {
        assert!(fs.is_dir(&p(dir)), "{dir}");
    }
    assert_eq!(fs.read_to_string(&p("/d/sub/f")).unwrap(), "from s");
    for gone in ["/s", "/s/empty", "/s/sub", "/s/sub/void", "/s/sub/f"] {
        assert!(!fs.path_exists(&p(gone)), "{gone}");
    }
}

/// Where one entry fails, those before it have come over, and it and those behind it
/// are still there.
#[test]
fn an_entry_that_fails_stops_a_merge() {
    let mut fs = MockFs::new();
    for dir in ["/s", "/s/b", "/d", "/d/b"] {
        fs.add_dir(&p(dir));
    }
    fs.add_file(&p("/s/a"), "a");
    fs.add_file(&p("/s/b/c"), "c");
    let err = merge_dirs(&mut fs, &p("/s"), &p("/d"), 0).unwrap_err();
    assert!(matches!(err, Error::TooDeep(path) if path.as_str() == "/s/b"));
    assert_eq!(fs.read_to_string(&p("/s/b/c")).unwrap(), "c");
    let here = fs.path_exists(&p("/s/a"));
    let there = fs.path_exists(&p("/d/a"));
    assert!(here != there);
    assert!(fs.is_dir(&p("/s")));
}

#[test]
fn indexes_are_joined_target_first() {
    let merged = merge_index(
        &json(r#"{"version":2,"entries":[{"id":"s"}],"extra":1}"#),
        json(r#"{"version":1,"entries":[{"id":"d"}]}"#),
    );
    assert_eq!(merged["entries"], json(r#"[{"id":"d"},{"id":"s"}]"#));
    assert_eq!(merged["version"], json("1"));
}

#[test]
fn an_index_without_entries_takes_those_of_the_source() {
    let merged = merge_index(&json(r#"{"entries":["s"]}"#), json("{}"));
    assert_eq!(merged["entries"], json(r#"["s"]"#));
}

#[test]
fn merging_indexes_on_disk() {
    let mut fs = MockFs::new();
    fs.add_dir(&p("/s"));
    fs.add_dir(&p("/d"));
    fs.add_file(&p("/s/sessions-index.json"), r#"{"entries":["s"]}"#);
    fs.add_file(&p("/d/sessions-index.json"), r#"{"version":1,"entries":["d"]}"#);

    merge_sessions_index(&mut fs, &p("/s"), &p("/d")).unwrap();

    let merged = json(&fs.read_to_string(&p("/d/sessions-index.json")).unwrap());
    assert_eq!(merged, json(r#"{"version":1,"entries":["d","s"]}"#));
    assert!(!fs.path_exists(&p("/s/sessions-index.json")));
}

#[test]
fn an_index_that_is_no_json_is_refused() {
    let mut fs = MockFs::new();
    fs.add_dir(&p("/s"));
    fs.add_dir(&p("/d"));
    fs.add_file(&p("/s/sessions-index.json"), "no");
    fs.add_file(&p("/d/sessions-index.json"), "{}");
    assert!(merge_sessions_index(&mut fs, &p("/s"), &p("/d")).is_err());
    assert_eq!(fs.read_to_string(&p("/d/sessions-index.json")).unwrap(), "{}");
}

#[test]
fn an_index_that_holds_no_members_is_refused() {
    let mut fs = MockFs::new();
    fs.add_dir(&p("/s"));
    fs.add_dir(&p("/d"));
    fs.add_file(&p("/s/sessions-index.json"), r#"{"entries":["s"]}"#);
    fs.add_file(&p("/d/sessions-index.json"), "[]");
    let err = merge_sessions_index(&mut fs, &p("/s"), &p("/d")).unwrap_err();
    assert!(matches!(err, Error::IndexShape(_)), "{err:?}");
    assert_eq!(fs.read_to_string(&p("/d/sessions-index.json")).unwrap(), "[]");
}

#[test]
fn a_tree_that_never_ends_is_refused() {
    let mut fs = MockFs::new();
    fs.add_dir(&p("/s"));
    fs.add_dir(&p("/d"));
    fs.add_dir(&p("/s/sub"));
    fs.add_dir(&p("/d/sub"));
    let err = merge_dirs(&mut fs, &p("/s"), &p("/d"), 0).unwrap_err();
    assert!(matches!(err, Error::TooDeep(_)), "{err:?}");
}
