use ccmv::batch::parse;
use ccmv::batch::BatchPlan;
use ccmv::batch::Move;
use ccmv::batch::PlanRules;
use ccmv::encoder::encode;
use ccmv::error::Error;
use ccmv::home::Home;
use ccmv::mock_fs::MockFs;
use ccmv::path::FilePath;
use ccmv::scanner::ProjectState;

fn p(text: &str) -> FilePath {
    FilePath::new(text)
}

fn home(path: &str) -> Home {
    Home {
        path: p(path),
        local_dir: ".data".to_owned(),
        registry: ".data.json".to_owned(),
        archived_registry: "data.json".to_owned(),
        manifest: "contents.json".to_owned(),
    }
}

const HOME: &str = "/home/u/.data";

fn mv(line: usize, source: &str, target: &str) -> Move {
    Move {
        source: p(source),
        target: p(target),
        line: Some(line),
    }
}

/// Makes `path` look like a real project to `scanner::scan`.
fn with_project(fs: &mut MockFs, path: &str) {
    fs.add_dir(&p(path));
}

/// Makes `path` look like it already carries session data (rule 6).
fn with_claude_data(fs: &mut MockFs, path: &str) {
    let encoded = encode(&p(path)).unwrap();
    fs.add_dir(&p(HOME).join("projects").join(&encoded));
}

fn validate(
    moves: Vec<Move>,
    fs: &MockFs,
    force: bool,
) -> Result<Vec<ProjectState>, Error> {
    BatchPlan { moves }.validate(
        fs,
        &home(HOME),
        &PlanRules {
            force,
            session_only: false,
        },
    )
}

fn validate_session_only(
    moves: Vec<Move>,
    fs: &MockFs,
) -> Result<Vec<ProjectState>, Error> {
    BatchPlan { moves }.validate(
        fs,
        &home(HOME),
        &PlanRules {
            force: false,
            session_only: true,
        },
    )
}

// --- Task 3.1: parser ---------------------------------------------

#[test]
fn parse_skips_comments_and_blanks() {
    let input = "# a comment\n\n/x/a\t/y/a\n\n  \n# another\n/x/b\t/y/b\n";
    let raw = parse(input).unwrap();

    assert_eq!(raw.len(), 2);
    assert_eq!(raw[0].source, "/x/a");
    assert_eq!(raw[0].target, "/y/a");
    assert_eq!(raw[0].line, 3);
    assert_eq!(raw[1].line, 7);
}

#[test]
fn parse_rejects_line_with_extra_tab() {
    let input = "/x/a\t/y/a\n/x/b\t/y\tb\n";
    let err = parse(input).unwrap_err().message();

    assert!(err.contains("line 2"), "error must name the line: {err}");
}

#[test]
fn parse_rejects_line_without_tab() {
    let err = parse("/x/a /y/a\n").unwrap_err().message();

    assert!(err.contains("line 1"), "error must name the line: {err}");
}

// --- Task 3.2: validation rules 1-6 -------------------------------

#[test]
fn rejects_duplicate_source() {
    let mut fs = MockFs::new();
    with_project(&mut fs, "/x/a");

    let err = validate(
        vec![mv(1, "/x/a", "/y/one"), mv(2, "/x/a", "/y/two")],
        &fs,
        false,
    )
    .unwrap_err()
    .message();

    assert!(err.contains("line 2"), "{err}");
    assert!(err.contains("source"), "{err}");
}

#[test]
fn rejects_two_sources_one_target() {
    let mut fs = MockFs::new();
    with_project(&mut fs, "/x/a");
    with_project(&mut fs, "/x/b");

    let err = validate(
        vec![mv(1, "/x/a", "/y/one"), mv(2, "/x/b", "/y/one")],
        &fs,
        false,
    )
    .unwrap_err()
    .message();

    assert!(err.contains("/y/one"), "{err}");
    assert!(err.contains("line 2"), "{err}");
}

#[test]
fn rejects_chain() {
    let mut fs = MockFs::new();
    with_project(&mut fs, "/x/a");
    with_project(&mut fs, "/x/b");

    let err = validate(
        vec![mv(1, "/x/a", "/x/b"), mv(2, "/x/b", "/x/c")],
        &fs,
        false,
    )
    .unwrap_err()
    .message();

    assert!(err.contains("chain"), "{err}");
}

#[test]
fn rejects_swap() {
    let mut fs = MockFs::new();
    with_project(&mut fs, "/x/a");
    with_project(&mut fs, "/x/b");

    let err = validate(
        vec![mv(1, "/x/a", "/x/b"), mv(2, "/x/b", "/x/a")],
        &fs,
        false,
    )
    .unwrap_err()
    .message();

    assert!(err.contains("chain"), "swap is a chain: {err}");
}

#[test]
fn rejects_nested_sources() {
    let mut fs = MockFs::new();
    with_project(&mut fs, "/x/rust");
    with_project(&mut fs, "/x/rust/concepts");

    let err = validate(
        vec![
            mv(1, "/x/rust", "/y/rust"),
            mv(2, "/x/rust/concepts", "/y/concepts"),
        ],
        &fs,
        false,
    )
    .unwrap_err()
    .message();

    assert!(err.contains("nesting"), "{err}");
}

/// Neither a chain (no target equals a source) nor two nested sources,
/// yet the outcome depends on the order: `/x/rust` is gone by the time
/// the second move wants to land inside it.
#[test]
fn rejects_target_nested_in_another_source() {
    let mut fs = MockFs::new();
    with_project(&mut fs, "/x/rust");
    with_project(&mut fs, "/x/toolchain");

    let err = validate(
        vec![
            mv(1, "/x/rust", "/y/rust"),
            mv(2, "/x/toolchain", "/x/rust/toolchain"),
        ],
        &fs,
        false,
    )
    .unwrap_err()
    .message();

    assert!(err.contains("nesting"), "{err}");
}

/// Two projects landing one inside the other is order-dependent the same
/// way, and it is what lets the project directories move in any order.
#[test]
fn rejects_target_nested_in_another_target() {
    let mut fs = MockFs::new();
    with_project(&mut fs, "/x/a");
    with_project(&mut fs, "/x/b");

    let err = validate(
        vec![mv(1, "/x/a", "/y/dest"), mv(2, "/x/b", "/y/dest/sub")],
        &fs,
        false,
    )
    .unwrap_err()
    .message();

    assert!(err.contains("nesting"), "{err}");
}

/// The everyday plan: many projects into one directory. Their targets
/// share a parent but never contain one another, so the widened check
/// must leave it alone.
#[test]
fn accepts_many_projects_into_one_directory() {
    let mut fs = MockFs::new();
    let moves = (0..5)
        .map(|i| {
            let source = format!("/x/proj{i}");
            with_project(&mut fs, &source);
            mv(i + 1, &source, &format!("/y/dest/proj{i}"))
        })
        .collect();

    validate(moves, &fs, false).unwrap();
}

#[test]
fn rejects_missing_source() {
    let mut fs = MockFs::new();

    let err = validate(vec![mv(1, "/x/gone", "/y/gone")], &fs, false)
        .unwrap_err()
        .message();

    assert!(err.contains("/x/gone"), "{err}");
    assert!(err.contains("not found"), "{err}");
}

#[test]
fn rejects_occupied_target_without_force() {
    let mut fs = MockFs::new();
    with_project(&mut fs, "/x/a");
    with_claude_data(&mut fs, "/y/a");

    let err = validate(vec![mv(1, "/x/a", "/y/a")], &fs, false)
        .unwrap_err()
        .message();

    assert!(err.contains("--force"), "{err}");
}

#[test]
fn accepts_occupied_target_with_force() {
    let mut fs = MockFs::new();
    with_project(&mut fs, "/x/a");
    with_claude_data(&mut fs, "/y/a");

    validate(vec![mv(1, "/x/a", "/y/a")], &fs, true).unwrap();
}

#[test]
fn accepts_valid_120_move_plan() {
    let mut fs = MockFs::new();
    let moves = (0..120)
        .map(|i| {
            let source = format!("/x/proj{i}");
            with_project(&mut fs, &source);
            mv(i + 1, &source, &format!("/y/proj{i}"))
        })
        .collect();

    validate(moves, &fs, false).unwrap();
}

/// The scanned states are the plan's second output: the migration builds
/// its units from them instead of walking every source again.
#[test]
fn returns_the_scanned_source_states_in_plan_order() {
    let mut fs = MockFs::new();
    let moves = (0..3)
        .map(|i| {
            let source = format!("/x/proj{i}");
            with_project(&mut fs, &source);
            mv(i + 1, &source, &format!("/y/proj{i}"))
        })
        .collect();

    let states = validate(moves, &fs, false).unwrap();

    let paths: Vec<_> = states.iter().map(|s| s.project_path.clone()).collect();
    assert_eq!(
        paths,
        ["/x/proj0", "/x/proj1", "/x/proj2"].map(p)
    );
}

// --- session-only rules -------------------------------------------

/// Merging into an existing target global is what session-only is for, so
/// the rule that guards a full move must not fire here.
#[test]
fn session_only_accepts_occupied_target() {
    let mut fs = MockFs::new();
    with_project(&mut fs, "/x/a");
    with_claude_data(&mut fs, "/x/a");
    with_project(&mut fs, "/y/a");
    with_claude_data(&mut fs, "/y/a");

    validate_session_only(vec![mv(1, "/x/a", "/y/a")], &fs).unwrap();
}

#[test]
fn session_only_rejects_source_without_global_data() {
    let mut fs = MockFs::new();
    with_project(&mut fs, "/x/a");
    with_project(&mut fs, "/y/a");

    let err = validate_session_only(vec![mv(1, "/x/a", "/y/a")], &fs)
        .unwrap_err()
        .message();

    assert!(err.contains("nothing to move"), "{err}");
}

#[test]
fn session_only_rejects_missing_target_directory() {
    let mut fs = MockFs::new();
    with_project(&mut fs, "/x/a");
    with_claude_data(&mut fs, "/x/a");

    let err = validate_session_only(vec![mv(1, "/x/a", "/y/gone")], &fs)
        .unwrap_err()
        .message();

    assert!(err.contains("orphaned"), "{err}");
}

/// The point of routing session-only through the plan: both offending
/// lines are named in one run.
#[test]
fn session_only_reports_all_violations_at_once() {
    let mut fs = MockFs::new();
    with_project(&mut fs, "/x/a");
    with_project(&mut fs, "/x/b");
    with_claude_data(&mut fs, "/x/b");
    with_project(&mut fs, "/y/a");

    let err = validate_session_only(vec![mv(1, "/x/a", "/y/a"), mv(2, "/x/b", "/y/gone")], &fs)
        .unwrap_err()
        .message();

    assert!(err.contains("2 problems"), "{err}");
}

// --- Task 3.3: report everything at once ---------------------------

#[test]
fn reports_all_violations_at_once() {
    let mut fs = MockFs::new();
    with_project(&mut fs, "/x/a");
    with_project(&mut fs, "/x/b");
    with_project(&mut fs, "/x/c");

    // line 2: chain on /x/b, line 3: collision on /y/one,
    // line 4: source does not exist.
    let err = validate(
        vec![
            mv(1, "/x/a", "/x/b"),
            mv(2, "/x/b", "/y/one"),
            mv(3, "/x/c", "/y/one"),
            mv(4, "/x/gone", "/y/gone"),
        ],
        &fs,
        false,
    )
    .unwrap_err()
    .message();

    assert!(err.contains("chain"), "{err}");
    assert!(err.contains("/y/one"), "{err}");
    assert!(err.contains("/x/gone"), "{err}");
    assert!(err.contains("3 problems"), "{err}");
}

/// Moves from positional arguments carry no line number, so they must
/// name themselves by path instead.
#[test]
fn moves_without_a_line_are_named_by_path() {
    let mut fs = MockFs::new();

    let err = validate(
        vec![Move {
            source: p("/x/gone"),
            target: p("/y/gone"),
            line: None,
        }],
        &fs,
        false,
    )
    .unwrap_err()
    .message();

    assert!(err.contains("/x/gone"), "{err}");
    assert!(!err.contains("line"), "no line number to report: {err}");
}

#[test]
fn violations_are_reported_in_line_order() {
    let mut fs = MockFs::new();

    let err = validate(
        vec![mv(7, "/x/gone7", "/y/a"), mv(2, "/x/gone2", "/y/b")],
        &fs,
        false,
    )
    .unwrap_err()
    .message();

    let at2 = err.find("line 2").unwrap();
    let at7 = err.find("line 7").unwrap();
    assert!(at2 < at7, "{err}");
}
