use peek_api::api::{InspectMode, PeekError};
use peek_api::inspect::{grep_lines, grep_response, inspect_lines};
use peek_api::render::{render_all, render_requested_range, render_window};
use peek_api::tree::{insert_tree_path, render_directory_skeleton, PathTree};
use peek_api::workspace::{collect_directory_tree, skeletonize_directory};

fn lines_of(text: &str) -> Vec<String> {
    text.lines().map(String::from).collect()
}

#[test]
fn inspect_count_returns_total_lines() {
    let lines = lines_of("one\ntwo\nthree\n");
    let response = inspect_lines("sample.rs", &lines, &InspectMode::Count)
        .expect("count should succeed");

    assert_eq!(response.stdout, "3\n");
    assert!(response.stderr.is_empty());
}

#[test]
fn inspect_range_validates_bounds() {
    let lines = lines_of("one\ntwo\nthree\n");
    let error = inspect_lines(
        "sample.rs",
        &lines,
        &InspectMode::Range {
            start: 0,
            end: None,
            window: None,
        },
    )
    .expect_err("start=0 should fail");

    assert!(matches!(error, PeekError::StartMustBePositive));
}

#[test]
fn skeleton_directory_renders_tree() {
    // The fixture `workspace/` holds `memory-api/tools/cli/peek-cli/Cargo.toml`
    // and `README.md`; each entry of the walk goes through the walk's filters,
    // and the walk descends where they say so.
    let mut tree = PathTree::new();
    let walk: Vec<(&str, &str, bool)> = vec![
        ("README.md", "README.md", false),
        ("memory-api", "memory-api", true),
        ("memory-api/tools", "tools", true),
        ("memory-api/tools/cli", "cli", true),
        ("memory-api/tools/cli/peek-cli", "peek-cli", true),
        ("memory-api/tools/cli/peek-cli/Cargo.toml", "Cargo.toml", false),
    ];
    for (relative, name, is_dir) in walk {
        assert_eq!(collect_directory_tree(&mut tree, relative, name, is_dir), is_dir);
    }
    let stdout = skeletonize_directory("/tmp/checkout/workspace", &tree);

    assert!(stdout.contains("workspace/"));
    assert!(stdout.contains("  memory-api/"));
    assert!(stdout.contains("    tools/"));
    assert!(stdout.contains("      cli/"));
    assert!(stdout.contains("        peek-cli/"));
}

#[test]
fn directory_skeleton_lists_nodes_in_walk_order() {
    let mut tree = PathTree::new();
    insert_tree_path(&mut tree, "memory-api/tools/cli/peek-cli/Cargo.toml", None, true);
    insert_tree_path(&mut tree, "README.md", None, true);
    let stdout = skeletonize_directory("/home/dev/workspace", &tree);
    assert_eq!(
        stdout,
        "workspace/\n  README.md\n  memory-api/\n    tools/\n      cli/\n        peek-cli/\n          Cargo.toml\n"
    );
    assert_eq!(skeletonize_directory("/", &PathTree::new()), "//\n");
    assert_eq!(render_directory_skeleton("/home/dev/workspace", &PathTree::new()), "/home/dev/workspace/\n");
}

#[test]
fn count_of_empty_file_is_zero() {
    let lines: Vec<String> = Vec::new();
    let response = inspect_lines("empty.txt", &lines, &InspectMode::Count).unwrap();
    assert_eq!(response.stdout, "0\n");
}

#[test]
fn all_prints_every_line_numbered() {
    let lines = lines_of("one\ntwo\nthree\n");
    assert_eq!(render_all(&lines), "     1 one\n     2 two\n     3 three\n");
    let response = inspect_lines("sample.rs", &lines, &InspectMode::All).unwrap();
    assert_eq!(response.stdout, "     1 one\n     2 two\n     3 three\n");
    assert_eq!(response.stderr, "");
}

#[test]
fn wide_line_numbers_are_not_truncated() {
    let lines: Vec<String> = (1..=1_000_001).map(|i| format!("l{i}")).collect();
    let text = render_window(&lines, 1_000_000, 1_000_001, lines.len());
    assert_eq!(text, "1000000 l1000000\n1000001 l1000001\n");
}

#[test]
fn head_and_tail_clamp_to_the_file() {
    let lines = lines_of("a\nb\nc\nd\n");
    let head = inspect_lines("f", &lines, &InspectMode::Head { lines: 2 }).unwrap();
    assert_eq!(head.stdout, "     1 a\n     2 b\n");
    let head_all = inspect_lines("f", &lines, &InspectMode::Head { lines: 10 }).unwrap();
    assert_eq!(head_all.stdout, "     1 a\n     2 b\n     3 c\n     4 d\n");
    let tail = inspect_lines("f", &lines, &InspectMode::Tail { lines: 2 }).unwrap();
    assert_eq!(tail.stdout, "     3 c\n     4 d\n");
    let tail_all = inspect_lines("f", &lines, &InspectMode::Tail { lines: 9 }).unwrap();
    assert_eq!(tail_all.stdout, "     1 a\n     2 b\n     3 c\n     4 d\n");
    let none = inspect_lines("f", &lines, &InspectMode::Tail { lines: 0 }).unwrap();
    assert_eq!(none.stdout, "");
}

#[test]
fn range_errors_report_their_inputs() {
    let lines = lines_of("a\nb\nc\n");
    let past = render_requested_range(&lines, 3, 4, None, None).unwrap_err();
    assert!(matches!(past, PeekError::StartExceedsFileLength { start: 4, total: 3 }));
    let backwards = render_requested_range(&lines, 3, 3, Some(2), None).unwrap_err();
    assert!(matches!(backwards, PeekError::EndBeforeStart { start: 3, end: 2 }));
}

#[test]
fn range_end_window_and_default() {
    let lines: Vec<String> = (1..=50).map(|i| format!("line {i}")).collect();
    let explicit = render_requested_range(&lines, 50, 2, Some(3), None).unwrap();
    assert_eq!(explicit, "     2 line 2\n     3 line 3\n");
    let clamped = render_requested_range(&lines, 50, 49, Some(80), None).unwrap();
    assert_eq!(clamped, "    49 line 49\n    50 line 50\n");
    let window = render_requested_range(&lines, 50, 10, None, Some(2)).unwrap();
    assert_eq!(window, "    10 line 10\n    11 line 11\n");
    let zero_window = render_requested_range(&lines, 50, 10, None, Some(0)).unwrap();
    assert_eq!(zero_window, "");
    let default = render_requested_range(&lines, 50, 5, None, None).unwrap();
    assert_eq!(default.lines().count(), 40);
    assert!(default.starts_with("     5 line 5\n"));
    assert!(default.ends_with("    44 line 44\n"));
    let long: Vec<String> = (1..=400).map(|i| format!("line {i}")).collect();
    let twenty = render_requested_range(&long, 400, 100, None, Some(20)).unwrap();
    assert_eq!(twenty.lines().count(), 20);
    assert!(twenty.starts_with("   100 line 100\n"));
    assert!(twenty.ends_with("   119 line 119\n"));
    let huge = render_requested_range(&long, 400, 390, None, Some(usize::MAX)).unwrap();
    assert_eq!(huge.lines().count(), 11);
    assert!(huge.ends_with("   400 line 400\n"));
    let huge_start = render_requested_range(&long, 400, 400, None, Some(usize::MAX)).unwrap();
    assert_eq!(huge_start, "   400 line 400\n");
}

#[test]
fn grep_lists_matches_with_numbers() {
    let lines = lines_of("fn a() {}\nlet x = 1;\nfn b() {}\n");
    let response = grep_lines("lib.rs", &lines, "fn [ab]", None).unwrap();
    assert_eq!(response.stdout, "     1 | fn a() {}\n     3 | fn b() {}\n");
    assert_eq!(response.stderr, "");
}

#[test]
fn grep_window_centers_on_first_match() {
    let lines: Vec<String> = (1..=20).map(|i| format!("row {i}")).collect();
    let response = grep_lines("f", &lines, "^row 10$", Some(4)).unwrap();
    assert_eq!(
        response.stdout,
        "     8 row 8\n     9 row 9\n    10 row 10\n    11 row 11\n    12 row 12\n"
    );
    let near_start = grep_lines("f", &lines, "^row 2$", Some(10)).unwrap();
    assert!(near_start.stdout.starts_with("     1 row 1\n"));
    assert!(near_start.stdout.ends_with("     7 row 7\n"));
}

#[test]
fn grep_without_match_reports_on_stderr() {
    let lines = lines_of("alpha\nbeta\n");
    let response = grep_lines("notes/a.txt", &lines, "gamma\"x", None).unwrap();
    assert_eq!(response.stdout, "");
    assert_eq!(
        response.stderr,
        "peek: no match for \"gamma\\\"x\" in notes/a.txt\n"
    );
}

#[test]
fn grep_rejects_invalid_regex() {
    let lines = lines_of("one\ntwo\nthree\n");
    let error = grep_lines("sample.rs", &lines, "[", None).unwrap_err();
    match error {
        PeekError::InvalidRegex { pattern, .. } => assert_eq!(pattern, "["),
        other => panic!("unexpected error {other:?}"),
    }
    let through_inspect = inspect_lines(
        "sample.rs",
        &lines,
        &InspectMode::Grep {
            pattern: "(".to_string(),
            window: None,
        },
    );
    assert!(matches!(through_inspect, Err(PeekError::InvalidRegex { .. })));
}

#[test]
fn grep_response_given_hits() {
    let lines = lines_of("a\nb\nc\n");
    let listed = grep_response("f", "\"b\"", &lines, &vec![2], None);
    assert_eq!(listed.stdout, "     2 | b\n");
    let none = grep_response("f", "\"z\"", &lines, &vec![], None);
    assert_eq!(none.stderr, "peek: no match for \"z\" in f\n");
    let window = grep_response("f", "\"b\"", &lines, &vec![2, 3], Some(2));
    assert_eq!(window.stdout, "     1 a\n     2 b\n     3 c\n");
}
