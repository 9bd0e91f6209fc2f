use peek_api::api::{InspectMode, PeekError, PeekRequest};
use peek_api::cli::{
    build_request, has_bounded_inspection_flags, validate_inspection, validate_repo_map, Args,
};

fn args(file: &str) -> Args {
    Args {
        file: file.to_string(),
        repo_map: false,
        output: None,
        start: None,
        end: None,
        window: None,
        head: None,
        tail: None,
        grep: None,
        count: false,
        all: false,
        skeleton: false,
    }
}

fn invalid_message(result: Result<PeekRequest, PeekError>) -> String {
    match result {
        Err(PeekError::InvalidRequest(message)) => message,
        other => panic!("expected an invalid request, got {other:?}"),
    }
}

fn inspect_mode(result: Result<PeekRequest, PeekError>, path: &str) -> InspectMode {
    match result {
        Ok(PeekRequest::Inspect(request)) => {
            assert_eq!(request.path, path);
            request.mode
        }
        other => panic!("expected an inspection, got {other:?}"),
    }
}

#[test]
fn range_request_carries_start_end_and_window() {
    let mut a = args("src/lib.rs");
    a.start = Some(42);
    a.end = Some(80);
    assert_eq!(
        inspect_mode(build_request(&a), "src/lib.rs"),
        InspectMode::Range { start: 42, end: Some(80), window: None }
    );

    let mut b = args("src/lib.rs");
    b.start = Some(100);
    b.window = Some(20);
    assert_eq!(
        inspect_mode(build_request(&b), "src/lib.rs"),
        InspectMode::Range { start: 100, end: None, window: Some(20) }
    );
}

#[test]
fn window_without_start_anchors_at_line_one() {
    let mut a = args("f.rs");
    a.window = Some(20);
    assert_eq!(
        inspect_mode(build_request(&a), "f.rs"),
        InspectMode::Range { start: 1, end: None, window: Some(20) }
    );
}

#[test]
fn modes_are_chosen_in_fixed_order() {
    let mut a = args("f.rs");
    a.count = true;
    a.grep = Some("fn x".to_string());
    a.head = Some(3);
    assert_eq!(inspect_mode(build_request(&a), "f.rs"), InspectMode::Count);

    let mut b = args("f.rs");
    b.grep = Some("fn my_function".to_string());
    b.window = Some(15);
    b.tail = Some(2);
    assert_eq!(
        inspect_mode(build_request(&b), "f.rs"),
        InspectMode::Grep { pattern: "fn my_function".to_string(), window: Some(15) }
    );

    let mut c = args("f.rs");
    c.head = Some(30);
    c.tail = Some(5);
    assert_eq!(inspect_mode(build_request(&c), "f.rs"), InspectMode::Head { lines: 30 });

    let mut d = args("f.rs");
    d.tail = Some(30);
    assert_eq!(inspect_mode(build_request(&d), "f.rs"), InspectMode::Tail { lines: 30 });
}

#[test]
fn full_read_needs_all_alone() {
    let mut a = args("f.rs");
    a.all = true;
    assert_eq!(inspect_mode(build_request(&a), "f.rs"), InspectMode::All);

    let mut b = args("f.rs");
    b.all = true;
    b.head = Some(3);
    assert_eq!(
        invalid_message(build_request(&b)),
        "--all cannot be combined with bounded inspection flags"
    );

    let none = invalid_message(build_request(&args("f.rs")));
    assert!(none.starts_with("peek requires a bounded read mode.\n\nCommon patterns:\n"));
    assert!(none.contains("peek f.rs --start 42 --end 80\n"));
    assert!(none.ends_with("# Full file (token-expensive \u{2014} explicit opt-in)\npeek f.rs --all"));
}

#[test]
fn conflicting_inspection_flags_are_refused() {
    let mut a = args("f.rs");
    a.end = Some(9);
    assert_eq!(invalid_message(build_request(&a)), "--end requires --start");

    let mut b = args("f.rs");
    b.start = Some(1);
    b.end = Some(9);
    b.window = Some(3);
    assert_eq!(
        invalid_message(build_request(&b)),
        "--end and --window are mutually exclusive"
    );
    assert!(validate_inspection(&b).is_err());
    b.window = None;
    assert!(validate_inspection(&b).is_ok());
}

#[test]
fn repo_map_stands_alone() {
    let mut a = args(".");
    a.repo_map = true;
    a.output = Some("repo_map.toon".to_string());
    match build_request(&a) {
        Ok(PeekRequest::RepoMap { root }) => assert_eq!(root, "."),
        other => panic!("expected a repo map, got {other:?}"),
    }
    assert!(validate_repo_map(&a).is_ok());

    let mut b = args(".");
    b.repo_map = true;
    b.skeleton = true;
    assert_eq!(
        invalid_message(build_request(&b)),
        "--repo-map cannot be combined with file inspection flags"
    );
    let mut c = args(".");
    c.repo_map = true;
    c.count = true;
    assert!(validate_repo_map(&c).is_err());
}

#[test]
fn skeleton_wins_over_read_flags() {
    let mut a = args("src");
    a.skeleton = true;
    a.all = true;
    a.head = Some(2);
    match build_request(&a) {
        Ok(PeekRequest::Skeleton { path }) => assert_eq!(path, "src"),
        other => panic!("expected a skeleton, got {other:?}"),
    }
}

#[test]
fn bounded_flags_are_recognised() {
    assert!(!has_bounded_inspection_flags(&args("f")));
    let mut a = args("f");
    a.all = true;
    a.skeleton = true;
    assert!(!has_bounded_inspection_flags(&a));
    let mut b = args("f");
    b.window = Some(1);
    assert!(has_bounded_inspection_flags(&b));
    let mut c = args("f");
    c.count = true;
    assert!(has_bounded_inspection_flags(&c));
}
