//! Command-line requests: which flags combine, and the request they make.
use vstd::prelude::*;

use crate::api::{InspectMode, InspectRequest, PeekError, PeekRequest};
use crate::text::{push_str, string_from};

verus! {

/// The parsed command line of `peek`.
pub struct Args {
    /// Path to the file (or, for a skeleton or repo map, directory) to inspect.
    pub file: String,
    /// Generate the repository structural map for the target root.
    pub repo_map: bool,
    /// Write generated output to this file instead of standard output.
    pub output: Option<String>,
    /// First line to include (1-based, inclusive).
    pub start: Option<usize>,
    /// Last line to include (1-based, inclusive).
    pub end: Option<usize>,
    /// Number of lines to show after `start`, or around the first grep match.
    pub window: Option<usize>,
    /// Show the first N lines.
    pub head: Option<usize>,
    /// Show the last N lines.
    pub tail: Option<usize>,
    /// Search for a regex pattern.
    pub grep: Option<String>,
    /// Print the total line count only.
    pub count: bool,
    /// Read the entire file.
    pub all: bool,
    /// Print structural signatures only.
    pub skeleton: bool,
}

/// Some bounded-read flag is given.
pub open spec fn bounded_flags(args: Args) -> bool {
    ||| args.start is Some
    ||| args.end is Some
    ||| args.window is Some
    ||| args.head is Some
    ||| args.tail is Some
    ||| args.grep is Some
    ||| args.count
}

/// The repo-map flag is combined with an inspection flag.
pub open spec fn repo_map_conflicts(args: Args) -> bool {
    args.skeleton || bounded_flags(args) || args.all
}

/// Why the inspection flags cannot be combined, if they cannot.
pub open spec fn inspection_conflict(args: Args) -> Option<Seq<char>> {
    if args.all && bounded_flags(args) {
        Some("--all cannot be combined with bounded inspection flags"@)
    } else if args.end is Some && args.start is None {
        Some("--end requires --start"@)
    } else if args.end is Some && args.window is Some {
        Some("--end and --window are mutually exclusive"@)
    } else {
        None
    }
}

/// The message for a command line that names no read mode, for the file `path`.
pub open spec fn usage_message(path: Seq<char>) -> Seq<char> {
    "peek requires a bounded read mode.\n\nCommon patterns:\n\n# Targeted window (recommended)\npeek "@
        + path + " --start 42 --end 80\n\n# Window from start\npeek "@ + path
        + " --start 100 --window 20\n\n# Head / tail\npeek "@ + path + " --head 30\npeek "@ + path
        + " --tail 30\n\n# Find a function, then show context\npeek "@ + path
        + " --grep \"fn my_fn\" --window 15\n\n# Count lines before choosing coordinates\npeek "@
        + path + " --count\n\n# Architecture map (signatures only, no bodies)\npeek "@ + path
        + " --skeleton\n\n# Full file (token-expensive \u{2014} explicit opt-in)\npeek "@ + path
        + " --all"@
}

/// `r` is an invalid-request error with the message `msg`.
pub open spec fn is_invalid_request(r: Result<PeekRequest, PeekError>, msg: Seq<char>) -> bool {
    r matches Err(PeekError::InvalidRequest(m)) && m@ == msg
}

/// `r` is an inspection of `path` in the mode that `ok` accepts.
pub open spec fn is_inspection(
    r: Result<PeekRequest, PeekError>,
    path: Seq<char>,
    ok: spec_fn(InspectMode) -> bool,
) -> bool {
    r matches Ok(PeekRequest::Inspect(req)) && req.path@ == path && ok(req.mode)
}

/// The request a command line makes, or the error that refuses it. The
/// repo map and the skeleton come first; then the read modes in the order
/// count, grep, all, head, tail, range; a window without a start reads from
/// line 1.
pub open spec fn request_for(args: Args, r: Result<PeekRequest, PeekError>) -> bool {
    if args.repo_map {
        if repo_map_conflicts(args) {
            is_invalid_request(r, "--repo-map cannot be combined with file inspection flags"@)
        } else {
            r matches Ok(PeekRequest::RepoMap { root }) && root@ == args.file@
        }
    } else if args.skeleton {
        r matches Ok(PeekRequest::Skeleton { path }) && path@ == args.file@
    } else if inspection_conflict(args) is Some {
        is_invalid_request(r, inspection_conflict(args)->0)
    } else if args.count {
        is_inspection(r, args.file@, |m: InspectMode| m is Count)
    } else if args.grep is Some {
        is_inspection(
            r,
            args.file@,
            |m: InspectMode|
                m matches InspectMode::Grep { pattern, window } && pattern@ == args.grep->0@
                    && window == args.window,
        )
    } else if args.all {
        is_inspection(r, args.file@, |m: InspectMode| m is All)
    } else if args.head is Some {
        is_inspection(
            r,
            args.file@,
            |m: InspectMode| m == InspectMode::Head { lines: args.head->0 },
        )
    } else if args.tail is Some {
        is_inspection(
            r,
            args.file@,
            |m: InspectMode| m == InspectMode::Tail { lines: args.tail->0 },
        )
    } else if args.start is Some {
        is_inspection(
            r,
            args.file@,
            |m: InspectMode|
                m == InspectMode::Range { start: args.start->0, end: args.end, window: args.window },
        )
    } else if args.window is Some {
        is_inspection(
            r,
            args.file@,
            |m: InspectMode| m == InspectMode::Range { start: 1, end: None, window: args.window },
        )
    } else {
        is_invalid_request(r, usage_message(args.file@))
    }
}

/// An invalid-request error with the message `msg`.
fn invalid(msg: &str) -> (e: PeekError)
    ensures
        e matches PeekError::InvalidRequest(m) && m@ == msg@,
{
    PeekError::InvalidRequest(string_from(msg))
}

/// Refuses a repo map combined with file inspection flags.
pub fn validate_repo_map(args: &Args) -> (r: Result<(), PeekError>)
    ensures
        r is Ok <==> !repo_map_conflicts(*args),
        r matches Err(e) ==> e matches PeekError::InvalidRequest(m) && m@
            == "--repo-map cannot be combined with file inspection flags"@,
{
    if args.skeleton || args.start.is_some() || args.end.is_some() || args.window.is_some()
        || args.head.is_some() || args.tail.is_some() || args.grep.is_some() || args.count
        || args.all {
        return Err(invalid("--repo-map cannot be combined with file inspection flags"));
    }
    Ok(())
}

/// Whether any bounded-read flag is given.
pub fn has_bounded_inspection_flags(args: &Args) -> (r: bool)
    ensures
        r == bounded_flags(*args),
{
    args.start.is_some() || args.end.is_some() || args.window.is_some() || args.head.is_some()
        || args.tail.is_some() || args.grep.is_some() || args.count
}

/// Refuses inspection flags that cannot be combined.
pub fn validate_inspection(args: &Args) -> (r: Result<(), PeekError>)
    ensures
        r is Ok <==> inspection_conflict(*args) is None,
        r matches Err(e) ==> e matches PeekError::InvalidRequest(m) && m@ == inspection_conflict(
            *args,
        )->0,
{
    if args.all && has_bounded_inspection_flags(args) {
        return Err(invalid("--all cannot be combined with bounded inspection flags"));
    }
    if args.end.is_some() && args.start.is_none() {
        return Err(invalid("--end requires --start"));
    }
    if args.end.is_some() && args.window.is_some() {
        return Err(invalid("--end and --window are mutually exclusive"));
    }
    Ok(())
}

/// The message for a command line that names no read mode.
fn usage(path: &str) -> (m: String)
    ensures
        m@ == usage_message(path@),
{
    let mut m = string_from(
        "peek requires a bounded read mode.\n\nCommon patterns:\n\n# Targeted window (recommended)\npeek ",
    );
    push_str(&mut m, path);
    push_str(&mut m, " --start 42 --end 80\n\n# Window from start\npeek ");
    push_str(&mut m, path);
    push_str(&mut m, " --start 100 --window 20\n\n# Head / tail\npeek ");
    push_str(&mut m, path);
    push_str(&mut m, " --head 30\npeek ");
    push_str(&mut m, path);
    push_str(&mut m, " --tail 30\n\n# Find a function, then show context\npeek ");
    push_str(&mut m, path);
    push_str(
        &mut m,
        " --grep \"fn my_fn\" --window 15\n\n# Count lines before choosing coordinates\npeek ",
    );
    push_str(&mut m, path);
    push_str(&mut m, " --count\n\n# Architecture map (signatures only, no bodies)\npeek ");
    push_str(&mut m, path);
    push_str(&mut m, " --skeleton\n\n# Full file (token-expensive \u{2014} explicit opt-in)\npeek ");
    push_str(&mut m, path);
    push_str(&mut m, " --all");
    m
}

/// The request a command line makes.
pub fn build_request(args: &Args) -> (r: Result<PeekRequest, PeekError>)
    ensures
        request_for(*args, r),
{
    if args.repo_map {
        match validate_repo_map(args) {
            Ok(()) => {},
            Err(e) => {
                return Err(e);
            },
        }
        return Ok(PeekRequest::RepoMap { root: args.file.clone() });
    }
    if args.skeleton {
        return Ok(PeekRequest::Skeleton { path: args.file.clone() });
    }
    match validate_inspection(args) {
        Ok(()) => {},
        Err(e) => {
            return Err(e);
        },
    }
    let path = args.file.clone();
    if args.count {
        return Ok(PeekRequest::Inspect(InspectRequest { path, mode: InspectMode::Count }));
    }
    if let Some(pattern) = &args.grep {
        return Ok(
            PeekRequest::Inspect(
                InspectRequest {
                    path,
                    mode: InspectMode::Grep { pattern: pattern.clone(), window: args.window },
                },
            ),
        );
    }
    if args.all {
        return Ok(PeekRequest::Inspect(InspectRequest { path, mode: InspectMode::All }));
    }
    if let Some(n) = args.head {
        return Ok(PeekRequest::Inspect(InspectRequest { path, mode: InspectMode::Head { lines: n } }));
    }
    if let Some(n) = args.tail {
        return Ok(PeekRequest::Inspect(InspectRequest { path, mode: InspectMode::Tail { lines: n } }));
    }
    if let Some(start) = args.start {
        return Ok(
            PeekRequest::Inspect(
                InspectRequest {
                    path,
                    mode: InspectMode::Range { start, end: args.end, window: args.window },
                },
            ),
        );
    }
    if args.window.is_some() {
        return Ok(
            PeekRequest::Inspect(
                InspectRequest {
                    path,
                    mode: InspectMode::Range { start: 1, end: None, window: args.window },
                },
            ),
        );
    }
    Err(PeekError::InvalidRequest(usage(args.file.as_str())))
}

/// Full-file reads are opt-in: the only request that reads a whole file
/// comes from `--all` given without any bounded-read flag, and a command line
/// that names no mode is refused instead of read in full.
pub proof fn lemma_full_read_needs_all(args: Args, r: Result<PeekRequest, PeekError>)
    requires
        request_for(args, r),
    ensures
        (r matches Ok(PeekRequest::Inspect(req)) && req.mode is All) ==> args.all && !bounded_flags(
            args,
        ),
        (!args.repo_map && !args.skeleton && !args.all && !bounded_flags(args)) ==> r is Err,
{
}

/// A repository map is never combined with an inspection: it is requested
/// only when no inspection flag is given.
pub proof fn lemma_repo_map_stands_alone(args: Args, r: Result<PeekRequest, PeekError>)
    requires
        request_for(args, r),
    ensures
        r matches Ok(PeekRequest::RepoMap { .. }) ==> args.repo_map && !args.skeleton && !args.all
            && !bounded_flags(args),
{
}

} // verus!
