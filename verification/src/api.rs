//! Requests, responses and errors shared by every transport.
use vstd::prelude::*;

verus! {

/// Lines shown by a range request that gives neither an end nor a window.
pub const DEFAULT_WINDOW: usize = 40;

/// File name of the generated repository map.
pub const REPO_MAP_FILE: &'static str = "repo_map.toon";

/// `std::io::Error`, carried opaquely inside [`PeekError`].
#[verifier::external_type_specification]
#[verifier::external_body]
pub struct ExIoError(std::io::Error);

/// `regex::Error`, carried opaquely inside [`PeekError`].
#[verifier::external_type_specification]
#[verifier::external_body]
pub struct ExRegexError(regex::Error);

/// Text for standard output and standard error.
#[derive(Debug, Clone, PartialEq, Eq)]
pub struct PeekResponse {
    pub stdout: String,
    pub stderr: String,
}

impl View for PeekResponse {
    type V = (Seq<char>, Seq<char>);

    open spec fn view(&self) -> (Seq<char>, Seq<char>) {
        (self.stdout@, self.stderr@)
    }
}

impl PeekResponse {
    /// A response with `stdout` and nothing on standard error.
    pub fn stdout(stdout: String) -> (r: Self)
        ensures
            r@ == (stdout@, Seq::<char>::empty()),
    {
        PeekResponse { stdout, stderr: String::new() }
    }

    /// A response with `stderr` and nothing on standard output.
    pub fn stderr(stderr: String) -> (r: Self)
        ensures
            r@ == (Seq::<char>::empty(), stderr@),
    {
        PeekResponse { stdout: String::new(), stderr }
    }
}

/// A bounded read of one file.
#[derive(Debug, Clone, PartialEq, Eq)]
pub struct InspectRequest {
    pub path: String,
    pub mode: InspectMode,
}

/// Which part of a file to read.
#[derive(Debug, Clone, PartialEq, Eq)]
pub enum InspectMode {
    Count,
    Grep { pattern: String, window: Option<usize> },
    All,
    Head { lines: usize },
    Tail { lines: usize },
    Range { start: usize, end: Option<usize>, window: Option<usize> },
}

/// Any operation of the tool.
#[derive(Debug, Clone, PartialEq, Eq)]
pub enum PeekRequest {
    Inspect(InspectRequest),
    Skeleton { path: String },
    RepoMap { root: String },
}

/// Why an operation failed.
#[allow(inconsistent_fields)]
#[derive(Debug)]
pub enum PeekError {
    InvalidRequest(String),
    CannotOpen { path: String, source: std::io::Error },
    CannotRead { path: String, source: std::io::Error },
    CannotResolve { path: String, source: std::io::Error },
    CannotCreateDir { path: String, source: std::io::Error },
    CannotWrite { path: String, source: std::io::Error },
    InvalidRegex { pattern: String, source: regex::Error },
    UnsupportedFileTarget { path: String },
    StartMustBePositive,
    StartExceedsFileLength { start: usize, total: usize },
    EndBeforeStart { start: usize, end: usize },
    RepoMapEncode(String),
}

} // verus!
