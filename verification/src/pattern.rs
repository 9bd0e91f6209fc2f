//! Line patterns: regular expressions compiled by the `regex` crate.
use vstd::prelude::*;

verus! {

/// `regex::Regex`, held opaquely inside [`LinePattern`].
#[verifier::external_type_specification]
#[verifier::external_body]
pub struct ExRegex(regex::Regex);

/// Whether `regex::Regex::new` accepts `pattern` (it rejects invalid syntax
/// and patterns that exceed the default size limit).
pub uninterp spec fn regex_compiles(pattern: Seq<char>) -> bool;

/// Whether the regex compiled from `pattern` matches somewhere in `haystack`
/// (`regex::Regex::is_match`).
pub uninterp spec fn regex_is_match(pattern: Seq<char>, haystack: Seq<char>) -> bool;

/// The text of `s` as `format!("{:?}", s)` renders it: quoted, with escapes.
pub uninterp spec fn debug_quoted(s: Seq<char>) -> Seq<char>;

/// A compiled regular expression together with the pattern it was compiled
/// from; only [`compile_pattern`] builds one.
pub struct LinePattern {
    source: String,
    regex: regex::Regex,
}

impl LinePattern {
    /// The pattern this expression was compiled from.
    pub closed spec fn pattern(&self) -> Seq<char> {
        self.source@
    }
}

/// Calls `regex::Regex::new(pattern)`. Claimed: the call succeeds exactly when
/// `regex_compiles(pattern)`, and a success remembers `pattern`; the error is
/// passed on unchanged and nothing is claimed of it.
#[verifier::external_body]
pub(crate) fn compile_pattern(pattern: &str) -> (r: Result<LinePattern, regex::Error>)
    ensures
        r is Ok <==> regex_compiles(pattern@),
        r matches Ok(p) ==> p.pattern() == pattern@,
{
    match regex::Regex::new(pattern) {
        Ok(regex) => Ok(LinePattern { source: pattern.to_string(), regex }),
        Err(error) => Err(error),
    }
}

/// Calls `regex::Regex::is_match(line)` on the compiled expression. Claimed:
/// the answer is `regex_is_match` of the pattern it was compiled from and the
/// line; the regex crate compiles a pattern deterministically.
#[verifier::external_body]
pub(crate) fn pattern_matches(p: &LinePattern, line: &str) -> (r: bool)
    ensures
        r == regex_is_match(p.pattern(), line@),
{
    p.regex.is_match(line)
}

/// Renders `s` with `format!("{:?}", s)` (std's `Debug` for `str`). Claimed:
/// the result is `debug_quoted(s)`, a function of `s` alone.
#[verifier::external_body]
pub(crate) fn debug_quote(s: &str) -> (r: String)
    ensures
        r@ == debug_quoted(s@),
{
    format!("{:?}", s)
}

} // verus!
