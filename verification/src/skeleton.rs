//! File skeletons: structural lines kept with their numbers, bodies collapsed.
use vstd::prelude::*;

use crate::api::PeekError;
use crate::render::{numbered, push_numbered};
use crate::text::{
    chars_end_with_str, chars_eq_str, chars_of, chars_start_with_str, ends_with, leading_space_count, push_str,
    starts_with, trim, trim_chars, trim_start,
};

verus! {

/// The line prefixes that mark a Rust line as structural.
pub open spec fn rust_structural_prefixes() -> Seq<Seq<char>> {
    seq![
        "///"@,
        "//!"@,
        "#["@,
        "#!"@,
        "use "@,
        "pub use "@,
        "mod "@,
        "pub mod "@,
        "pub struct"@,
        "struct "@,
        "pub enum"@,
        "enum "@,
        "pub type"@,
        "type "@,
        "pub trait"@,
        "trait "@,
        "pub const"@,
        "const "@,
        "pub static"@,
        "static "@,
        "impl "@,
        "pub impl"@,
        "pub fn"@,
        "fn "@,
        "async fn"@,
        "pub async fn"@,
        "extern "@,
    ]
}

/// A trimmed Rust line is structural: blank, or opening with a structural prefix.
pub open spec fn is_structural_rust(trimmed: Seq<char>) -> bool {
    trimmed.len() == 0 || exists|i: int|
        0 <= i < rust_structural_prefixes().len() && starts_with(
            trimmed,
            #[trigger] rust_structural_prefixes()[i],
        )
}

/// Whether a trimmed Rust line is structural.
pub fn is_structural_rust_line(trimmed: &str) -> (r: bool)
    ensures
        r == is_structural_rust(trimmed@),
{
    let t = chars_of(trimmed);
    if t.len() == 0 {
        return true;
    }
    let prefixes: Vec<&str> = vec![
        "///",
        "//!",
        "#[",
        "#!",
        "use ",
        "pub use ",
        "mod ",
        "pub mod ",
        "pub struct",
        "struct ",
        "pub enum",
        "enum ",
        "pub type",
        "type ",
        "pub trait",
        "trait ",
        "pub const",
        "const ",
        "pub static",
        "static ",
        "impl ",
        "pub impl",
        "pub fn",
        "fn ",
        "async fn",
        "pub async fn",
        "extern ",
    ];
    let ghost spec_prefixes = rust_structural_prefixes();
    assert(prefixes@.len() == spec_prefixes.len());
    assert forall|i: int| 0 <= i < prefixes@.len() implies prefixes@[i]@ == spec_prefixes[i] by {}
    let mut i: usize = 0;
    while i < prefixes.len()
        invariant
            i <= prefixes.len(),
            t@ == trimmed@,
            spec_prefixes == rust_structural_prefixes(),
            prefixes@.len() == spec_prefixes.len(),
            forall|k: int| 0 <= k < prefixes@.len() ==> prefixes@[k]@ == spec_prefixes[k],
            forall|k: int| 0 <= k < i ==> !starts_with(t@, #[trigger] spec_prefixes[k]),
        decreases prefixes.len() - i,
    {
        if chars_start_with_str(&t, prefixes[i]) {
            return true;
        }
        i = i + 1;
    }
    false
}

/// How many times `c` occurs in `s`.
pub open spec fn char_count(s: Seq<char>, c: char) -> nat
    decreases s.len(),
{
    if s.len() == 0 {
        0
    } else {
        char_count(s.drop_last(), c) + if s.last() == c {
            1nat
        } else {
            0nat
        }
    }
}

/// The number of characters over all lines.
pub open spec fn total_chars(lines: Seq<Seq<char>>) -> nat
    decreases lines.len(),
{
    if lines.len() == 0 {
        0
    } else {
        total_chars(lines.drop_last()) + lines.last().len()
    }
}

proof fn lemma_brace_counts(s: Seq<char>)
    ensures
        char_count(s, '{') + char_count(s, '}') <= s.len(),
    decreases s.len(),
{
    if s.len() > 0 {
        lemma_brace_counts(s.drop_last());
    }
}

proof fn lemma_total_chars_prefix(lines: Seq<Seq<char>>, i: int)
    requires
        0 <= i <= lines.len(),
    ensures
        total_chars(lines.take(i)) <= total_chars(lines),
    decreases lines.len() - i,
{
    if i < lines.len() {
        lemma_total_chars_prefix(lines, i + 1);
        assert(lines.take(i + 1).drop_last() == lines.take(i));
    } else {
        assert(lines.take(i) == lines);
    }
}

/// How many times `c` occurs in `s`.
pub fn count_char(s: &Vec<char>, c: char) -> (n: usize)
    ensures
        n == char_count(s@, c),
{
    let mut n: usize = 0;
    let mut i: usize = 0;
    assert(s@.take(0) == Seq::<char>::empty());
    while i < s.len()
        invariant
            i <= s.len(),
            n == char_count(s@.take(i as int), c),
            n <= i,
        decreases s.len() - i,
    {
        assert(s@.take(i + 1).drop_last() == s@.take(i as int));
        if s[i] == c {
            n = n + 1;
        }
        i = i + 1;
    }
    assert(s@.take(s.len() as int) == s@);
    n
}

/// The marker printed in place of a collapsed Rust body.
pub open spec fn rust_body_marker() -> Seq<char> {
    "       // ...\n"@
}

/// The marker printed in place of a collapsed Python body.
pub open spec fn python_body_marker() -> Seq<char> {
    "       # ...\n"@
}

/// The line prefixes of a Rust item whose block holds further items (an
/// `impl`, a `trait`, a `mod`): its block is kept, so that the signatures
/// inside it show.
pub open spec fn rust_container_prefixes() -> Seq<Seq<char>> {
    seq![
        "impl "@,
        "impl<"@,
        "pub impl"@,
        "unsafe impl"@,
        "trait "@,
        "pub trait"@,
        "unsafe trait"@,
        "pub unsafe trait"@,
        "mod "@,
        "pub mod"@,
    ]
}

/// A trimmed Rust line opens an item whose block holds further items.
pub open spec fn opens_rust_container(trimmed: Seq<char>) -> bool {
    exists|i: int|
        0 <= i < rust_container_prefixes().len() && starts_with(
            trimmed,
            #[trigger] rust_container_prefixes()[i],
        )
}

/// Whether a trimmed Rust line opens an `impl`, `trait` or `mod` block.
pub fn is_rust_container_line(trimmed: &str) -> (r: bool)
    ensures
        r == opens_rust_container(trimmed@),
{
    let t = chars_of(trimmed);
    let prefixes: Vec<&str> = vec![
        "impl ",
        "impl<",
        "pub impl",
        "unsafe impl",
        "trait ",
        "pub trait",
        "unsafe trait",
        "pub unsafe trait",
        "mod ",
        "pub mod",
    ];
    let ghost spec_prefixes = rust_container_prefixes();
    assert(prefixes@.len() == spec_prefixes.len());
    assert forall|i: int| 0 <= i < prefixes@.len() implies prefixes@[i]@ == spec_prefixes[i] by {}
    let mut i: usize = 0;
    while i < prefixes.len()
        invariant
            i <= prefixes.len(),
            t@ == trimmed@,
            spec_prefixes == rust_container_prefixes(),
            prefixes@.len() == spec_prefixes.len(),
            forall|k: int| 0 <= k < prefixes@.len() ==> prefixes@[k]@ == spec_prefixes[k],
            forall|k: int| 0 <= k < i ==> !starts_with(t@, #[trigger] spec_prefixes[k]),
        decreases prefixes.len() - i,
    {
        if chars_start_with_str(&t, prefixes[i]) {
            return true;
        }
        i = i + 1;
    }
    false
}

/// Whether a shown Rust line opens a block that the skeleton collapses: more
/// `{` than `}`, a trailing `{`, and not an `impl`, `trait` or `mod` block.
pub open spec fn collapses_rust_block(line: Seq<char>) -> bool {
    let trimmed = trim(line);
    &&& char_count(line, '{') > char_count(line, '}')
    &&& ends_with(trimmed, seq!['{'])
    &&& !opens_rust_container(trimmed)
}

/// The state of the Rust skeleton scan after some lines: brace depth, the
/// depth at which a collapsed body ends (if inside one), and the output.
pub open spec fn rust_step(state: (int, Option<int>, Seq<char>), n: nat, line: Seq<char>) -> (
    int,
    Option<int>,
    Seq<char>,
) {
    let (depth, collapse, out) = state;
    let trimmed = trim(line);
    let next = depth + char_count(line, '{') - char_count(line, '}');
    match collapse {
        Some(until) => (next, if next <= until {
            None
        } else {
            Some(until)
        }, out),
        None => if is_structural_rust(trimmed) || depth == 0 {
            if collapses_rust_block(line) {
                (next, Some(next - 1), out + numbered(n, line) + rust_body_marker())
            } else {
                (next, None, out + numbered(n, line))
            }
        } else {
            (next, None, out)
        },
    }
}

/// The Rust skeleton scan over `lines`.
pub open spec fn rust_scan(lines: Seq<Seq<char>>) -> (int, Option<int>, Seq<char>)
    decreases lines.len(),
{
    if lines.len() == 0 {
        (0, None, Seq::empty())
    } else {
        rust_step(rust_scan(lines.drop_last()), lines.len(), lines.last())
    }
}

/// The skeleton of a Rust file: structural and top-level lines with their
/// numbers; the block a shown line opens is collapsed, except the block of an
/// `impl`, `trait` or `mod`, whose structural lines (method signatures among
/// them) stay.
pub open spec fn rust_skeleton(lines: Seq<Seq<char>>) -> Seq<char> {
    rust_scan(lines).2
}

/// Skeleton of a Rust file.
pub fn skeletonize_rust(lines: &Vec<String>) -> (r: String)
    requires
        total_chars(lines.deep_view()) <= i64::MAX,
    ensures
        r@ == rust_skeleton(lines.deep_view()),
{
    let ghost view = lines.deep_view();
    let mut depth: i64 = 0;
    let mut collapse: Option<i64> = None;
    let mut out = String::new();
    let mut i: usize = 0;
    assert(view.take(0) == Seq::<Seq<char>>::empty());
    while i < lines.len()
        invariant
            i <= lines.len(),
            view == lines.deep_view(),
            total_chars(view) <= i64::MAX,
            total_chars(view.take(i as int)) <= total_chars(view),
            rust_scan(view.take(i as int)) == (depth as int, match collapse {
                Some(c) => Some(c as int),
                None => None::<int>,
            }, out@),
            -total_chars(view.take(i as int)) <= depth <= total_chars(view.take(i as int)),
            collapse matches Some(c) ==> -total_chars(view.take(i as int)) <= c <= total_chars(
                view.take(i as int),
            ),
        decreases lines.len() - i,
    {
        let ghost before = view.take(i as int);
        proof {
            assert(view.take(i + 1).drop_last() == before);
            lemma_total_chars_prefix(view, i + 1);
            lemma_brace_counts(view[i as int]);
        }
        let line = chars_of(lines[i].as_str());
        assert(view.take(i + 1).last() == view[i as int]);
        assert(view[i as int] == line@);
        let trimmed = trim_chars(&line);
        let trimmed_text = crate::text::string_of(&trimmed);
        let structural = is_structural_rust_line(trimmed_text.as_str());
        let open = count_char(&line, '{') as i64;
        let close = count_char(&line, '}') as i64;
        let next = depth + open - close;
        match collapse {
            Some(until) => {
                depth = next;
                if depth <= until {
                    collapse = None;
                }
            },
            None => {
                if structural || depth == 0 {
                    push_numbered(&mut out, i + 1, lines[i].as_str());
                    let opens = open > close && chars_end_with_str(&trimmed, "{")
                        && !is_rust_container_line(trimmed_text.as_str());
                    proof {
                        reveal_strlit("{");
                        assert("{"@ =~= seq!['{']);
                    }
                    if opens {
                        collapse = Some(next - 1);
                        push_str(&mut out, "       // ...\n");
                    }
                }
                depth = next;
            },
        }
        i = i + 1;
    }
    assert(view.take(lines.len() as int) == view);
    out
}

/// The number of bytes in the UTF-8 encoding of `c` (`char::len_utf8`).
pub open spec fn utf8_width(c: char) -> nat {
    let u = c as u32;
    if u < 0x80 {
        1
    } else if u < 0x800 {
        2
    } else if u < 0x10000 {
        3
    } else {
        4
    }
}

/// The number of bytes in the UTF-8 encoding of `s`.
pub open spec fn utf8_len(s: Seq<char>) -> nat
    decreases s.len(),
{
    if s.len() == 0 {
        0
    } else {
        utf8_len(s.drop_last()) + utf8_width(s.last())
    }
}

/// The indentation of a line in bytes: `line.len() - line.trim_start().len()`.
pub open spec fn indent_bytes(line: Seq<char>) -> nat {
    utf8_len(line.take(line.len() - trim_start(line).len()))
}

fn char_utf8_width(c: char) -> (w: u128)
    ensures
        w == utf8_width(c),
{
    let u = c as u32;
    if u < 0x80 {
        1
    } else if u < 0x800 {
        2
    } else if u < 0x10000 {
        3
    } else {
        4
    }
}

/// The indentation of `line` in bytes.
fn indent_of(line: &Vec<char>) -> (r: u128)
    ensures
        r == indent_bytes(line@),
{
    let n = leading_space_count(line);
    let mut r: u128 = 0;
    let mut i: usize = 0;
    assert(line@.take(0) == Seq::<char>::empty());
    while i < n
        invariant
            i <= n <= line.len(),
            r == utf8_len(line@.take(i as int)),
            r <= 4 * i,
        decreases n - i,
    {
        assert(line@.take(i + 1).drop_last() == line@.take(i as int));
        r = r + char_utf8_width(line[i]);
        i = i + 1;
    }
    assert(trim_start(line@).len() == line.len() - n);
    r
}

/// Whether a trimmed Python line opens a function or method definition, whose
/// body a skeleton collapses (a `class` line keeps its body, so that the
/// signatures of its methods stay).
pub open spec fn opens_python_definition(trimmed: Seq<char>) -> bool {
    starts_with(trimmed, "def "@) || starts_with(trimmed, "async def "@)
}

/// One step of the Python skeleton scan: the indentation of the definition
/// whose body is being collapsed (if any) and the output.
pub open spec fn python_step(state: (Option<int>, Seq<char>), n: nat, line: Seq<char>) -> (
    Option<int>,
    Seq<char>,
) {
    let (collapse, out) = state;
    let trimmed = trim(line);
    let indent = indent_bytes(line) as int;
    if trimmed.len() == 0 {
        (collapse, out + numbered(n, line))
    } else if collapse matches Some(c) && indent > c {
        (collapse, out)
    } else if opens_python_definition(trimmed) && ends_with(trimmed, seq![':']) {
        (Some(indent), out + numbered(n, line) + python_body_marker())
    } else {
        (None, out + numbered(n, line))
    }
}

/// The Python skeleton scan over `lines`.
pub open spec fn python_scan(lines: Seq<Seq<char>>) -> (Option<int>, Seq<char>)
    decreases lines.len(),
{
    if lines.len() == 0 {
        (None, Seq::empty())
    } else {
        python_step(python_scan(lines.drop_last()), lines.len(), lines.last())
    }
}

/// The skeleton of a Python file: every line but those indented deeper than
/// a `def` or `async def` line that ends with `:` (class bodies are kept, so
/// method signatures show while method bodies collapse).
pub open spec fn python_skeleton(lines: Seq<Seq<char>>) -> Seq<char> {
    python_scan(lines).1
}

/// Skeleton of a Python file.
pub fn skeletonize_python(lines: &Vec<String>) -> (r: String)
    ensures
        r@ == python_skeleton(lines.deep_view()),
{
    let ghost view = lines.deep_view();
    let mut collapse: Option<u128> = None;
    let mut out = String::new();
    let mut i: usize = 0;
    assert(view.take(0) == Seq::<Seq<char>>::empty());
    while i < lines.len()
        invariant
            i <= lines.len(),
            view == lines.deep_view(),
            python_scan(view.take(i as int)) == (match collapse {
                Some(c) => Some(c as int),
                None => None::<int>,
            }, out@),
        decreases lines.len() - i,
    {
        assert(view.take(i + 1).drop_last() == view.take(i as int));
        let line = chars_of(lines[i].as_str());
        assert(view.take(i + 1).last() == view[i as int]);
        assert(view[i as int] == line@);
        let trimmed = trim_chars(&line);
        let indent = indent_of(&line);
        if trimmed.len() == 0 {
            push_numbered(&mut out, i + 1, lines[i].as_str());
        } else {
            let skip = match collapse {
                Some(c) => indent > c,
                None => false,
            };
            if !skip {
                let starts = chars_start_with_str(&trimmed, "def ") || chars_start_with_str(
                    &trimmed,
                    "async def ",
                );
                push_numbered(&mut out, i + 1, lines[i].as_str());
                let colon = chars_end_with_str(&trimmed, ":");
                proof {
                    reveal_strlit(":");
                    assert(":"@ =~= seq![':']);
                }
                if starts && colon {
                    collapse = Some(indent);
                    push_str(&mut out, "       # ...\n");
                } else {
                    collapse = None;
                }
            }
        }
        i = i + 1;
    }
    assert(view.take(lines.len() as int) == view);
    out
}

/// A Python line opens a function body: trimmed, it starts with `def ` or
/// `async def ` and ends with `:`.
pub open spec fn opens_def_body(line: Seq<char>) -> bool {
    let t = trim(line);
    (starts_with(t, "def "@) || starts_with(t, "async def "@)) && ends_with(t, seq![':'])
}

/// A line is blank: nothing but white space.
pub open spec fn is_blank(line: Seq<char>) -> bool {
    trim(line).len() == 0
}

/// Line `k` (0-based) lies in the body of a function: some earlier line `j`
/// opens a function body, and every non-blank line after `j` up to `k` is
/// indented deeper than line `j`.
pub open spec fn in_def_body(lines: Seq<Seq<char>>, k: int) -> bool {
    exists|j: int|
        0 <= j < k && #[trigger] opens_def_body(lines[j]) && forall|m: int|
            j < m <= k ==> is_blank(#[trigger] lines[m]) || indent_bytes(lines[m])
                > indent_bytes(lines[j])
}

/// What a Python skeleton shows for line `k` (0-based): nothing when the line
/// is non-blank and lies in a function body; otherwise the line with its
/// number, followed by the collapse marker when the line opens a function body.
pub open spec fn python_shown(lines: Seq<Seq<char>>, k: int) -> Seq<char> {
    if !is_blank(lines[k]) && in_def_body(lines, k) {
        Seq::empty()
    } else {
        numbered((k + 1) as nat, lines[k]) + if opens_def_body(lines[k]) {
            "       # ...\n"@
        } else {
            Seq::empty()
        }
    }
}

/// Line `j` opens a function body and every non-blank line after it, before
/// line `n`, is indented deeper.
spec fn body_open(lines: Seq<Seq<char>>, j: int, n: int) -> bool {
    &&& opens_def_body(lines[j])
    &&& forall|m: int|
        j < m < n ==> is_blank(#[trigger] lines[m]) || indent_bytes(lines[m]) > indent_bytes(
            lines[j],
        )
}

/// After `n` lines, a non-blank line indented `d` would be hidden.
spec fn hides_at(lines: Seq<Seq<char>>, n: int, d: int) -> bool {
    exists|j: int| 0 <= j < n && #[trigger] body_open(lines, j, n) && d > indent_bytes(lines[j])
}

proof fn lemma_python_scan(lines: Seq<Seq<char>>)
    ensures
        python_scan(lines).1 == Seq::new(lines.len(), |k: int| python_shown(lines, k)).flatten(),
        forall|d: int|
            #![trigger hides_at(lines, lines.len() as int, d)]
            (python_scan(lines).0 matches Some(c) && d > c) <==> hides_at(
                lines,
                lines.len() as int,
                d,
            ),
    decreases lines.len(),
{
    reveal_strlit("       # ...\n");
    let n = lines.len() as int;
    if n == 0 {
        assert(Seq::new(0, |k: int| python_shown(lines, k)) =~= Seq::<Seq<char>>::empty());
    } else {
        let p = lines.drop_last();
        let l = n - 1;
        let x = lines[l];
        lemma_python_scan(p);
        let (col, out) = python_scan(p);
        assert(python_scan(lines) == python_step(python_scan(p), n as nat, x));
        assert forall|m: int| 0 <= m < l implies #[trigger] p[m] == lines[m] by {}
        // Earlier lines are shown the same way whatever follows them.
        assert forall|k: int| 0 <= k < l implies python_shown(lines, k) == python_shown(p, k) by {
            if in_def_body(lines, k) {
                let j = choose|j: int|
                    0 <= j < k && #[trigger] opens_def_body(lines[j]) && forall|m: int|
                        j < m <= k ==> is_blank(#[trigger] lines[m]) || indent_bytes(lines[m])
                            > indent_bytes(lines[j]);
                assert(p[j] == lines[j]);
                assert forall|m: int| j < m <= k implies is_blank(#[trigger] p[m]) || indent_bytes(
                    p[m],
                ) > indent_bytes(p[j]) by {
                    assert(p[m] == lines[m]);
                }
                assert(in_def_body(p, k));
            }
            if in_def_body(p, k) {
                let j = choose|j: int|
                    0 <= j < k && #[trigger] opens_def_body(p[j]) && forall|m: int|
                        j < m <= k ==> is_blank(#[trigger] p[m]) || indent_bytes(p[m])
                            > indent_bytes(p[j]);
                assert(p[j] == lines[j]);
                assert forall|m: int| j < m <= k implies is_blank(#[trigger] lines[m])
                    || indent_bytes(lines[m]) > indent_bytes(lines[j]) by {
                    assert(p[m] == lines[m]);
                }
                assert(in_def_body(lines, k));
            }
            assert(p[k] == lines[k]);
        }
        let f = |k: int| python_shown(lines, k);
        let g = |k: int| python_shown(p, k);
        assert(Seq::new(l as nat, g) =~= Seq::new(l as nat, f));
        assert(Seq::new(n as nat, f) =~= Seq::new(l as nat, f).push(f(l)));
        Seq::new(l as nat, f).lemma_flatten_push(f(l));
        // Body-open lines before `l` stay open through `l` exactly when `x` is
        // blank or indented deeper than they are.
        assert forall|j: int| 0 <= j < l implies (body_open(lines, j, n) <==> (body_open(p, j, l) && (
        is_blank(x) || indent_bytes(x) > indent_bytes(lines[j])))) by {
            assert(p[j] == lines[j]);
            if body_open(p, j, l) && (is_blank(x) || indent_bytes(x) > indent_bytes(lines[j])) {
                assert forall|m: int| j < m < n implies is_blank(#[trigger] lines[m])
                    || indent_bytes(lines[m]) > indent_bytes(lines[j]) by {
                    if m < l {
                        assert(p[m] == lines[m]);
                    }
                }
            }
            if body_open(lines, j, n) {
                assert forall|m: int| j < m < l implies is_blank(#[trigger] p[m]) || indent_bytes(
                    p[m],
                ) > indent_bytes(p[j]) by {
                    assert(p[m] == lines[m]);
                }
                assert(is_blank(lines[l]) || indent_bytes(lines[l]) > indent_bytes(lines[j]));
            }
        }
        assert(body_open(lines, l, n) == opens_def_body(x));
        let ix = indent_bytes(x) as int;
        if is_blank(x) {
            assert(!opens_def_body(x)) by {
                if opens_def_body(x) {
                    assert(trim(x).len() >= "def "@.len());
                }
            }
            assert(!in_def_body(lines, l) || is_blank(x));
            assert forall|d: int|
                #![trigger hides_at(lines, n, d)]
                (python_scan(lines).0 matches Some(c) && d > c) <==> hides_at(lines, n, d) by {
                if hides_at(lines, n, d) {
                    let j = choose|j: int|
                        0 <= j < n && #[trigger] body_open(lines, j, n) && d > indent_bytes(
                            lines[j],
                        );
                    assert(hides_at(p, l, d));
                }
                if hides_at(p, l, d) {
                    let j = choose|j: int|
                        0 <= j < l && #[trigger] body_open(p, j, l) && d > indent_bytes(p[j]);
                    assert(body_open(lines, j, n));
                }
            }
        } else if col is Some && ix > col->0 {
            let c = col->0;
            assert(hides_at(p, l, ix));
            let j = choose|j: int| 0 <= j < l && #[trigger] body_open(p, j, l) && ix > indent_bytes(p[j]);
            assert(body_open(lines, j, n));
            assert(in_def_body(lines, l)) by {
                assert forall|m: int| j < m <= l implies is_blank(#[trigger] lines[m]) || indent_bytes(
                    lines[m],
                ) > indent_bytes(lines[j]) by {
                    if m < l {
                        assert(p[m] == lines[m]);
                    }
                }
            }
            assert forall|d: int|
                #![trigger hides_at(lines, n, d)]
                (python_scan(lines).0 matches Some(c2) && d > c2) <==> hides_at(lines, n, d) by {
                if d > c {
                    assert(hides_at(p, l, c + 1));
                    let j1 = choose|j1: int|
                        0 <= j1 < l && #[trigger] body_open(p, j1, l) && c + 1 > indent_bytes(p[j1]);
                    assert(body_open(lines, j1, n));
                }
                if hides_at(lines, n, d) {
                    let j2 = choose|j2: int|
                        0 <= j2 < n && #[trigger] body_open(lines, j2, n) && d > indent_bytes(
                            lines[j2],
                        );
                    if j2 < l {
                        assert(hides_at(p, l, d));
                    }
                }
            }
        } else {
            assert(!in_def_body(lines, l)) by {
                if in_def_body(lines, l) {
                    let j = choose|j: int|
                        0 <= j < l && #[trigger] opens_def_body(lines[j]) && forall|m: int|
                            j < m <= l ==> is_blank(#[trigger] lines[m]) || indent_bytes(lines[m])
                                > indent_bytes(lines[j]);
                    assert(p[j] == lines[j]);
                    assert forall|m: int| j < m < l implies is_blank(#[trigger] p[m])
                        || indent_bytes(p[m]) > indent_bytes(p[j]) by {
                        assert(p[m] == lines[m]);
                    }
                    assert(body_open(p, j, l));
                    assert(hides_at(p, l, ix));
                }
            }
            assert forall|d: int|
                #![trigger hides_at(lines, n, d)]
                (python_scan(lines).0 matches Some(c2) && d > c2) <==> hides_at(lines, n, d) by {
                if hides_at(lines, n, d) {
                    let j2 = choose|j2: int|
                        0 <= j2 < n && #[trigger] body_open(lines, j2, n) && d > indent_bytes(
                            lines[j2],
                        );
                    if j2 < l {
                        assert(body_open(p, j2, l));
                        assert(hides_at(p, l, ix));
                    }
                }
                if python_scan(lines).0 matches Some(c2) && d > c2 {
                    assert(body_open(lines, l, n));
                }
            }
        }
    }
}

/// A Python skeleton shows every line but the non-blank lines of function
/// bodies, each shown line once, in file order and with its own number, and a
/// collapse marker right after each shown line that opens a function body:
/// a body ends at the first non-blank line indented no deeper than its `def`.
pub proof fn lemma_python_skeleton_shows(lines: Seq<Seq<char>>)
    ensures
        python_skeleton(lines) == Seq::new(lines.len(), |k: int| python_shown(lines, k)).flatten(),
{
    lemma_python_scan(lines);
}

/// One step of the generic skeleton scan: whether a body is being skipped, and the output.
pub open spec fn generic_step(state: (bool, Seq<char>), n: nat, line: Seq<char>) -> (
    bool,
    Seq<char>,
) {
    let (in_body, out) = state;
    if trim(line).len() == 0 {
        (false, out + numbered(n, line))
    } else if starts_with(line, seq![' ']) || starts_with(line, seq!['\t']) {
        if in_body {
            (true, out)
        } else {
            (true, out + rust_body_marker())
        }
    } else {
        (false, out + numbered(n, line))
    }
}

/// The generic skeleton scan over `lines`.
pub open spec fn generic_scan(lines: Seq<Seq<char>>) -> (bool, Seq<char>)
    decreases lines.len(),
{
    if lines.len() == 0 {
        (false, Seq::empty())
    } else {
        generic_step(generic_scan(lines.drop_last()), lines.len(), lines.last())
    }
}

/// The skeleton of any other file: unindented and blank lines, each run of
/// indented lines replaced by one marker.
pub open spec fn generic_skeleton(lines: Seq<Seq<char>>) -> Seq<char> {
    generic_scan(lines).1
}

/// Skeleton of a file of no known language.
pub fn skeletonize_generic(lines: &Vec<String>) -> (r: String)
    ensures
        r@ == generic_skeleton(lines.deep_view()),
{
    let ghost view = lines.deep_view();
    let mut in_body = false;
    let mut out = String::new();
    let mut i: usize = 0;
    assert(view.take(0) == Seq::<Seq<char>>::empty());
    while i < lines.len()
        invariant
            i <= lines.len(),
            view == lines.deep_view(),
            generic_scan(view.take(i as int)) == (in_body, out@),
        decreases lines.len() - i,
    {
        assert(view.take(i + 1).drop_last() == view.take(i as int));
        let line = chars_of(lines[i].as_str());
        assert(view.take(i + 1).last() == view[i as int]);
        assert(view[i as int] == line@);
        let trimmed = trim_chars(&line);
        let space = chars_start_with_str(&line, " ");
        let tab = chars_start_with_str(&line, "\t");
        proof {
            reveal_strlit(" ");
            assert(" "@ =~= seq![' ']);
            reveal_strlit("\t");
            assert("\t"@ =~= seq!['\t']);
        }
        if trimmed.len() == 0 {
            in_body = false;
            push_numbered(&mut out, i + 1, lines[i].as_str());
        } else if space || tab {
            if !in_body {
                push_str(&mut out, "       // ...\n");
                in_body = true;
            }
        } else {
            in_body = false;
            push_numbered(&mut out, i + 1, lines[i].as_str());
        }
        i = i + 1;
    }
    assert(view.take(lines.len() as int) == view);
    out
}

/// The text made of `picks`: `Some(k)` shows line `k` with its number,
/// `None` shows the marker of a collapsed body.
pub open spec fn render_picks(lines: Seq<Seq<char>>, picks: Seq<Option<int>>, marker: Seq<char>) -> Seq<
    char,
>
    decreases picks.len(),
{
    if picks.len() == 0 {
        Seq::empty()
    } else {
        render_picks(lines, picks.drop_last(), marker) + match picks.last() {
            Some(k) => numbered(k as nat, lines[k - 1]),
            None => marker,
        }
    }
}

/// The picks name lines of a file of `n` lines, in strictly increasing order.
pub open spec fn picks_ordered(picks: Seq<Option<int>>, n: int) -> bool {
    &&& forall|i: int| 0 <= i < picks.len() && (#[trigger] picks[i]) is Some ==> 1 <= picks[i]->0 <= n
    &&& forall|i: int, j: int|
        0 <= i < j < picks.len() && (#[trigger] picks[i]) is Some && (#[trigger] picks[j]) is Some
            ==> picks[i]->0 < picks[j]->0
}

/// `out` is an excerpt of `lines`: some of its lines, each shown with its own
/// number, in file order, with markers in between.
pub open spec fn is_excerpt(out: Seq<char>, lines: Seq<Seq<char>>, marker: Seq<char>) -> bool {
    exists|picks: Seq<Option<int>>|
        picks_ordered(picks, lines.len() as int) && out == render_picks(lines, picks, marker)
}

proof fn lemma_render_picks_prefix(lines: Seq<Seq<char>>, picks: Seq<Option<int>>, marker: Seq<char>)
    requires
        lines.len() > 0,
        picks_ordered(picks, lines.len() - 1),
    ensures
        render_picks(lines, picks, marker) == render_picks(lines.drop_last(), picks, marker),
    decreases picks.len(),
{
    if picks.len() > 0 {
        lemma_render_picks_prefix(lines, picks.drop_last(), marker);
        if picks.last() is Some {
            assert(picks[picks.len() - 1] is Some);
        }
    }
}

/// Extends picks for the first `n - 1` lines by line `n` and, optionally, a marker.
proof fn lemma_extend_picks(
    lines: Seq<Seq<char>>,
    picks: Seq<Option<int>>,
    marker: Seq<char>,
    show: bool,
    mark: bool,
) -> (more: Seq<Option<int>>)
    requires
        lines.len() > 0,
        picks_ordered(picks, lines.len() - 1),
    ensures
        picks_ordered(more, lines.len() as int),
        render_picks(lines, more, marker) == render_picks(lines.drop_last(), picks, marker) + (if show {
            numbered(lines.len() as nat, lines.last())
        } else {
            Seq::empty()
        }) + (if mark {
            marker
        } else {
            Seq::empty()
        }),
{
    lemma_render_picks_prefix(lines, picks, marker);
    let n = lines.len() as int;
    let a = if show {
        picks.push(Some(n))
    } else {
        picks
    };
    assert(picks_ordered(a, n)) by {
        if show {
            assert forall|i: int, j: int|
                0 <= i < j < a.len() && (#[trigger] a[i]) is Some && (#[trigger] a[j]) is Some
                    implies a[i]->0 < a[j]->0 by {
                if j == a.len() - 1 {
                    assert(picks[i] is Some);
                } else {
                    assert(a[i] == picks[i] && a[j] == picks[j]);
                }
            }
            assert forall|i: int| 0 <= i < a.len() && (#[trigger] a[i]) is Some implies 1 <= a[i]->0
                <= n by {
                if i < picks.len() {
                    assert(a[i] == picks[i]);
                }
            }
        }
    }
    if show {
        assert(a.drop_last() == picks);
        assert(lines[n - 1] == lines.last());
    }
    assert(render_picks(lines, a, marker) == render_picks(lines.drop_last(), picks, marker) + (if show {
        numbered(lines.len() as nat, lines.last())
    } else {
        Seq::empty()
    }));
    let b = if mark {
        a.push(None)
    } else {
        a
    };
    assert(picks_ordered(b, n)) by {
        if mark {
            assert forall|i: int, j: int|
                0 <= i < j < b.len() && (#[trigger] b[i]) is Some && (#[trigger] b[j]) is Some
                    implies b[i]->0 < b[j]->0 by {
                assert(b[i] == a[i] && b[j] == a[j]);
            }
            assert forall|i: int| 0 <= i < b.len() && (#[trigger] b[i]) is Some implies 1 <= b[i]->0
                <= n by {
                assert(b[i] == a[i]);
            }
        }
    }
    if mark {
        assert(b.drop_last() == a);
    }
    b
}

proof fn rust_picks(lines: Seq<Seq<char>>) -> (picks: Seq<Option<int>>)
    ensures
        picks_ordered(picks, lines.len() as int),
        rust_skeleton(lines) == render_picks(lines, picks, rust_body_marker()),
    decreases lines.len(),
{
    if lines.len() == 0 {
        Seq::empty()
    } else {
        let before = rust_picks(lines.drop_last());
        let state = rust_scan(lines.drop_last());
        let line = lines.last();
        let trimmed = trim(line);
        let shown = state.1 is None && (is_structural_rust(trimmed) || state.0 == 0);
        let marked = shown && collapses_rust_block(line);
        lemma_extend_picks(lines, before, rust_body_marker(), shown, marked)
    }
}

proof fn python_picks(lines: Seq<Seq<char>>) -> (picks: Seq<Option<int>>)
    ensures
        picks_ordered(picks, lines.len() as int),
        python_skeleton(lines) == render_picks(lines, picks, python_body_marker()),
    decreases lines.len(),
{
    if lines.len() == 0 {
        Seq::empty()
    } else {
        let before = python_picks(lines.drop_last());
        let state = python_scan(lines.drop_last());
        let line = lines.last();
        let trimmed = trim(line);
        let hidden = trimmed.len() != 0 && (state.0 matches Some(c) && indent_bytes(line) as int
            > c);
        let marked = trimmed.len() != 0 && !hidden && opens_python_definition(trimmed)
            && ends_with(trimmed, seq![':']);
        lemma_extend_picks(lines, before, python_body_marker(), !hidden, marked)
    }
}

proof fn generic_picks(lines: Seq<Seq<char>>) -> (picks: Seq<Option<int>>)
    ensures
        picks_ordered(picks, lines.len() as int),
        generic_skeleton(lines) == render_picks(lines, picks, rust_body_marker()),
    decreases lines.len(),
{
    if lines.len() == 0 {
        Seq::empty()
    } else {
        let before = generic_picks(lines.drop_last());
        let state = generic_scan(lines.drop_last());
        let line = lines.last();
        let indented = trim(line).len() != 0 && (starts_with(line, seq![' ']) || starts_with(
            line,
            seq!['\t'],
        ));
        lemma_extend_picks(lines, before, rust_body_marker(), !indented, indented && !state.0)
    }
}

/// A skeleton never alters, reorders or invents lines: every skeleton is an
/// excerpt of its file (lines shown verbatim with their own numbers, in file
/// order), with the language's marker where a body was collapsed.
pub proof fn lemma_skeletons_are_excerpts(lines: Seq<Seq<char>>)
    ensures
        is_excerpt(rust_skeleton(lines), lines, rust_body_marker()),
        is_excerpt(python_skeleton(lines), lines, python_body_marker()),
        is_excerpt(generic_skeleton(lines), lines, rust_body_marker()),
{
    let r = rust_picks(lines);
    let p = python_picks(lines);
    let g = generic_picks(lines);
}

/// The extension of the file named by `path`, as `std::path::Path::extension`
/// finds it on the target platform (the part of the file name after its last
/// `.`, if any).
pub uninterp spec fn path_extension(path: Seq<char>) -> Option<Seq<char>>;

/// `s` in lower case, as `str::to_lowercase` maps it.
pub uninterp spec fn lowercase(s: Seq<char>) -> Seq<char>;

/// Calls `std::path::Path::extension` on `path`. Claimed: the result is
/// `path_extension(path)`; an extension of a path made from a `&str` is valid
/// UTF-8, so converting it loses nothing.
#[verifier::external_body]
fn file_extension(path: &str) -> (r: Option<String>)
    ensures
        r is None <==> path_extension(path@) is None,
        r matches Some(e) ==> path_extension(path@) == Some(e@),
{
    std::path::Path::new(path).extension().map(|ext| ext.to_string_lossy().into_owned())
}

/// Calls `str::to_lowercase`. Claimed: the result is `lowercase(s)`.
#[verifier::external_body]
fn to_lowercase(s: &str) -> (r: String)
    ensures
        r@ == lowercase(s@),
{
    s.to_lowercase()
}

/// The skeleton chosen by a lower-case file extension: Rust for `rs`,
/// Python for `py`, the generic one otherwise.
pub open spec fn skeleton_by_extension(ext: Seq<char>, lines: Seq<Seq<char>>) -> Seq<char> {
    if ext == "rs"@ {
        rust_skeleton(lines)
    } else if ext == "py"@ {
        python_skeleton(lines)
    } else {
        generic_skeleton(lines)
    }
}

/// The skeleton of the lines of a file whose lower-case extension is `ext`.
pub fn skeletonize_for_extension(ext: &str, lines: &Vec<String>) -> (r: String)
    requires
        total_chars(lines.deep_view()) <= i64::MAX,
    ensures
        r@ == skeleton_by_extension(ext@, lines.deep_view()),
{
    let e = chars_of(ext);
    if chars_eq_str(&e, "rs") {
        skeletonize_rust(lines)
    } else if chars_eq_str(&e, "py") {
        skeletonize_python(lines)
    } else {
        skeletonize_generic(lines)
    }
}

/// The skeleton of the file at `path`, chosen by its extension in lower case.
pub fn skeletonize(path: &str, lines: &Vec<String>) -> (r: Result<String, PeekError>)
    requires
        total_chars(lines.deep_view()) <= i64::MAX,
    ensures
        r matches Ok(s) && s@ == skeleton_by_extension(
            lowercase(
                match path_extension(path@) {
                    Some(e) => e,
                    None => Seq::empty(),
                },
            ),
            lines.deep_view(),
        ),
{
    let ext = match file_extension(path) {
        Some(e) => e,
        None => String::new(),
    };
    let lower = to_lowercase(ext.as_str());
    Ok(skeletonize_for_extension(lower.as_str(), lines))
}

} // verus!
