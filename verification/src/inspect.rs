//! Bounded inspection of a file's lines: count, grep, head, tail, ranges.
use vstd::prelude::*;

use crate::api::{InspectMode, PeekError, PeekResponse};
use crate::pattern::{
    compile_pattern, debug_quote, debug_quoted, pattern_matches, regex_compiles, regex_is_match,
};
use crate::render::{
    imax, imin, number_column, numbered_range, push_numbered_line, range_request_fits,
    render_all, render_requested_range, render_window, requested_range_outcome,
};
use crate::text::{decimal, pad_left, push_char, push_decimal, push_str};

verus! {

/// One grep hit: `{n:>6} | {text}\n`.
pub open spec fn grep_entry(n: nat, text: Seq<char>) -> Seq<char> {
    number_column(n) + seq![' ', '|', ' '] + text + seq!['\n']
}

/// The grep hits for the line numbers `hits`, in that order.
pub open spec fn grep_listing(lines: Seq<Seq<char>>, hits: Seq<usize>) -> Seq<char>
    decreases hits.len(),
{
    if hits.len() == 0 {
        Seq::empty()
    } else {
        grep_listing(lines, hits.drop_last()) + grep_entry(
            hits.last() as nat,
            lines[hits.last() - 1],
        )
    }
}

/// The 1-based numbers of the lines that `pattern` matches, ascending.
pub open spec fn match_numbers(pattern: Seq<char>, lines: Seq<Seq<char>>) -> Seq<usize>
    decreases lines.len(),
{
    if lines.len() == 0 {
        Seq::empty()
    } else {
        let earlier = match_numbers(pattern, lines.drop_last());
        if regex_is_match(pattern, lines.last()) {
            earlier.push(lines.len() as usize)
        } else {
            earlier
        }
    }
}

/// Grep reports exactly the lines that match, each once, in ascending
/// order, numbered from 1 (for as many lines as a vector can hold).
pub proof fn lemma_match_numbers(pattern: Seq<char>, lines: Seq<Seq<char>>)
    requires
        lines.len() <= usize::MAX,
    ensures
        forall|i: int|
            0 <= i < match_numbers(pattern, lines).len() ==> {
                let k = #[trigger] match_numbers(pattern, lines)[i];
                &&& 1 <= k <= lines.len()
                &&& regex_is_match(pattern, lines[k - 1])
            },
        forall|i: int, j: int|
            0 <= i < j < match_numbers(pattern, lines).len() ==> #[trigger] match_numbers(
                pattern,
                lines,
            )[i] < #[trigger] match_numbers(pattern, lines)[j],
        forall|k: int|
            1 <= k <= lines.len() && regex_is_match(pattern, #[trigger] lines[k - 1]) ==> exists|
                i: int,
            |
                0 <= i < match_numbers(pattern, lines).len() && #[trigger] match_numbers(
                    pattern,
                    lines,
                )[i] == k,
    decreases lines.len(),
{
    if lines.len() > 0 {
        let rest = lines.drop_last();
        lemma_match_numbers(pattern, rest);
        let earlier = match_numbers(pattern, rest);
        let m = match_numbers(pattern, lines);
        assert forall|i: int| 0 <= i < earlier.len() implies earlier[i] <= rest.len() && lines[
            earlier[i] - 1] == rest[earlier[i] - 1] by {}
        assert forall|k: int|
            1 <= k <= lines.len() && regex_is_match(pattern, #[trigger] lines[k - 1]) implies exists|
            i: int,
        | 0 <= i < m.len() && #[trigger] m[i] == k by {
            if k < lines.len() {
                assert(rest[k - 1] == lines[k - 1]);
                let i = choose|i: int| 0 <= i < earlier.len() && #[trigger] earlier[i] == k;
                assert(m[i] == k);
            } else {
                assert(m[m.len() - 1] == k);
            }
        }
    }
}

/// The message printed on standard error when nothing matches.
pub open spec fn no_match_message(quoted_pattern: Seq<char>, path: Seq<char>) -> Seq<char> {
    "peek: no match for "@ + quoted_pattern + " in "@ + path + seq!['\n']
}

/// What a grep prints, given the matching line numbers `hits`: nothing but a
/// notice on standard error when there are none; with a window, the lines
/// around the first hit; otherwise every hit.
pub open spec fn grep_outcome(
    path: Seq<char>,
    quoted_pattern: Seq<char>,
    lines: Seq<Seq<char>>,
    hits: Seq<usize>,
    window: Option<usize>,
) -> (Seq<char>, Seq<char>) {
    if hits.len() == 0 {
        (Seq::empty(), no_match_message(quoted_pattern, path))
    } else if window is Some {
        let half = (window->0 / 2) as int;
        let first = hits[0] as int;
        (
            numbered_range(lines, imax(first - half, 1), imin(first + half, lines.len() as int)),
            Seq::empty(),
        )
    } else {
        (grep_listing(lines, hits), Seq::empty())
    }
}

/// Without a window, a grep that finds matches prints one entry per hit and
/// nothing else, all of them in the order given: hit `n` as its number
/// right-aligned in six columns, ` | `, the text of line `n` and a newline;
/// nothing goes to standard error. With `lemma_match_numbers`, the hits are
/// exactly the matching lines, ascending.
pub proof fn lemma_grep_lists_every_hit(
    path: Seq<char>,
    quoted_pattern: Seq<char>,
    lines: Seq<Seq<char>>,
    hits: Seq<usize>,
)
    requires
        hits.len() > 0,
    ensures
        grep_outcome(path, quoted_pattern, lines, hits, None) == (
            Seq::new(
                hits.len(),
                |i: int|
                    pad_left(decimal(hits[i] as nat), 6) + seq![' ', '|', ' '] + lines[hits[i] - 1]
                        + seq!['\n'],
            ).flatten(),
            Seq::<char>::empty(),
        ),
{
    lemma_grep_listing_flat(lines, hits);
}

proof fn lemma_grep_listing_flat(lines: Seq<Seq<char>>, hits: Seq<usize>)
    ensures
        grep_listing(lines, hits) == Seq::new(
            hits.len(),
            |i: int|
                pad_left(decimal(hits[i] as nat), 6) + seq![' ', '|', ' '] + lines[hits[i] - 1]
                    + seq!['\n'],
        ).flatten(),
    decreases hits.len(),
{
    let f = |i: int|
        pad_left(decimal(hits[i] as nat), 6) + seq![' ', '|', ' '] + lines[hits[i] - 1] + seq![
            '\n',
        ];
    if hits.len() == 0 {
        assert(Seq::new(0, f) =~= Seq::<Seq<char>>::empty());
    } else {
        let rest = hits.drop_last();
        lemma_grep_listing_flat(lines, rest);
        let g = |i: int|
            pad_left(decimal(rest[i] as nat), 6) + seq![' ', '|', ' '] + lines[rest[i] - 1] + seq![
                '\n',
            ];
        let n = rest.len();
        assert(Seq::new(n, g) =~= Seq::new(n, f));
        assert(Seq::new(n + 1, f) =~= Seq::new(n, f).push(f(n as int)));
        Seq::new(n, f).lemma_flatten_push(f(n as int));
    }
}

/// Renders the answer to a grep whose matching line numbers are `hits`.
pub fn grep_response(
    path: &str,
    quoted_pattern: &str,
    lines: &Vec<String>,
    hits: &Vec<usize>,
    window: Option<usize>,
) -> (r: PeekResponse)
    requires
        forall|i: int| 0 <= i < hits.len() ==> 1 <= #[trigger] hits@[i] <= lines.len(),
        hits.len() > 0 ==> (window matches Some(w) ==> hits@[0] + w / 2 <= usize::MAX),
    ensures
        r@ == grep_outcome(path@, quoted_pattern@, lines.deep_view(), hits@, window),
{
    let total = lines.len();
    if hits.len() == 0 {
        let mut msg = String::new();
        push_str(&mut msg, "peek: no match for ");
        push_str(&mut msg, quoted_pattern);
        push_str(&mut msg, " in ");
        push_str(&mut msg, path);
        push_char(&mut msg, '\n');
        return PeekResponse::stderr(msg);
    }
    if let Some(width) = window {
        let first = hits[0];
        let half = width / 2;
        let start = if first > half {
            first - half
        } else {
            1
        };
        let end = if first + half < total {
            first + half
        } else {
            total
        };
        return PeekResponse::stdout(render_window(lines, start, end, total));
    }
    let ghost view = lines.deep_view();
    let mut out = String::new();
    let mut k: usize = 0;
    while k < hits.len()
        invariant
            k <= hits.len(),
            view == lines.deep_view(),
            forall|i: int| 0 <= i < hits.len() ==> 1 <= #[trigger] hits@[i] <= lines.len(),
            out@ == grep_listing(view, hits@.take(k as int)),
        decreases hits.len() - k,
    {
        let n = hits[k];
        let sep = " | ";
        proof {
            reveal_strlit(" | ");
        }
        push_numbered_line(&mut out, n, sep, lines[n - 1].as_str());
        k = k + 1;
        assert(hits@.take(k as int).drop_last() == hits@.take((k - 1) as int));
    }
    assert(hits@.take(hits.len() as int) == hits@);
    PeekResponse::stdout(out)
}

/// Searches `lines` for the regular expression `pattern`.
pub fn grep_lines(path: &str, lines: &Vec<String>, pattern: &str, window: Option<usize>) -> (r:
    Result<PeekResponse, PeekError>)
    requires
        window matches Some(w) ==> lines.len() + w / 2 <= usize::MAX,
    ensures
        r is Err <==> !regex_compiles(pattern@),
        r matches Err(e) ==> (e matches PeekError::InvalidRegex { pattern: p, .. } && p@
            == pattern@),
        r matches Ok(resp) ==> resp@ == grep_outcome(
            path@,
            debug_quoted(pattern@),
            lines.deep_view(),
            match_numbers(pattern@, lines.deep_view()),
            window,
        ),
{
    let compiled = match compile_pattern(pattern) {
        Ok(p) => p,
        Err(source) => {
            let mut text = String::new();
            push_str(&mut text, pattern);
            return Err(PeekError::InvalidRegex { pattern: text, source });
        },
    };
    let ghost view = lines.deep_view();
    let mut hits: Vec<usize> = Vec::new();
    let mut i: usize = 0;
    assert(view.take(0) == Seq::<Seq<char>>::empty());
    while i < lines.len()
        invariant
            i <= lines.len(),
            view == lines.deep_view(),
            compiled.pattern() == pattern@,
            hits@ == match_numbers(pattern@, view.take(i as int)),
            forall|j: int| 0 <= j < hits.len() ==> 1 <= #[trigger] hits@[j] <= i,
        decreases lines.len() - i,
    {
        let ghost before = view.take(i as int);
        if pattern_matches(&compiled, lines[i].as_str()) {
            hits.push(i + 1);
        }
        i = i + 1;
        assert(view.take(i as int).drop_last() == before);
    }
    assert(view.take(lines.len() as int) == view);
    let quoted = debug_quote(pattern);
    Ok(grep_response(path, quoted.as_str(), lines, &hits, window))
}

/// The arithmetic of a request stays within `usize`, and the lines it shows exist.
pub open spec fn inspect_fits(line_count: int, mode: InspectMode) -> bool {
    match mode {
        InspectMode::Grep { window, .. } => window matches Some(w) ==> line_count + w / 2
            <= usize::MAX,
        InspectMode::Tail { lines } => line_count - lines < usize::MAX,
        InspectMode::Range { start, end, window } => range_request_fits(
            line_count,
            line_count,
            start as int,
            end,
            window,
        ),
        _ => true,
    }
}

/// Answers an inspection request over the lines of the file at `path`.
pub fn inspect_lines(path: &str, lines: &Vec<String>, mode: &InspectMode) -> (r: Result<
    PeekResponse,
    PeekError,
>)
    requires
        inspect_fits(lines.len() as int, *mode),
    ensures
        ({
            let view = lines.deep_view();
            let total = lines.len() as int;
            match *mode {
                InspectMode::Count => r matches Ok(resp) && resp@ == (
                    decimal(total as nat).push('\n'),
                    Seq::<char>::empty(),
                ),
                InspectMode::All => r matches Ok(resp) && resp@ == (
                    numbered_range(view, 1, total),
                    Seq::<char>::empty(),
                ),
                InspectMode::Head { lines: count } => r matches Ok(resp) && resp@ == (
                    numbered_range(view, 1, imin(count as int, total)),
                    Seq::<char>::empty(),
                ),
                InspectMode::Tail { lines: count } => r matches Ok(resp) && resp@ == (
                    numbered_range(view, imax(total - count, 0) + 1, total),
                    Seq::<char>::empty(),
                ),
                InspectMode::Range { start, end, window } => match (
                    r,
                    requested_range_outcome(view, total, start, end, window),
                ) {
                    (Ok(resp), Ok(t)) => resp@ == (t, Seq::<char>::empty()),
                    (Err(e), Err(f)) => e == f,
                    _ => false,
                },
                InspectMode::Grep { pattern, window } => {
                    &&& r is Err <==> !regex_compiles(pattern@)
                    &&& r matches Err(e) ==> (e matches PeekError::InvalidRegex {
                        pattern: p,
                        ..
                    } && p@ == pattern@)
                    &&& r matches Ok(resp) ==> resp@ == grep_outcome(
                        path@,
                        debug_quoted(pattern@),
                        view,
                        match_numbers(pattern@, view),
                        window,
                    )
                },
            }
        }),
{
    let total = lines.len();
    match mode {
        InspectMode::Count => {
            let mut out = String::new();
            push_decimal(&mut out, total);
            push_char(&mut out, '\n');
            Ok(PeekResponse::stdout(out))
        },
        InspectMode::Grep { pattern, window } => grep_lines(path, lines, pattern.as_str(), *window),
        InspectMode::All => Ok(PeekResponse::stdout(render_all(lines))),
        InspectMode::Head { lines: count } => {
            let end = if *count < total {
                *count
            } else {
                total
            };
            Ok(PeekResponse::stdout(render_window(lines, 1, end, total)))
        },
        InspectMode::Tail { lines: count } => {
            let start = if total > *count {
                total - *count
            } else {
                0
            } + 1;
            Ok(PeekResponse::stdout(render_window(lines, start, total, total)))
        },
        InspectMode::Range { start, end, window } => {
            match render_requested_range(lines, total, *start, *end, *window) {
                Ok(text) => Ok(PeekResponse::stdout(text)),
                Err(e) => Err(e),
            }
        },
    }
}

} // verus!
