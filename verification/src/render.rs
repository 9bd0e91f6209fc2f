//! Numbered line windows: the text every bounded read prints.
use vstd::prelude::*;

use crate::api::{PeekError, DEFAULT_WINDOW};
use crate::text::{decimal, pad_left, push_char, push_padded_decimal, push_str};

verus! {

/// Width of the right-aligned line-number column.
pub const NUMBER_WIDTH: usize = 6;

/// The line number `n` right-aligned in its column.
pub open spec fn number_column(n: nat) -> Seq<char> {
    pad_left(decimal(n), NUMBER_WIDTH as nat)
}

/// One printed line: `{n:>6} {text}\n`.
pub open spec fn numbered(n: nat, text: Seq<char>) -> Seq<char> {
    number_column(n) + seq![' '] + text + seq!['\n']
}

/// The lines `lo..=hi` (1-based) of `lines`, each printed with its number.
pub open spec fn numbered_range(lines: Seq<Seq<char>>, lo: int, hi: int) -> Seq<char>
    decreases hi - lo + 1,
{
    if hi < lo {
        Seq::empty()
    } else {
        numbered_range(lines, lo, hi - 1) + numbered(hi as nat, lines[hi - 1])
    }
}

/// The larger of two integers.
pub open spec fn imax(a: int, b: int) -> int {
    if a < b {
        b
    } else {
        a
    }
}

/// The smaller of two integers.
pub open spec fn imin(a: int, b: int) -> int {
    if a < b {
        a
    } else {
        b
    }
}

/// Appends `{n:>6}{sep}{text}\n`.
pub fn push_numbered_line(out: &mut String, n: usize, sep: &str, text: &str)
    ensures
        final(out)@ == old(out)@ + number_column(n as nat) + sep@ + text@ + seq!['\n'],
{
    push_padded_decimal(out, n, NUMBER_WIDTH);
    push_str(out, sep);
    push_str(out, text);
    push_char(out, '\n');
}

/// Appends `numbered(n, text)`.
pub fn push_numbered(out: &mut String, n: usize, text: &str)
    ensures
        final(out)@ == old(out)@ + numbered(n as nat, text@),
{
    let sep = " ";
    proof {
        reveal_strlit(" ");
    }
    push_numbered_line(out, n, sep, text);
}

/// The lines `lo..=hi` of `lines` printed one after another, each whatever
/// its text: line `k` as its number right-aligned in six columns, a space, the
/// text of line `k` and a newline; nothing when `hi < lo`.
pub open spec fn listed_lines(lines: Seq<Seq<char>>, lo: int, hi: int) -> Seq<char> {
    Seq::new(
        if hi < lo {
            0
        } else {
            (hi - lo + 1) as nat
        },
        |i: int| pad_left(decimal((lo + i) as nat), 6) + seq![' '] + lines[lo + i - 1] + seq!['\n'],
    ).flatten()
}

/// A numbered window holds exactly one printed line for each line `lo..=hi`,
/// in order, whatever the line's text (an empty line too).
pub proof fn lemma_window_lists_every_line(lines: Seq<Seq<char>>, lo: int, hi: int)
    ensures
        numbered_range(lines, lo, hi) == listed_lines(lines, lo, hi),
    decreases hi - lo + 1,
{
    let f = |i: int| pad_left(decimal((lo + i) as nat), 6) + seq![' '] + lines[lo + i - 1] + seq![
        '\n',
    ];
    if hi < lo {
        assert(Seq::new(0, f) =~= Seq::<Seq<char>>::empty());
    } else {
        lemma_window_lists_every_line(lines, lo, hi - 1);
        let n = (hi - lo) as nat;
        let short = if hi - 1 < lo {
            0
        } else {
            n
        };
        assert(short == n);
        assert(Seq::new(n + 1, f) =~= Seq::new(n, f).push(f(n as int)));
        Seq::new(n, f).lemma_flatten_push(f(n as int));
        assert(f(n as int) == numbered(hi as nat, lines[hi - 1]));
    }
}

/// Prints the lines `max(start, 1)..=min(end, total)` with their numbers.
pub fn render_window(lines: &Vec<String>, start: usize, end: usize, total: usize) -> (r: String)
    requires
        imin(end as int, total as int) <= lines.len(),
    ensures
        r@ == numbered_range(
            lines.deep_view(),
            imax(start as int, 1),
            imin(end as int, total as int),
        ),
        r@ == listed_lines(lines.deep_view(), imax(start as int, 1), imin(end as int, total as int)),
{
    proof {
        lemma_window_lists_every_line(
            lines.deep_view(),
            imax(start as int, 1),
            imin(end as int, total as int),
        );
    }
    let lo: usize = if start < 1 {
        1
    } else {
        start
    };
    let hi: usize = if end < total {
        end
    } else {
        total
    };
    let ghost view = lines.deep_view();
    let mut out = String::new();
    if hi < lo {
        return out;
    }
    let mut i: usize = lo - 1;
    while i < hi
        invariant
            1 <= lo <= hi <= lines.len(),
            lo - 1 <= i <= hi,
            view == lines.deep_view(),
            out@ == numbered_range(view, lo as int, i as int),
        decreases hi - i,
    {
        push_numbered(&mut out, i + 1, lines[i].as_str());
        i = i + 1;
    }
    out
}

/// Every line of the file with its number.
pub fn render_all(lines: &Vec<String>) -> (r: String)
    ensures
        r@ == numbered_range(lines.deep_view(), 1, lines.len() as int),
        r@ == listed_lines(lines.deep_view(), 1, lines.len() as int),
{
    render_window(lines, 1, lines.len(), lines.len())
}

/// How many lines a range request without an end shows from `start` on: its
/// window, or the default window.
pub open spec fn window_lines(window: Option<usize>) -> int {
    match window {
        Some(w) => w as int,
        None => DEFAULT_WINDOW as int,
    }
}

/// The last line a valid range request shows (`start - 1` when it shows none).
pub open spec fn range_end(total: int, start: int, end: Option<usize>, window: Option<usize>) -> int {
    match end {
        Some(e) => imin(e as int, total),
        None => imin(start + window_lines(window) - 1, total),
    }
}

/// A range request is answered (rather than refused).
pub open spec fn range_accepted(total: int, start: int, end: Option<usize>) -> bool {
    &&& 1 <= start <= total
    &&& end matches Some(e) ==> start <= e
}

/// What a range request is answered: the window, or the error that refuses it.
pub open spec fn requested_range_outcome(
    lines: Seq<Seq<char>>,
    total: int,
    start: usize,
    end: Option<usize>,
    window: Option<usize>,
) -> Result<Seq<char>, PeekError> {
    if start == 0 {
        Err(PeekError::StartMustBePositive)
    } else if start > total {
        Err(PeekError::StartExceedsFileLength { start, total: total as usize })
    } else if end matches Some(e) && e < start {
        Err(PeekError::EndBeforeStart { start, end: end->0 })
    } else {
        Ok(numbered_range(lines, start as int, range_end(total, start as int, end, window)))
    }
}

/// A range request whose lines exist.
pub open spec fn range_request_fits(
    line_count: int,
    total: int,
    start: int,
    end: Option<usize>,
    window: Option<usize>,
) -> bool {
    range_accepted(total, start, end) ==> range_end(total, start, end, window) <= line_count
}

/// Validates a 1-based range request and prints the window it selects.
pub fn render_requested_range(
    lines: &Vec<String>,
    total: usize,
    start: usize,
    end: Option<usize>,
    window: Option<usize>,
) -> (r: Result<String, PeekError>)
    requires
        range_request_fits(lines.len() as int, total as int, start as int, end, window),
    ensures
        match (r, requested_range_outcome(lines.deep_view(), total as int, start, end, window)) {
            (Ok(s), Ok(t)) => s@ == t,
            (Err(e), Err(f)) => e == f,
            _ => false,
        },
{
    if start == 0 {
        return Err(PeekError::StartMustBePositive);
    }
    if start > total {
        return Err(PeekError::StartExceedsFileLength { start, total });
    }
    let last = if let Some(end) = end {
        if end < start {
            return Err(PeekError::EndBeforeStart { start, end });
        }
        if end < total {
            end
        } else {
            total
        }
    } else {
        let count = match window {
            Some(w) => w,
            None => DEFAULT_WINDOW,
        };
        if count == 0 {
            start - 1
        } else if count - 1 < total - start {
            start + (count - 1)
        } else {
            total
        }
    };
    Ok(render_window(lines, start, last, total))
}

/// An accepted range request shows exactly the lines from `start` through
/// its last line, each printed with its number: with an end `e`, the last line
/// is `min(e, total)`; without one, the window's `w` lines (40 by default)
/// clipped at `total`.
pub proof fn lemma_range_shows_requested_lines(
    lines: Seq<Seq<char>>,
    total: int,
    start: usize,
    end: Option<usize>,
    window: Option<usize>,
)
    requires
        1 <= start <= total,
        end matches Some(e) ==> start <= e,
    ensures
        requested_range_outcome(lines, total, start, end, window) == Ok::<Seq<char>, PeekError>(
            listed_lines(
                lines,
                start as int,
                match end {
                    Some(e) => if e < total {
                        e as int
                    } else {
                        total
                    },
                    None => {
                        let w: int = match window {
                            Some(w) => w as int,
                            None => 40,
                        };
                        if start + w - 1 < total {
                            start + w - 1
                        } else {
                            total
                        }
                    },
                },
            ),
        ),
{
    lemma_window_lists_every_line(
        lines,
        start as int,
        range_end(total, start as int, end, window),
    );
}

/// Bounded reads stay bounded: an accepted range request shows the lines
/// from `start` on, never past the end of the file (nor past `end`); without
/// an end it shows at most its window (40 lines by default, none for a window
/// of 0), and exactly that many when the file is long enough.
pub proof fn lemma_range_is_bounded(
    total: int,
    start: int,
    end: Option<usize>,
    window: Option<usize>,
)
    requires
        range_accepted(total, start, end),
    ensures
        start - 1 <= range_end(total, start, end, window) <= total,
        end matches Some(e) ==> start <= range_end(total, start, end, window) <= e,
        end is None ==> range_end(total, start, end, window) - start + 1 <= window_lines(window),
        end is None && start + window_lines(window) - 1 <= total ==> range_end(
            total,
            start,
            end,
            window,
        ) - start + 1 == window_lines(window),
{
}

} // verus!
