//! The text around the cursor that a prompt shows.

use vstd::prelude::*;

use crate::rows;
use crate::text;

verus! {

/// The number of bytes before the cursor that are shown where there is no excerpt around it.
pub const FALLBACK_BYTES: usize = 1024;

/// The rows shown around `cursor_row` in a text whose last row is `last_row`: all of them where
/// there are no more than `window_lines`, and otherwise `window_lines` rows with the cursor's half
/// way down, moved as far as needed to stay within the text. No row number goes past `u32::MAX`.
pub open spec fn window_rows(last_row: int, cursor_row: int, window_lines: int) -> (int, int) {
    let total = if last_row < u32::MAX {
        last_row + 1
    } else {
        u32::MAX as int
    };
    if total > window_lines {
        let centred = if cursor_row > window_lines / 2 {
            cursor_row - window_lines / 2
        } else {
            0
        };
        let start = if centred > total - window_lines {
            total - window_lines
        } else {
            centred
        };
        let end = if window_lines > 0 {
            start + window_lines - 1
        } else {
            start
        };
        (start, end)
    } else {
        (0, last_row)
    }
}

/// Where the window starts, in characters, and never behind the cursor.
pub open spec fn window_start(s: Seq<char>, at: int, window_lines: int) -> int {
    let rows = rows::lines(s);
    let shown = window_rows(rows.len() - 1, rows::row_of(s, at), window_lines);
    let from = rows::row_start(rows, shown.0);
    if from < at {
        from
    } else {
        at
    }
}

/// Where the window ends, in characters, and never before the cursor: where the row below it
/// starts, or at the end of the text.
pub open spec fn window_end(s: Seq<char>, at: int, window_lines: int) -> int {
    let rows = rows::lines(s);
    let shown = window_rows(rows.len() - 1, rows::row_of(s, at), window_lines);
    let to = if shown.1 < rows.len() - 1 {
        rows::row_start(rows, shown.1 + 1)
    } else {
        s.len() as int
    };
    if to > at {
        to
    } else {
        at
    }
}

/// What the window shows before the cursor at `at`.
pub open spec fn window_prefix(s: Seq<char>, at: int, window_lines: int) -> Seq<char> {
    s.subrange(window_start(s, at, window_lines), at)
}

/// What the window shows behind the cursor at `at`.
pub open spec fn window_suffix(s: Seq<char>, at: int, window_lines: int) -> Seq<char> {
    s.subrange(at, window_end(s, at, window_lines))
}

/// The window holds the cursor's row and lies within the text, unless the cursor's row is the last
/// there can be and the window is smaller than that.
pub proof fn lemma_window_holds_cursor(last_row: int, cursor_row: int, window_lines: int)
    requires
        0 <= cursor_row <= last_row <= u32::MAX,
        0 <= window_lines,
        cursor_row < u32::MAX || u32::MAX <= window_lines,
    ensures
        ({
            let shown = window_rows(last_row, cursor_row, window_lines);
            0 <= shown.0 <= cursor_row <= shown.1 <= last_row
        }),
{
}

/// A window on a longer text shows exactly as many rows as asked for, with the cursor's row half
/// way down unless the window lies at the top or at the bottom of the text.
pub proof fn lemma_window_centred(last_row: int, cursor_row: int, window_lines: int)
    requires
        0 <= cursor_row <= last_row <= u32::MAX,
        0 < window_lines <= last_row,
        last_row < u32::MAX || cursor_row - window_lines / 2 + window_lines <= last_row,
        window_lines < u32::MAX,
    ensures
        ({
            let shown = window_rows(last_row, cursor_row, window_lines);
            &&& shown.1 - shown.0 + 1 == window_lines
            &&& cursor_row - shown.0 == window_lines / 2 || shown.0 == 0 || shown.1 == last_row
        }),
{
}

/// A text of no more rows than asked for is shown whole.
pub proof fn lemma_window_whole(last_row: int, cursor_row: int, window_lines: int)
    requires
        0 <= cursor_row <= last_row,
        last_row < window_lines,
    ensures
        window_rows(last_row, cursor_row, window_lines) == (0int, last_row),
{
}

/// The cursor lies on its row: not before the row's start, nor past the newline behind it.
pub proof fn lemma_row_of(s: Seq<char>, at: int)
    requires
        0 <= at <= s.len(),
    ensures
        0 <= rows::row_of(s, at) < rows::lines(s).len(),
        0 <= rows::row_start(rows::lines(s), rows::row_of(s, at)) <= at,
        rows::row_of(s, at) + 1 < rows::lines(s).len() ==> at < rows::row_start(
            rows::lines(s),
            rows::row_of(s, at) + 1,
        ),
{
    let t = s.take(at);
    let r = rows::row_of(s, at);
    let all = rows::lines(s);
    let above = rows::lines(t);
    rows::lemma_lines(t);
    rows::lemma_lines(s);
    lemma_lines_of_beginning(s, at);
    rows::lemma_row_start_agrees(all, above, r);
    assert(rows::row_stands(t, above, r));
    assert(rows::row_stands(s, all, r));
}

/// The rows of a beginning of a text are those of the text, but for the last of them, which the
/// text may go on.
proof fn lemma_lines_of_beginning(s: Seq<char>, at: int)
    requires
        0 <= at <= s.len(),
    ensures
        ({
            let all = rows::lines(s);
            let above = rows::lines(s.take(at));
            &&& 1 <= above.len() <= all.len()
            &&& forall|i: int| 0 <= i < above.len() - 1 ==> #[trigger] all[i] == above[i]
            &&& above.last().len() <= all[above.len() - 1].len()
        }),
    decreases s.len(),
{
    rows::lemma_lines(s.take(at));
    if at < s.len() {
        let t = s.drop_last();
        lemma_lines_of_beginning(t, at);
        assert(t.take(at) == s.take(at));
        rows::lemma_lines(t);
    } else {
        assert(s.take(at) == s);
    }
}

/// What the window shows before and behind the cursor is, together, the text of its rows: each
/// with its newline, but for the last row of the text, which has none.
pub proof fn lemma_window_is_rows(s: Seq<char>, at: int, window_lines: int)
    requires
        0 <= at <= s.len(),
        rows::lines(s).len() <= u32::MAX + 1,
        0 <= window_lines,
        rows::row_of(s, at) < u32::MAX || u32::MAX <= window_lines,
    ensures
        ({
            let all = rows::lines(s);
            let last = all.len() - 1;
            let shown = window_rows(last, rows::row_of(s, at), window_lines);
            window_prefix(s, at, window_lines) + window_suffix(s, at, window_lines) == if shown.1
                < last {
                rows::rows_text(all, shown.0, shown.1 + 1)
            } else {
                rows::rows_text(all, shown.0, last) + all.last()
            }
        }),
{
    let all = rows::lines(s);
    let last = all.len() - 1;
    let shown = window_rows(last, rows::row_of(s, at), window_lines);
    let from = window_start(s, at, window_lines);
    let to = window_end(s, at, window_lines);
    let r = rows::row_of(s, at);
    rows::lemma_lines(s);
    lemma_row_of(s, at);
    lemma_window_holds_cursor(last, r, window_lines);
    rows::lemma_row_start_increases(all, shown.0, r);
    if shown.1 < last {
        rows::lemma_row_start_increases(all, r + 1, shown.1 + 1);
        assert(rows::row_stands(s, all, shown.1 + 1));
    }
    assert(rows::row_stands(s, all, shown.0));
    assert(s.subrange(from, at) + s.subrange(at, to) =~= s.subrange(from, to));
    if shown.1 < last {
        rows::lemma_rows_text_is_subrange(s, shown.0, shown.1 + 1);
    } else {
        rows::lemma_rows_text_is_subrange(s, shown.0, last);
        assert(rows::row_stands(s, all, last));
        let mid = rows::row_start(all, last);
        assert(s.subrange(from, mid) + s.subrange(mid, to) =~= s.subrange(from, to));
    }
}

/// The rows shown around `cursor_row`.
fn rows_around(last_row: u32, cursor_row: u32, window_lines: u32) -> (shown: (u32, u32))
    requires
        cursor_row <= last_row,
    ensures
        (shown.0 as int, shown.1 as int) == window_rows(
            last_row as int,
            cursor_row as int,
            window_lines as int,
        ),
{
    let total_rows = last_row.saturating_add(1);
    if total_rows > window_lines {
        let max_start = total_rows.saturating_sub(window_lines);
        let centred = cursor_row.saturating_sub(window_lines / 2);
        let start = if centred > max_start {
            max_start
        } else {
            centred
        };
        let end = start.saturating_add(window_lines.saturating_sub(1));
        (start, end)
    } else {
        (0, last_row)
    }
}

/// Splits the window around the cursor at `at` into what stands before and behind the cursor.
pub fn split_window(chars: &Vec<char>, at: usize, window_lines: u32) -> (r: (String, String))
    requires
        at <= chars.len(),
        rows::lines(chars@).len() <= u32::MAX + 1,
    ensures
        r.0@ == window_prefix(chars@, at as int, window_lines as int),
        r.1@ == window_suffix(chars@, at as int, window_lines as int),
{
    proof {
        rows::lemma_lines(chars@);
        lemma_row_of(chars@, at as int);
    }
    let starts = rows::row_starts(chars);
    let last_row = (starts.len() - 1) as u32;
    let cursor_row = rows::row_at(chars, at) as u32;
    let (start_row, end_row) = rows_around(last_row, cursor_row, window_lines);
    let window_start = starts[start_row as usize];
    let window_end = if end_row < last_row {
        starts[end_row as usize + 1]
    } else {
        chars.len()
    };
    let from = if window_start < at {
        window_start
    } else {
        at
    };
    let to = if window_end > at {
        window_end
    } else {
        at
    };
    (text::substring(chars, from, at), text::substring(chars, at, to))
}

/// The last [`FALLBACK_BYTES`] bytes before the cursor at byte `offset`.
pub open spec fn fallback_prefix(s: Seq<char>, offset: int) -> Seq<char> {
    let from = if offset > FALLBACK_BYTES {
        offset - FALLBACK_BYTES
    } else {
        0
    };
    s.subrange(text::char_index(s, from), text::char_index(s, offset))
}

/// The bytes shown before the cursor at byte `offset` start and end between characters.
pub open spec fn fallback_fits(s: Seq<char>, offset: int) -> bool {
    let from = if offset > FALLBACK_BYTES {
        offset - FALLBACK_BYTES
    } else {
        0
    };
    text::is_boundary(s, from) && text::is_boundary(s, offset)
}

/// Takes the last [`FALLBACK_BYTES`] bytes before the cursor.
pub fn take_fallback(chars: &Vec<char>, offset: usize) -> (r: String)
    requires
        fallback_fits(chars@, offset as int),
    ensures
        r@ == fallback_prefix(chars@, offset as int),
{
    let start = offset.saturating_sub(FALLBACK_BYTES);
    let from = text::char_index_of(chars, start);
    let to = text::char_index_of(chars, offset);
    proof {
        text::lemma_char_index_monotone(chars@, start as int, offset as int);
    }
    text::substring(chars, from, to)
}

/// The window follows the cursor: it has as many rows as asked for, at least one, and only where
/// it lies at the top does it show fewer rows above the cursor than half of them, and only where it
/// lies at the bottom more.
pub proof fn lemma_window_follows_cursor(last_row: int, cursor_row: int, window_lines: int)
    requires
        0 <= cursor_row <= last_row < u32::MAX,
        0 <= window_lines <= last_row,
    ensures
        ({
            let shown = window_rows(last_row, cursor_row, window_lines);
            let above = cursor_row - shown.0;
            &&& 0 <= shown.0 <= cursor_row <= shown.1 <= last_row
            &&& shown.1 - shown.0 + 1 == vstd::math::max(window_lines, 1)
            &&& above < window_lines / 2 ==> shown.0 == 0
            &&& above > window_lines / 2 ==> shown.1 == last_row
        }),
{
}

/// What a window shows, by the text alone. It ends with the text before the cursor and starts with
/// the text behind it; it starts at the start of a row and ends behind a newline or with the text. A
/// text of no more rows than asked for is shown whole. Of a longer one, as many rows as asked for
/// are shown, at least one: half of them above the cursor's, unless that reaches past the top or
/// the bottom of the text.
pub proof fn lemma_window_shows_rows_around_cursor(s: Seq<char>, at: int, window_lines: int)
    requires
        0 <= at <= s.len(),
        0 <= window_lines,
        rows::newlines(s) < u32::MAX,
    ensures
        ({
            let prefix = window_prefix(s, at, window_lines);
            let suffix = window_suffix(s, at, window_lines);
            let from = at - prefix.len();
            let to = at + suffix.len();
            let above = rows::newlines(prefix);
            let below = rows::newlines(suffix);
            let count = vstd::math::max(window_lines, 1);
            &&& prefix.is_suffix_of(s.take(at))
            &&& suffix.is_prefix_of(s.skip(at))
            &&& from > 0 ==> s[from - 1] == '\n'
            &&& to < s.len() ==> suffix.len() > 0 && suffix.last() == '\n'
            &&& if rows::newlines(s) + 1 <= window_lines {
                prefix == s.take(at) && suffix == s.skip(at)
            } else {
                &&& above + below + 1 == count && to == s.len() || above + below == count
                    && suffix.len() > 0 && suffix.last() == '\n'
                &&& above < window_lines / 2 ==> from == 0
                &&& above > window_lines / 2 ==> to == s.len() && above + below + 1 == count
            }
        }),
{
    let all = rows::lines(s);
    let last = all.len() - 1;
    let r = rows::row_of(s, at);
    let shown = window_rows(last, r, window_lines);
    let prefix = window_prefix(s, at, window_lines);
    let suffix = window_suffix(s, at, window_lines);
    let from = window_start(s, at, window_lines);
    let to = window_end(s, at, window_lines);
    rows::lemma_lines_are_the_text(s);
    rows::lemma_row_of_counts(s, at);
    lemma_row_of(s, at);
    rows::lemma_lines(s);
    lemma_window_holds_cursor(last, r, window_lines);
    if window_lines <= last {
        lemma_window_follows_cursor(last, r, window_lines);
    }
    rows::lemma_row_start_increases(all, shown.0, r);
    rows::lemma_row_starts_behind_newline(s, shown.0);
    assert(from == rows::row_start(all, shown.0));
    assert(s.take(at).subrange(at - prefix.len(), at) =~= prefix);
    assert(s.take(at) =~= s.take(from) + prefix);
    rows::lemma_newlines_add(s.take(from), prefix);
    assert(s.take(at) + s.skip(at) =~= s);
    rows::lemma_newlines_add(s.take(at), s.skip(at));
    if shown.1 < last {
        rows::lemma_row_start_increases(all, r + 1, shown.1 + 1);
        rows::lemma_row_starts_behind_newline(s, shown.1 + 1);
        assert(to == rows::row_start(all, shown.1 + 1));
        assert(s.take(to) =~= s.take(at) + suffix);
        rows::lemma_newlines_add(s.take(at), suffix);
        assert(suffix.last() == s[to - 1]);
    } else {
        assert(to == s.len());
        assert(suffix =~= s.skip(at));
    }
    assert(s.skip(at).subrange(0, suffix.len() as int) =~= suffix);
}

/// Without an excerpt the last 1024 bytes before the cursor are shown, or all there are.
pub proof fn lemma_fallback_shows_bytes_before_cursor(s: Seq<char>, k: int)
    requires
        0 <= k <= s.len(),
        fallback_fits(s, text::byte_len(s.take(k)) as int),
    ensures
        ({
            let offset = text::byte_len(s.take(k)) as int;
            let prefix = fallback_prefix(s, offset);
            &&& prefix.is_suffix_of(s.take(k))
            &&& text::byte_len(prefix) == vstd::math::min(1024, offset)
        }),
{
    let offset = text::byte_len(s.take(k)) as int;
    let prefix = fallback_prefix(s, offset);
    let from = if offset > 1024 {
        offset - 1024
    } else {
        0
    };
    text::lemma_char_index_counts(s, k);
    text::lemma_char_index(s, from);
    text::lemma_char_index_monotone(s, from, offset);
    let i = text::char_index(s, from);
    assert(s.take(k) =~= s.take(i) + prefix);
    text::lemma_byte_len_add(s.take(i), prefix);
    assert(s.take(k).subrange(k - prefix.len(), k) =~= prefix);
}

} // verus!
