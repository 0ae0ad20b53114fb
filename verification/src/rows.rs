//! The rows of a text.

use vstd::prelude::*;

use crate::text;

verus! {

/// The rows of `s`: what stands between its newlines, with an empty row after a newline that ends
/// the text.
pub open spec fn lines(s: Seq<char>) -> Seq<Seq<char>>
    decreases s.len(),
{
    if s.len() == 0 {
        seq![Seq::empty()]
    } else {
        let before = lines(s.drop_last());
        if s.last() == '\n' {
            before.push(Seq::empty())
        } else {
            before.drop_last().push(before.last().push(s.last()))
        }
    }
}

/// Where row `row` starts: after all rows above it and their newlines.
pub open spec fn row_start(rows: Seq<Seq<char>>, row: int) -> int
    decreases row,
{
    if row <= 0 {
        0
    } else {
        row_start(rows, row - 1) + rows[row - 1].len() + 1
    }
}

/// The row on which the character position `at` of `s` lies.
pub open spec fn row_of(s: Seq<char>, at: int) -> int {
    lines(s.take(at)).len() - 1
}

/// The text of the rows from `from` up to but not including `to`, each with a newline after it;
/// rows that there are not add nothing.
pub open spec fn rows_text(rows: Seq<Seq<char>>, from: int, to: int) -> Seq<char>
    decreases to - from,
{
    if to <= from {
        Seq::empty()
    } else if to - 1 < rows.len() {
        rows_text(rows, from, to - 1) + rows[to - 1].push('\n')
    } else {
        rows_text(rows, from, to - 1)
    }
}

/// Where a row starts depends on the rows above it alone.
pub proof fn lemma_row_start_agrees(a: Seq<Seq<char>>, b: Seq<Seq<char>>, row: int)
    requires
        forall|i: int| 0 <= i < row ==> #[trigger] a[i] == b[i],
    ensures
        row_start(a, row) == row_start(b, row),
    decreases row,
{
    if row > 0 {
        lemma_row_start_agrees(a, b, row - 1);
    }
}

/// Row `i` of `rows` stands in `s` where it starts, holds no newline, and has one behind it unless
/// it is the last.
pub open spec fn row_stands(s: Seq<char>, rows: Seq<Seq<char>>, i: int) -> bool {
    let from = row_start(rows, i);
    let to = from + rows[i].len();
    &&& 0 <= from
    &&& to <= s.len()
    &&& rows[i] == s.subrange(from, to)
    &&& !rows[i].contains('\n')
    &&& i + 1 < rows.len() ==> to < s.len() && s[to] == '\n'
    &&& i + 1 == rows.len() ==> to == s.len()
}

/// There is always at least one row, and each row stands in the text where it starts.
pub proof fn lemma_lines(s: Seq<char>)
    ensures
        1 <= lines(s).len() <= s.len() + 1,
        forall|i: int| 0 <= i < lines(s).len() ==> #[trigger] row_stands(s, lines(s), i),
    decreases s.len(),
{
    if s.len() > 0 {
        let t = s.drop_last();
        lemma_lines(t);
        let before = lines(t);
        let after = lines(s);
        let n = before.len() as int;
        assert(row_stands(t, before, n - 1));
        lemma_row_start_agrees(after, before, n - 1);
        assert forall|i: int| 0 <= i < after.len() implies #[trigger] row_stands(s, after, i) by {
            if i < n {
                lemma_row_start_agrees(after, before, i);
                assert(row_stands(t, before, i));
                let from = row_start(before, i);
                let to = from + before[i].len();
                if i < n - 1 || s.last() == '\n' {
                    assert(after[i] == before[i]);
                    assert(t.subrange(from, to) =~= s.subrange(from, to));
                } else {
                    assert(after[i] == before[i].push(s.last()));
                    assert(before[i].push(s.last()) =~= s.subrange(from, to + 1));
                    assert forall|j: int| 0 <= j < after[i].len() implies after[i][j] != '\n' by {
                        if j < before[i].len() {
                            assert(before[i].contains(before[i][j]));
                        }
                    }
                }
            } else {
                assert(after[n - 1] == before[n - 1]);
                assert(after[i] =~= s.subrange(s.len() as int, s.len() as int));
            }
        }
    } else {
        assert(lines(s)[0] =~= s.subrange(0, 0));
    }
}

/// Rows in order start in order.
pub proof fn lemma_row_start_increases(rows: Seq<Seq<char>>, a: int, b: int)
    requires
        0 <= a <= b,
    ensures
        row_start(rows, a) + (b - a) <= row_start(rows, b),
    decreases b - a,
{
    if a < b {
        lemma_row_start_increases(rows, a, b - 1);
    }
}

/// The text of whole rows above the last one is the part of the text from where the first of them
/// starts to where the row after them starts.
pub proof fn lemma_rows_text_is_subrange(s: Seq<char>, from: int, to: int)
    requires
        0 <= from <= to < lines(s).len(),
    ensures
        row_start(lines(s), from) <= row_start(lines(s), to) <= s.len(),
        rows_text(lines(s), from, to) == s.subrange(
            row_start(lines(s), from),
            row_start(lines(s), to),
        ),
    decreases to - from,
{
    let rows = lines(s);
    lemma_lines(s);
    lemma_row_start_increases(rows, from, to);
    assert(row_stands(s, rows, to));
    if from < to {
        lemma_rows_text_is_subrange(s, from, to - 1);
        let a = row_start(rows, from);
        let b = row_start(rows, to - 1);
        let c = row_start(rows, to);
        assert(row_stands(s, rows, from));
        assert(row_stands(s, rows, to - 1));
        assert(s.subrange(b, c) =~= rows[to - 1].push('\n'));
        assert(s.subrange(a, b) + s.subrange(b, c) =~= s.subrange(a, c));
    }
}

/// Joining the rows with newlines gives back the text.
pub proof fn lemma_lines_rejoin(s: Seq<char>)
    ensures
        rows_text(lines(s), 0, lines(s).len() - 1) + lines(s).last() == s,
{
    lemma_lines(s);
    let rows = lines(s);
    let last = rows.len() - 1;
    lemma_rows_text_is_subrange(s, 0, last);
    assert(row_stands(s, rows, last));
    let a = row_start(rows, last);
    assert(s.subrange(0, a) + s.subrange(a, s.len() as int) =~= s);
}

/// Where each row starts.
pub fn row_starts(chars: &Vec<char>) -> (starts: Vec<usize>)
    ensures
        starts.len() == lines(chars@).len(),
        forall|i: int|
            0 <= i < starts.len() ==> #[trigger] starts@[i] == row_start(lines(chars@), i),
        forall|i: int| 0 <= i < starts.len() ==> #[trigger] starts@[i] <= chars.len(),
{
    let mut starts: Vec<usize> = Vec::new();
    starts.push(0);
    let mut i: usize = 0;
    assert(chars@.take(0) == Seq::<char>::empty());
    while i < chars.len()
        invariant
            i <= chars.len(),
            starts.len() == lines(chars@.take(i as int)).len(),
            forall|j: int|
                0 <= j < starts.len() ==> #[trigger] starts@[j] == row_start(
                    lines(chars@.take(i as int)),
                    j,
                ),
        decreases chars.len() - i,
    {
        let ghost t = chars@.take(i as int);
        let ghost u = chars@.take(i + 1);
        let ghost old_starts = starts@;
        proof {
            assert(u.drop_last() == t);
            lemma_lines(t);
            lemma_lines(u);
        }
        if chars[i] == '\n' {
            starts.push(i + 1);
        }
        proof {
            let n = lines(t).len() as int;
            assert forall|j: int| 0 <= j < starts.len() implies #[trigger] starts@[j] == row_start(
                lines(u),
                j,
            ) by {
                if j < n {
                    lemma_row_start_agrees(lines(u), lines(t), j);
                    assert(starts@[j] == old_starts[j]);
                } else {
                    lemma_row_start_agrees(lines(u), lines(t), n - 1);
                    assert(lines(u)[n - 1] == lines(t)[n - 1]);
                    assert(row_stands(t, lines(t), n - 1));
                }
            }
        }
        i += 1;
    }
    proof {
        assert(chars@.take(chars.len() as int) == chars@);
        lemma_lines(chars@);
        assert forall|j: int| 0 <= j < starts.len() implies #[trigger] starts@[j]
            <= chars.len() by {
            assert(row_stands(chars@, lines(chars@), j));
        }
    }
    starts
}

/// The number of newlines before the character position `at`, which is the row it lies on.
pub fn row_at(chars: &Vec<char>, at: usize) -> (row: usize)
    requires
        at <= chars.len(),
    ensures
        row == row_of(chars@, at as int),
        row <= at,
{
    let mut i: usize = 0;
    let mut row: usize = 0;
    assert(chars@.take(0) == Seq::<char>::empty());
    while i < at
        invariant
            i <= at <= chars.len(),
            row <= i,
            row == row_of(chars@, i as int),
        decreases at - i,
    {
        proof {
            assert(chars@.take(i + 1).drop_last() == chars@.take(i as int));
            lemma_lines(chars@.take(i as int));
        }
        if chars[i] == '\n' {
            row += 1;
        }
        i += 1;
    }
    row
}

proof fn lemma_rows_text_past_end(rows: Seq<Seq<char>>, from: int, to: int)
    requires
        rows.len() <= to,
    ensures
        rows_text(rows, from, to) == rows_text(rows, from, rows.len() as int),
    decreases to,
{
    if rows.len() < to && from < to {
        lemma_rows_text_past_end(rows, from, to - 1);
    } else if from >= to {
        assert(rows_text(rows, from, rows.len() as int) == Seq::<char>::empty());
    }
}

/// The text of the rows from `first` to `last`, both among them.
pub(crate) fn text_of_rows(chars: &Vec<char>, starts: &Vec<usize>, first: u32, last: u32) -> (r: String)
    requires
        starts.len() == lines(chars@).len(),
        forall|i: int|
            0 <= i < starts.len() ==> #[trigger] starts@[i] == row_start(lines(chars@), i),
    ensures
        r@ == rows_text(lines(chars@), first as int, last + 1),
{
    let mut r = String::new();
    let mut row: usize = first as usize;
    proof {
        lemma_lines(chars@);
    }
    while row <= last as usize && row < starts.len()
        invariant
            first <= row,
            row <= last + 1 || row == first,
            starts.len() == lines(chars@).len(),
            forall|i: int|
                0 <= i < starts.len() ==> #[trigger] starts@[i] == row_start(lines(chars@), i),
            r@ == rows_text(lines(chars@), first as int, row as int),
        decreases starts.len() - row,
    {
        proof {
            lemma_lines(chars@);
            assert(row_stands(chars@, lines(chars@), row as int));
            if row + 1 < starts.len() {
                let _ = starts@[row + 1];
                lemma_row_start_increases(lines(chars@), row as int, row + 1);
            }
        }
        let end = if row + 1 < starts.len() {
            starts[row + 1] - 1
        } else {
            chars.len()
        };
        let line = text::substring(chars, starts[row], end);
        proof {
            assert(line@ == lines(chars@)[row as int]);
            assert(r@ + line@ + seq!['\n'] =~= r@ + line@.push('\n'));
        }
        r.append(line.as_str());
        r.push('\n');
        row += 1;
    }
    proof {
        if row as int >= lines(chars@).len() {
            if row <= last {
                lemma_rows_text_past_end(lines(chars@), first as int, last + 1);
                lemma_rows_text_past_end(lines(chars@), first as int, row as int);
            }
        }
    }
    r
}

/// The number of newlines in `s`.
pub open spec fn newlines(s: Seq<char>) -> nat {
    s.to_multiset().count('\n')
}

/// Each of the rows with a newline behind it.
pub open spec fn ended(rows: Seq<Seq<char>>) -> Seq<Seq<char>> {
    Seq::new(rows.len(), |i: int| rows[i].push('\n'))
}

proof fn lemma_newlines_push(s: Seq<char>, c: char)
    ensures
        newlines(Seq::<char>::empty()) == 0,
        newlines(s.push(c)) == newlines(s) + if c == '\n' {
            1nat
        } else {
            0
        },
{
    broadcast use vstd::seq_lib::group_to_multiset_ensures;

}

/// The newlines of two texts, one behind the other, are those of both.
pub proof fn lemma_newlines_add(a: Seq<char>, b: Seq<char>)
    ensures
        newlines(a + b) == newlines(a) + newlines(b),
    decreases b.len(),
{
    if b.len() > 0 {
        let t = b.drop_last();
        lemma_newlines_add(a, t);
        lemma_newlines_push(t, b.last());
        lemma_newlines_push(a + t, b.last());
        assert(t.push(b.last()) =~= b);
        assert((a + t).push(b.last()) =~= a + b);
    } else {
        lemma_newlines_push(a, '\n');
        assert(a + b =~= a);
        assert(b =~= Seq::<char>::empty());
    }
}

proof fn lemma_flatten_push(a: Seq<Seq<char>>, x: Seq<char>)
    ensures
        a.push(x).flatten() == a.flatten() + x,
{
    let b = a.push(x);
    b.lemma_flatten_and_flatten_alt_are_equivalent();
    a.lemma_flatten_and_flatten_alt_are_equivalent();
    assert(b.drop_last() =~= a);
}

/// The rows are the text: there is one more of them than newlines, none holds a newline, and with
/// a newline behind each, one after the other, they are the text and a newline.
pub proof fn lemma_lines_are_the_text(s: Seq<char>)
    ensures
        lines(s).len() == newlines(s) + 1,
        ended(lines(s)).flatten() == s.push('\n'),
        forall|i: int, j: int|
            0 <= i < lines(s).len() && 0 <= j < lines(s)[i].len() ==> #[trigger] lines(s)[i][j]
                != '\n',
    decreases s.len(),
{
    lemma_newlines_push(s.drop_last(), s.last());
    let rows = lines(s);
    lemma_lines(s);
    assert forall|i: int, j: int|
        0 <= i < rows.len() && 0 <= j < rows[i].len() implies #[trigger] rows[i][j] != '\n' by {
        assert(row_stands(s, rows, i));
        assert(rows[i].contains(rows[i][j]));
    }
    if s.len() == 0 {
        assert(s =~= Seq::<char>::empty());
        assert(ended(rows) =~= Seq::<Seq<char>>::empty().push(s.push('\n')));
        lemma_flatten_push(Seq::empty(), s.push('\n'));
        assert(Seq::<Seq<char>>::empty().flatten() + s.push('\n') =~= s.push('\n'));
    } else {
        let t = s.drop_last();
        let before = lines(t);
        lemma_lines(t);
        lemma_lines_are_the_text(t);
        assert(t.push(s.last()) =~= s);
        let above = ended(before).drop_last();
        assert(ended(before) =~= above.push(before.last().push('\n')));
        lemma_flatten_push(above, before.last().push('\n'));
        let joined = above.flatten() + before.last();
        assert(joined.push('\n') =~= t.push('\n'));
        assert(joined =~= t) by {
            assert(joined.push('\n').drop_last() =~= joined);
            assert(t.push('\n').drop_last() =~= t);
        }
        if s.last() == '\n' {
            assert(ended(rows) =~= ended(before).push(Seq::<char>::empty().push('\n')));
            lemma_flatten_push(ended(before), Seq::<char>::empty().push('\n'));
            assert(t.push('\n') + Seq::<char>::empty().push('\n') =~= s.push('\n'));
        } else {
            let grown = before.last().push(s.last());
            assert(ended(rows) =~= above.push(grown.push('\n')));
            lemma_flatten_push(above, grown.push('\n'));
            assert(above.flatten() + grown.push('\n') =~= joined.push(s.last()).push('\n'));
        }
    }
}

/// The text of rows is each of them that there is, with a newline behind it, one after the other.
pub proof fn lemma_rows_text_is_each_row(rows: Seq<Seq<char>>, from: int, to: int)
    requires
        0 <= from <= to,
    ensures
        rows_text(rows, from, to) == ended(
            rows.subrange(
                vstd::math::min(from, rows.len() as int),
                vstd::math::min(to, rows.len() as int),
            ),
        ).flatten(),
    decreases to,
{
    let n = rows.len() as int;
    let a = vstd::math::min(from, n);
    let b = vstd::math::min(to, n);
    let shown = rows.subrange(a, b);
    if from == to || to > n {
        if from < to {
            lemma_rows_text_is_each_row(rows, from, to - 1);
        } else {
            assert(ended(shown) =~= Seq::<Seq<char>>::empty());
            assert(ended(shown).flatten() =~= Seq::<char>::empty());
        }
    } else {
        lemma_rows_text_is_each_row(rows, from, to - 1);
        let above = rows.subrange(from, to - 1);
        assert(ended(shown) =~= ended(above).push(rows[to - 1].push('\n')));
        lemma_flatten_push(ended(above), rows[to - 1].push('\n'));
    }
}

/// The rows from `from` to the last are the text from where the first of them starts to its end,
/// with a newline behind it.
pub proof fn lemma_rows_text_to_the_end(s: Seq<char>, from: int)
    requires
        0 <= from < lines(s).len(),
    ensures
        0 <= row_start(lines(s), from) <= s.len(),
        rows_text(lines(s), from, lines(s).len() as int) == s.skip(
            row_start(lines(s), from),
        ).push('\n'),
{
    let rows = lines(s);
    let last = rows.len() - 1;
    lemma_lines(s);
    lemma_rows_text_is_subrange(s, from, last);
    assert(row_stands(s, rows, from));
    assert(row_stands(s, rows, last));
    let a = row_start(rows, from);
    let b = row_start(rows, last);
    assert(s.subrange(a, b) + rows[last].push('\n') =~= s.skip(a).push('\n'));
}

/// A row starts at the start of the text or just behind a newline, with as many newlines before it
/// as there are rows above it.
pub proof fn lemma_row_starts_behind_newline(s: Seq<char>, row: int)
    requires
        0 <= row < lines(s).len(),
    ensures
        0 <= row_start(lines(s), row) <= s.len(),
        row == 0 ==> row_start(lines(s), row) == 0,
        row > 0 ==> row_start(lines(s), row) > 0 && s[row_start(lines(s), row) - 1] == '\n',
        newlines(s.take(row_start(lines(s), row))) == row,
{
    let rows = lines(s);
    let at = row_start(rows, row);
    lemma_lines(s);
    assert(row_stands(s, rows, row));
    if row > 0 {
        assert(row_stands(s, rows, row - 1));
    }
    crate::window::lemma_row_of(s, at);
    lemma_row_of_counts(s, at);
    let r = row_of(s, at);
    if r < row {
        lemma_row_start_increases(rows, r + 1, row);
    }
    if row < r {
        lemma_row_start_increases(rows, row, r);
    }
}

/// A position lies on the row that as many newlines stand before it as there are rows above it.
pub proof fn lemma_row_of_counts(s: Seq<char>, at: int)
    requires
        0 <= at <= s.len(),
    ensures
        row_of(s, at) == newlines(s.take(at)),
{
    lemma_lines_are_the_text(s.take(at));
}

} // verus!
