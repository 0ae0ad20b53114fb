//! Ranges of rows that edits have changed: merging them, and choosing the one to keep.

use std::ops::Range;
use vstd::prelude::*;

verus! {

/// The larger of two rows.
pub open spec fn later(a: u32, b: u32) -> u32 {
    if a < b {
        b
    } else {
        a
    }
}

/// A range of rows that covers something.
pub open spec fn covers_rows(r: Range<u32>) -> bool {
    r.start != r.end
}

/// The ranges of changed rows, from the first edit on: a range that starts no more than one row
/// past the end of the one before it extends it, any other stands by itself, and an edit that
/// leaves no row behind counts for nothing.
pub open spec fn coalesced(edits: Seq<(Range<u32>, Range<u32>)>) -> Seq<Range<u32>>
    decreases edits.len(),
{
    if edits.len() == 0 {
        Seq::empty()
    } else {
        let before = coalesced(edits.drop_last());
        let r = edits.last().1;
        if !covers_rows(r) {
            before
        } else if before.len() > 0 && r.start <= before.last().end + 1 {
            before.drop_last().push(
                (Range { start: before.last().start, end: later(before.last().end, r.end) }),
            )
        } else {
            before.push(r)
        }
    }
}

/// No range that another one follows ends on the last row number there is.
pub open spec fn ends_fit(edits: Seq<(Range<u32>, Range<u32>)>) -> bool {
    forall|i: int, j: int|
        #![trigger edits[i], edits[j]]
        0 <= i < j < edits.len() && covers_rows(edits[i].1) && covers_rows(edits[j].1)
            ==> edits[i].1.end < u32::MAX
}

/// The row lies in the range, or just behind its last row.
pub open spec fn touches_row(r: Range<u32>, row: int) -> bool {
    r.start <= row <= r.end
}

/// The first of the ranges that `row` lies in or just behind.
pub open spec fn first_touching(ranges: Seq<Range<u32>>, row: int) -> Option<Range<u32>>
    decreases ranges.len(),
{
    if ranges.len() == 0 {
        None
    } else {
        match first_touching(ranges.drop_last(), row) {
            Some(r) => Some(r),
            None => if touches_row(ranges.last(), row) {
                Some(ranges.last())
            } else {
                None
            },
        }
    }
}

/// The range to keep for a cursor on `row`: the first that the row touches, or else the last one,
/// or else the empty range at the top of the file.
pub open spec fn range_for(ranges: Seq<Range<u32>>, row: int) -> Range<u32> {
    match first_touching(ranges, row) {
        Some(r) => r,
        None => if ranges.len() > 0 {
            ranges.last()
        } else {
            (Range { start: 0, end: 0 })
        },
    }
}

/// Rows kept around a changed range, on either side of it.
pub const SURROUND: u32 = 3;

/// The first row to keep for the range `r`.
pub open spec fn surround_start(r: Range<u32>) -> int {
    if r.start >= SURROUND {
        r.start - SURROUND
    } else {
        0
    }
}

/// The last row to keep for the range `r` in a text of `row_count` rows.
pub open spec fn surround_end(r: Range<u32>, row_count: nat) -> int {
    let count = row_count as u32;
    let last = if count > 0 {
        count - 1
    } else {
        0
    };
    if r.end + SURROUND < last {
        r.end + SURROUND
    } else {
        last
    }
}

proof fn lemma_coalesced_end(edits: Seq<(Range<u32>, Range<u32>)>, n: int)
    requires
        0 <= n < edits.len(),
        ends_fit(edits),
        covers_rows(edits[n].1),
        coalesced(edits.take(n)).len() > 0,
    ensures
        coalesced(edits.take(n)).last().end < u32::MAX,
{
    lemma_coalesced_end_below(edits, n, n);
}

proof fn lemma_coalesced_end_below(edits: Seq<(Range<u32>, Range<u32>)>, m: int, n: int)
    requires
        0 <= m <= n < edits.len(),
        ends_fit(edits),
        covers_rows(edits[n].1),
    ensures
        coalesced(edits.take(m)).len() > 0 ==> coalesced(edits.take(m)).last().end < u32::MAX,
    decreases m,
{
    if m > 0 {
        lemma_coalesced_end_below(edits, m - 1, n);
        assert(edits.take(m).drop_last() == edits.take(m - 1));
        assert(edits.take(m).last() == edits[m - 1]);
    }
}

/// Whether no range that another one follows ends on the last row number there is.
pub fn check_ends(edits: &Vec<(Range<u32>, Range<u32>)>) -> (fit: bool)
    ensures
        fit == ends_fit(edits@),
{
    let mut full: bool = false;
    let ghost mut at: int = 0;
    let mut j: usize = 0;
    while j < edits.len()
        invariant
            j <= edits.len(),
            full ==> 0 <= at < j && covers_rows(edits@[at].1) && edits@[at].1.end == u32::MAX,
            !full ==> forall|i: int|
                0 <= i < j && covers_rows((#[trigger] edits@[i]).1) ==> edits@[i].1.end < u32::MAX,
            forall|i: int, k: int|
                #![trigger edits@[i], edits@[k]]
                0 <= i < k < j && covers_rows(edits@[i].1) && covers_rows(edits@[k].1)
                    ==> edits@[i].1.end < u32::MAX,
        decreases edits.len() - j,
    {
        if edits[j].1.start != edits[j].1.end {
            if full {
                assert(edits@[at].1.end == u32::MAX && covers_rows(edits@[j as int].1));
                return false;
            }
            if edits[j].1.end == u32::MAX {
                full = true;
                proof {
                    at = j as int;
                }
            }
        }
        j += 1;
    }
    true
}

/// Merges the new-row ranges of `edits`.
pub fn coalesce(edits: &Vec<(Range<u32>, Range<u32>)>) -> (merged: Vec<Range<u32>>)
    requires
        ends_fit(edits@),
    ensures
        merged@ == coalesced(edits@),
{
    let mut merged: Vec<Range<u32>> = Vec::new();
    let mut i: usize = 0;
    assert(edits@.take(0) == Seq::<(Range<u32>, Range<u32>)>::empty());
    while i < edits.len()
        invariant
            i <= edits.len(),
            ends_fit(edits@),
            merged@ == coalesced(edits@.take(i as int)),
        decreases edits.len() - i,
    {
        let start = edits[i].1.start;
        let end = edits[i].1.end;
        proof {
            assert(edits@.take(i + 1).drop_last() == edits@.take(i as int));
            assert(edits@.take(i + 1).last() == edits@[i as int]);
        }
        if start != end {
            let n = merged.len();
            proof {
                if n > 0 {
                    lemma_coalesced_end(edits@, i as int);
                }
            }
            if n > 0 && start <= merged[n - 1].end + 1 {
                let first = merged[n - 1].start;
                let last = if merged[n - 1].end < end {
                    end
                } else {
                    merged[n - 1].end
                };
                merged.pop();
                merged.push(Range { start: first, end: last });
            } else {
                merged.push(Range { start, end });
            }
        }
        i += 1;
    }
    assert(edits@.take(edits.len() as int) == edits@);
    merged
}

/// Picks the range to keep for a cursor on `row`.
pub fn choose_range(ranges: &Vec<Range<u32>>, row: u32) -> (r: Range<u32>)
    ensures
        r == range_for(ranges@, row as int),
{
    let mut i: usize = 0;
    assert(ranges@.take(0) == Seq::<Range<u32>>::empty());
    while i < ranges.len()
        invariant
            i <= ranges.len(),
            first_touching(ranges@.take(i as int), row as int) is None,
        decreases ranges.len() - i,
    {
        proof {
            assert(ranges@.take(i + 1).drop_last() == ranges@.take(i as int));
            assert(ranges@.take(i + 1).last() == ranges@[i as int]);
        }
        if ranges[i].start <= row && row <= ranges[i].end {
            proof {
                lemma_first_touching_prefix(ranges@, i + 1, row as int);
            }
            return Range { start: ranges[i].start, end: ranges[i].end };
        }
        i += 1;
    }
    assert(ranges@.take(ranges.len() as int) == ranges@);
    if ranges.len() > 0 {
        let n = ranges.len() - 1;
        Range { start: ranges[n].start, end: ranges[n].end }
    } else {
        Range { start: 0, end: 0 }
    }
}

proof fn lemma_first_touching_prefix(ranges: Seq<Range<u32>>, n: int, row: int)
    requires
        0 <= n <= ranges.len(),
        first_touching(ranges.take(n), row) is Some,
    ensures
        first_touching(ranges, row) == first_touching(ranges.take(n), row),
    decreases ranges.len(),
{
    if n < ranges.len() {
        assert(ranges.drop_last().take(n) == ranges.take(n));
        lemma_first_touching_prefix(ranges.drop_last(), n, row);
    } else {
        assert(ranges.take(n) == ranges);
    }
}

/// The rows to keep for the changed range `r` in a text of `row_count` rows.
pub fn surround(r: &Range<u32>, row_count: usize) -> (rows: (u32, u32))
    requires
        r.end + SURROUND <= u32::MAX,
    ensures
        rows.0 == surround_start(*r),
        rows.1 == surround_end(*r, row_count as nat),
        rows.1 < u32::MAX,
{
    let start = r.start.saturating_sub(SURROUND);
    let count = row_count as u32;
    let last = count.saturating_sub(1);
    let end = r.end + SURROUND;
    (start, if end < last { end } else { last })
}

/// The edits come in the order of their new rows and do not overlap, as a line diff lists them.
pub open spec fn in_order(edits: Seq<(Range<u32>, Range<u32>)>) -> bool {
    &&& forall|i: int| 0 <= i < edits.len() ==> (#[trigger] edits[i]).1.start <= edits[i].1.end
    &&& forall|i: int, j: int|
        #![trigger edits[i], edits[j]]
        0 <= i < j < edits.len() ==> edits[i].1.end <= edits[j].1.start
}

/// Some edit changed `row`.
pub open spec fn changed(edits: Seq<(Range<u32>, Range<u32>)>, row: int) -> bool {
    exists|i: int|
        0 <= i < edits.len() && (#[trigger] edits[i]).1.start <= row < edits[i].1.end
}

/// Some range holds `row`.
pub open spec fn held(ranges: Seq<Range<u32>>, row: int) -> bool {
    exists|i: int| 0 <= i < ranges.len() && (#[trigger] ranges[i]).start <= row < ranges[i].end
}

proof fn lemma_in_order_prefix(edits: Seq<(Range<u32>, Range<u32>)>)
    requires
        in_order(edits),
        edits.len() > 0,
    ensures
        in_order(edits.drop_last()),
        coalesced(edits.drop_last()).len() > 0 ==> coalesced(edits.drop_last()).last().end
            <= edits.last().1.start,
    decreases edits.len(),
{
    let t = edits.drop_last();
    assert forall|i: int| 0 <= i < t.len() implies (#[trigger] t[i]).1.start <= t[i].1.end by {
        assert(t[i] == edits[i]);
    }
    assert forall|i: int, j: int| #![trigger t[i], t[j]] 0 <= i < j < t.len() implies t[i].1.end
        <= t[j].1.start by {
        assert(t[i] == edits[i] && t[j] == edits[j]);
    }
    if t.len() > 0 {
        lemma_in_order_prefix(t);
        assert(edits[edits.len() - 2] == t.last());
        assert(edits[edits.len() - 1] == edits.last());
    }
}

/// Merged ranges hold at least one row each, and at least two rows lie between one and the next:
/// none overlaps another or is adjacent to it.
pub proof fn lemma_coalesced_apart(edits: Seq<(Range<u32>, Range<u32>)>)
    requires
        in_order(edits),
    ensures
        forall|i: int|
            0 <= i < coalesced(edits).len() ==> (#[trigger] coalesced(edits)[i]).start
                < coalesced(edits)[i].end,
        forall|i: int, j: int|
            #![trigger coalesced(edits)[i], coalesced(edits)[j]]
            0 <= i < j < coalesced(edits).len() ==> coalesced(edits)[i].end + 1 < coalesced(
                edits,
            )[j].start,
    decreases edits.len(),
{
    if edits.len() > 0 {
        lemma_in_order_prefix(edits);
        lemma_coalesced_apart(edits.drop_last());
        let before = coalesced(edits.drop_last());
        let r = edits.last().1;
        assert(edits[edits.len() - 1] == edits.last());
        if before.len() > 0 {
            assert(before[before.len() - 1] == before.last());
        }
    }
}

/// Every changed row is held by a merged range.
pub proof fn lemma_coalesced_holds_changes(edits: Seq<(Range<u32>, Range<u32>)>, row: int)
    requires
        in_order(edits),
        changed(edits, row),
    ensures
        held(coalesced(edits), row),
    decreases edits.len(),
{
    let t = edits.drop_last();
    let before = coalesced(t);
    let after = coalesced(edits);
    let n = edits.len() - 1;
    lemma_in_order_prefix(edits);
    let i = choose|i: int|
        0 <= i < edits.len() && (#[trigger] edits[i]).1.start <= row < edits[i].1.end;
    if i < n {
        assert(t[i].1.start <= row < t[i].1.end);
        lemma_coalesced_holds_changes(t, row);
        let k = choose|k: int|
            0 <= k < before.len() && (#[trigger] before[k]).start <= row < before[k].end;
        assert(after[k].start <= row < after[k].end);
    } else {
        lemma_coalesced_apart(t);
        let last = after[after.len() - 1];
        assert(last.start <= row < last.end);
    }
}

/// A row that a merged range holds was changed, or is the one row between two changed ones.
pub proof fn lemma_coalesced_holds_little_else(edits: Seq<(Range<u32>, Range<u32>)>, row: int)
    requires
        in_order(edits),
        held(coalesced(edits), row),
    ensures
        changed(edits, row) || (changed(edits, row - 1) && changed(edits, row + 1)),
{
    lemma_held_splits(edits, row);
}

proof fn lemma_changed_extends(edits: Seq<(Range<u32>, Range<u32>)>, row: int)
    requires
        edits.len() > 0,
        changed(edits.drop_last(), row),
    ensures
        changed(edits, row),
{
    let t = edits.drop_last();
    let i = choose|i: int| 0 <= i < t.len() && (#[trigger] t[i]).1.start <= row < t[i].1.end;
    assert(edits[i] == t[i]);
}

proof fn lemma_held_splits(edits: Seq<(Range<u32>, Range<u32>)>, row: int)
    requires
        in_order(edits),
    ensures
        held(coalesced(edits), row) ==> changed(edits, row) || (changed(edits, row - 1) && changed(
            edits,
            row + 1,
        )),
        coalesced(edits).len() > 0 ==> changed(edits, coalesced(edits).last().end - 1),
    decreases edits.len(),
{
    if edits.len() > 0 {
        let t = edits.drop_last();
        let before = coalesced(t);
        let after = coalesced(edits);
        let n = edits.len() - 1;
        let r = edits[n].1;
        lemma_in_order_prefix(edits);
        lemma_held_splits(t, row);
        if before.len() > 0 {
            lemma_changed_extends(edits, before.last().end - 1);
        }
        if after.len() > 0 && covers_rows(r) {
            assert(edits[n].1.start <= after.last().end - 1 < edits[n].1.end);
        }
        if held(after, row) {
            let k = choose|k: int|
                0 <= k < after.len() && (#[trigger] after[k]).start <= row < after[k].end;
            if k < before.len() && before[k].start <= row < before[k].end {
                assert(held(before, row));
                if changed(t, row) {
                    lemma_changed_extends(edits, row);
                } else {
                    lemma_changed_extends(edits, row - 1);
                    lemma_changed_extends(edits, row + 1);
                }
            } else if r.start <= row < r.end {
                assert(changed(edits, row));
            } else {
                assert(row == before.last().end);
                assert(edits[n].1.start <= row + 1 < edits[n].1.end);
            }
        }
    }
}

/// The range that is picked touches the cursor's row whenever any range does.
pub proof fn lemma_range_for_touches(ranges: Seq<Range<u32>>, row: int, i: int)
    requires
        0 <= i < ranges.len(),
        touches_row(ranges[i], row),
    ensures
        touches_row(range_for(ranges, row), row),
        ranges.contains(range_for(ranges, row)),
    decreases ranges.len(),
{
    let t = ranges.drop_last();
    if i < t.len() {
        assert(t[i] == ranges[i]);
        lemma_range_for_touches(t, row, i);
        lemma_first_touching_some(t, row, i);
        let k = choose|k: int| 0 <= k < t.len() && t[k] == range_for(t, row);
        assert(ranges[k] == t[k]);
    } else {
        lemma_first_touching_among(t, row);
        match first_touching(t, row) {
            Some(r) => {
                let k = choose|k: int| 0 <= k < t.len() && t[k] == r;
                assert(ranges[k] == t[k]);
            },
            None => {
                assert(ranges[i] == ranges.last());
            },
        }
    }
}

proof fn lemma_first_touching_some(ranges: Seq<Range<u32>>, row: int, i: int)
    requires
        0 <= i < ranges.len(),
        touches_row(ranges[i], row),
    ensures
        first_touching(ranges, row) is Some,
    decreases ranges.len(),
{
    if i < ranges.len() - 1 {
        assert(ranges.drop_last()[i] == ranges[i]);
        lemma_first_touching_some(ranges.drop_last(), row, i);
    }
}

proof fn lemma_first_touching_among(ranges: Seq<Range<u32>>, row: int)
    ensures
        first_touching(ranges, row) matches Some(r) ==> ranges.contains(r) && touches_row(r, row),
    decreases ranges.len(),
{
    if ranges.len() > 0 {
        let t = ranges.drop_last();
        lemma_first_touching_among(t, row);
        match first_touching(t, row) {
            Some(r) => {
                let k = choose|k: int| 0 <= k < t.len() && t[k] == r;
                assert(ranges[k] == t[k]);
            },
            None => {
                assert(ranges[ranges.len() - 1] == ranges.last());
            },
        }
    }
}

/// One more edit: one that leaves no row behind changes nothing, one that starts more than a row
/// past the last range is a range by itself, and any other lets the last range reach as far as it
/// does, if it did not already. All other ranges stay.
pub proof fn lemma_edit_extends_or_adds(
    edits: Seq<(Range<u32>, Range<u32>)>,
    edit: (Range<u32>, Range<u32>),
)
    ensures
        coalesced(Seq::<(Range<u32>, Range<u32>)>::empty()).len() == 0,
        ({
            let before = coalesced(edits);
            let after = coalesced(edits.push(edit));
            let n = before.len();
            let start = edit.1.start;
            let end = edit.1.end;
            &&& start == end ==> after == before
            &&& start != end && (n == 0 || start > before[n - 1].end + 1) ==> {
                &&& after.len() == n + 1
                &&& after.take(n as int) == before
                &&& after[n as int].start == start && after[n as int].end == end
            }
            &&& start != end && n > 0 && start <= before[n - 1].end + 1 ==> {
                &&& after.len() == n
                &&& after.take(n - 1) == before.take(n - 1)
                &&& after[n - 1].start == before[n - 1].start
                &&& after[n - 1].end == vstd::math::max(before[n - 1].end as int, end as int)
            }
        }),
{
    let more = edits.push(edit);
    assert(more.drop_last() =~= edits);
    assert(more.last() == edit);
    let before = coalesced(edits);
    let after = coalesced(more);
    let n = before.len();
    if n > 0 {
        assert(before.last() == before[n - 1]);
    }
    if edit.1.start != edit.1.end {
        if n == 0 || edit.1.start > before[n - 1].end + 1 {
            assert(after.take(n as int) =~= before);
        } else {
            assert(after.take(n - 1) =~= before.take(n - 1));
        }
    }
}

/// The first range that the row lies in, or right behind, is picked; where there is none the last
/// range is; and where there is no range at all, the empty one at the top.
pub proof fn lemma_first_touching_is_picked(ranges: Seq<Range<u32>>, row: int, k: int)
    ensures
        0 <= k < ranges.len() && ranges[k].start <= row <= ranges[k].end && (forall|i: int|
            0 <= i < k ==> !((#[trigger] ranges[i]).start <= row <= ranges[i].end))
            ==> range_for(ranges, row) == ranges[k],
        ranges.len() > 0 && (forall|i: int|
            0 <= i < ranges.len() ==> !((#[trigger] ranges[i]).start <= row <= ranges[i].end))
            ==> range_for(ranges, row) == ranges[ranges.len() - 1],
        ranges.len() == 0 ==> range_for(ranges, row).start == 0 && range_for(ranges, row).end == 0,
{
    if 0 <= k < ranges.len() && ranges[k].start <= row <= ranges[k].end && (forall|i: int|
        0 <= i < k ==> !((#[trigger] ranges[i]).start <= row <= ranges[i].end)) {
        let t = ranges.take(k + 1);
        assert(t.drop_last() =~= ranges.take(k));
        lemma_first_touching_among(ranges.take(k), row);
        if first_touching(ranges.take(k), row) is Some {
            let r = first_touching(ranges.take(k), row)->0;
            let i = choose|i: int| 0 <= i < k && ranges.take(k)[i] == r;
            assert(ranges[i] == r);
        }
        lemma_first_touching_prefix(ranges, k + 1, row);
    }
    if ranges.len() > 0 && (forall|i: int|
        0 <= i < ranges.len() ==> !((#[trigger] ranges[i]).start <= row <= ranges[i].end)) {
        lemma_first_touching_among(ranges, row);
    }
}

/// Three rows are kept on either side of a range, as far as the text has them.
pub proof fn lemma_surround_keeps_three_rows(r: Range<u32>, row_count: nat)
    requires
        0 < row_count <= u32::MAX,
    ensures
        surround_start(r) == vstd::math::max(r.start - 3, 0),
        surround_end(r, row_count) == vstd::math::min(r.end + 3, row_count - 1),
{
}

/// No merged range ends behind the last row that some edit ends on.
pub proof fn lemma_coalesced_within(edits: Seq<(Range<u32>, Range<u32>)>, bound: int, i: int)
    requires
        forall|j: int| 0 <= j < edits.len() ==> (#[trigger] edits[j]).1.end <= bound,
        0 <= i < coalesced(edits).len(),
    ensures
        coalesced(edits)[i].end <= bound,
    decreases edits.len(),
{
    let t = edits.drop_last();
    let before = coalesced(t);
    assert(edits[edits.len() - 1] == edits.last());
    assert forall|j: int| 0 <= j < t.len() implies (#[trigger] t[j]).1.end <= bound by {
        assert(t[j] == edits[j]);
    }
    if i < before.len() {
        lemma_coalesced_within(t, bound, i);
    }
}

} // verus!
