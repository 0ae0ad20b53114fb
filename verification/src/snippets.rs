//! The snippets of recently edited text, oldest first.

use std::collections::VecDeque;
use std::ops::Range;
use vstd::prelude::*;

use crate::ranges;
use crate::rows;

verus! {

/// Rows of a file as they stood after an edit near them.
#[derive(Clone, Debug)]
pub struct RecentSnippet {
    pub file_path: String,
    pub start_row: u32,
    pub end_row: u32,
    pub text: String,
}

/// What a [`RecentSnippet`] holds.
#[verifier::ext_equal]
pub struct SnippetView {
    pub file_path: Seq<char>,
    pub start_row: int,
    pub end_row: int,
    pub text: Seq<char>,
}

impl View for RecentSnippet {
    type V = SnippetView;

    open spec fn view(&self) -> SnippetView {
        SnippetView {
            file_path: self.file_path@,
            start_row: self.start_row as int,
            end_row: self.end_row as int,
            text: self.text@,
        }
    }
}

/// The snippets, by what they hold.
pub open spec fn views(snippets: Seq<RecentSnippet>) -> Seq<SnippetView> {
    snippets.map_values(|s: RecentSnippet| s@)
}

/// The rows of every snippet stand in order, below the last row number there is.
pub open spec fn well_formed(snippets: Seq<SnippetView>) -> bool {
    forall|i: int|
        0 <= i < snippets.len() ==> 0 <= (#[trigger] snippets[i]).start_row
            <= snippets[i].end_row < u32::MAX
}

/// The rows from `first` to `last` overlap those of `snippet` or are adjacent to them.
pub open spec fn meets(snippet: SnippetView, first: int, last: int) -> bool {
    first <= snippet.end_row + 1 && snippet.start_row <= last + 1
}

/// The snippet that holds the rows from `first` to `last` of the text with the rows `lines`.
pub open spec fn snippet_of(
    file_path: Seq<char>,
    first: int,
    last: int,
    lines: Seq<Seq<char>>,
) -> SnippetView {
    SnippetView {
        file_path,
        start_row: first,
        end_row: last,
        text: rows::rows_text(lines, first, last + 1),
    }
}

/// The snippets once the rows from `first` to `last` of a file are among them: the newest snippet
/// grows to hold them where it is of that file and its rows meet them, and is taken afresh from the
/// text; otherwise they become the newest snippet.
pub open spec fn absorbed(
    snippets: Seq<SnippetView>,
    file_path: Seq<char>,
    first: int,
    last: int,
    lines: Seq<Seq<char>>,
) -> Seq<SnippetView> {
    if snippets.len() > 0 && snippets.last().file_path == file_path && meets(
        snippets.last(),
        first,
        last,
    ) {
        snippets.drop_last().push(
            snippet_of(
                file_path,
                vstd::math::min(first, snippets.last().start_row),
                vstd::math::max(last, snippets.last().end_row),
                lines,
            ),
        )
    } else {
        snippets.push(snippet_of(file_path, first, last, lines))
    }
}

/// The newest `limit` of the snippets.
pub open spec fn newest(snippets: Seq<SnippetView>, limit: int) -> Seq<SnippetView> {
    if snippets.len() > limit {
        snippets.skip(snippets.len() - limit)
    } else {
        snippets
    }
}

/// The range that an edit is remembered by.
pub open spec fn edited_range(
    edits: Seq<(Range<u32>, Range<u32>)>,
    cursor_row: int,
) -> Range<u32> {
    ranges::range_for(ranges::coalesced(edits), cursor_row)
}

/// The rows of the edit lie in the text, so that there is something to remember.
pub open spec fn has_rows(
    text: Seq<char>,
    edits: Seq<(Range<u32>, Range<u32>)>,
    cursor_row: int,
) -> bool {
    let r = edited_range(edits, cursor_row);
    ranges::surround_start(r) <= ranges::surround_end(r, rows::lines(text).len())
}

/// The snippets after an edit that made `text` of the file.
pub open spec fn recorded(
    snippets: Seq<SnippetView>,
    file_path: Seq<char>,
    text: Seq<char>,
    edits: Seq<(Range<u32>, Range<u32>)>,
    cursor_row: int,
    limit: int,
) -> Seq<SnippetView> {
    let lines = rows::lines(text);
    let r = edited_range(edits, cursor_row);
    let first = ranges::surround_start(r);
    let last = ranges::surround_end(r, lines.len());
    if has_rows(text, edits, cursor_row) {
        newest(absorbed(snippets, file_path, first, last, lines), limit)
    } else {
        snippets
    }
}

/// The row numbers of an edit can be computed with.
pub open spec fn rows_fit(edits: Seq<(Range<u32>, Range<u32>)>, cursor_row: int) -> bool {
    &&& ranges::ends_fit(edits)
    &&& edited_range(edits, cursor_row).end + ranges::SURROUND <= u32::MAX
}

/// Puts the rows from `first` to `last` of a file among the snippets.
fn absorb(
    snippets: &mut VecDeque<RecentSnippet>,
    file_path: &String,
    first: u32,
    last: u32,
    chars: &Vec<char>,
    starts: &Vec<usize>,
)
    requires
        well_formed(views(old(snippets)@)),
        first <= last < u32::MAX,
        starts.len() == rows::lines(chars@).len(),
        forall|i: int|
            0 <= i < starts.len() ==> #[trigger] starts@[i] == rows::row_start(
                rows::lines(chars@),
                i,
            ),
    ensures
        views(final(snippets)@) == absorbed(
            views(old(snippets)@),
            file_path@,
            first as int,
            last as int,
            rows::lines(chars@),
        ),
        well_formed(views(final(snippets)@)),
{
    let ghost before = views(snippets@);
    if let Some(newest) = snippets.pop_back() {
        proof {
            assert(before.last() == newest@);
            assert(before[before.len() - 1] == newest@);
            assert(views(snippets@) == before.drop_last());
        }
        let merges = newest.file_path == *file_path && !(last + 1 < newest.start_row || first
            > newest.end_row + 1);
        if merges {
            let start_row = if first < newest.start_row {
                first
            } else {
                newest.start_row
            };
            let end_row = if last < newest.end_row {
                newest.end_row
            } else {
                last
            };
            let text = rows::text_of_rows(chars, starts, start_row, end_row);
            let grown = RecentSnippet { file_path: newest.file_path, start_row, end_row, text };
            snippets.push_back(grown);
            assert(views(snippets@) == before.drop_last().push(grown@));
        } else {
            let text = rows::text_of_rows(chars, starts, first, last);
            let added = RecentSnippet {
                file_path: file_path.clone(),
                start_row: first,
                end_row: last,
                text,
            };
            snippets.push_back(newest);
            snippets.push_back(added);
            assert(views(snippets@) == before.push(added@));
        }
    } else {
        let text = rows::text_of_rows(chars, starts, first, last);
        let added = RecentSnippet {
            file_path: file_path.clone(),
            start_row: first,
            end_row: last,
            text,
        };
        snippets.push_back(added);
        assert(views(snippets@) == before.push(added@));
    }
}

/// Drops the oldest snippets until no more than `limit` are left.
fn drop_oldest(snippets: &mut VecDeque<RecentSnippet>, limit: usize)
    requires
        well_formed(views(old(snippets)@)),
    ensures
        views(final(snippets)@) == newest(views(old(snippets)@), limit as int),
        well_formed(views(final(snippets)@)),
{
    let ghost before = snippets@;
    while snippets.len() > limit
        invariant
            snippets@.len() <= before.len(),
            snippets@ == before.skip(before.len() - snippets@.len()),
            before.len() > limit ==> snippets@.len() >= limit,
            before.len() <= limit ==> snippets@ == before,
        decreases snippets@.len(),
    {
        let ghost n = snippets@.len();
        let _ = snippets.pop_front();
        assert(snippets@ == before.skip(before.len() - n + 1));
    }
    proof {
        let k = before.len() - snippets@.len();
        assert(views(before.skip(k)) == views(before).skip(k));
        assert forall|i: int| 0 <= i < snippets@.len() implies 0 <= (#[trigger] views(
            snippets@,
        )[i]).start_row <= views(snippets@)[i].end_row < u32::MAX by {
            assert(views(snippets@)[i] == views(before)[i + k]);
        }
    }
}

/// Remembers an edit that made the text `chars` of the file, with the cursor on `cursor_row`.
pub fn record_edit(
    snippets: &mut VecDeque<RecentSnippet>,
    file_path: &String,
    chars: &Vec<char>,
    edits: &Vec<(Range<u32>, Range<u32>)>,
    cursor_row: u32,
    limit: Option<u32>,
)
    requires
        well_formed(views(old(snippets)@)),
        rows_fit(edits@, cursor_row as int),
        has_rows(chars@, edits@, cursor_row as int) ==> limit is Some,
    ensures
        views(final(snippets)@) == recorded(
            views(old(snippets)@),
            file_path@,
            chars@,
            edits@,
            cursor_row as int,
            limit->0 as int,
        ),
        well_formed(views(final(snippets)@)),
{
    let starts = rows::row_starts(chars);
    let merged = ranges::coalesce(edits);
    let chosen = ranges::choose_range(&merged, cursor_row);
    let (first, last) = ranges::surround(&chosen, starts.len());
    if first <= last {
        absorb(snippets, file_path, first, last, chars, &starts);
        drop_oldest(snippets, limit.unwrap() as usize);
    }
}

/// Recording an edit that has rows leaves no more than `limit` snippets.
pub proof fn lemma_recorded_bounded(
    snippets: Seq<SnippetView>,
    file_path: Seq<char>,
    text: Seq<char>,
    edits: Seq<(Range<u32>, Range<u32>)>,
    cursor_row: int,
    limit: int,
)
    requires
        limit >= 0,
        has_rows(text, edits, cursor_row),
    ensures
        recorded(snippets, file_path, text, edits, cursor_row, limit).len() <= limit,
{
}

/// The newest snippet after an edit is of the edited file, holds the edited range with the rows
/// around it, and shows them as they stand in the text.
pub proof fn lemma_recorded_newest(
    snippets: Seq<SnippetView>,
    file_path: Seq<char>,
    text: Seq<char>,
    edits: Seq<(Range<u32>, Range<u32>)>,
    cursor_row: int,
    limit: int,
)
    requires
        limit > 0,
        has_rows(text, edits, cursor_row),
    ensures
        ({
            let after = recorded(snippets, file_path, text, edits, cursor_row, limit);
            let r = edited_range(edits, cursor_row);
            let lines = rows::lines(text);
            &&& after.len() > 0
            &&& after.last().file_path == file_path
            &&& after.last().start_row <= ranges::surround_start(r)
            &&& ranges::surround_end(r, lines.len()) <= after.last().end_row
            &&& after.last().text == rows::rows_text(
                lines,
                after.last().start_row,
                after.last().end_row + 1,
            )
        }),
{
}

/// The snippets before the newest one are snippets from before the edit, unchanged and in order.
pub proof fn lemma_recorded_keeps_older(
    snippets: Seq<SnippetView>,
    file_path: Seq<char>,
    text: Seq<char>,
    edits: Seq<(Range<u32>, Range<u32>)>,
    cursor_row: int,
    limit: int,
)
    requires
        limit >= 0,
    ensures
        ({
            let after = recorded(snippets, file_path, text, edits, cursor_row, limit);
            after.len() > 0 ==> exists|from: int, to: int|
                0 <= from <= to <= snippets.len() && after.drop_last() == #[trigger] snippets.subrange(
                    from,
                    to,
                )
        }),
{
    let after = recorded(snippets, file_path, text, edits, cursor_row, limit);
    let n = after.len() - 1;
    if n >= 0 {
        let lines = rows::lines(text);
        let r = edited_range(edits, cursor_row);
        let first = ranges::surround_start(r);
        let last = ranges::surround_end(r, lines.len());
        let all = absorbed(snippets, file_path, first, last, lines);
        if has_rows(text, edits, cursor_row) {
            let to = all.len() - 1;
            assert(all.drop_last() == snippets.subrange(0, to));
            assert(after.drop_last() =~= snippets.subrange(to - n, to));
        } else {
            assert(after.drop_last() =~= snippets.subrange(0, snippets.len() - 1));
        }
    }
}

/// Where the cursor's row touches an edited range, the newest snippet shows that row.
pub proof fn lemma_recorded_shows_cursor(
    snippets: Seq<SnippetView>,
    file_path: Seq<char>,
    text: Seq<char>,
    edits: Seq<(Range<u32>, Range<u32>)>,
    cursor_row: int,
    limit: int,
    i: int,
)
    requires
        limit > 0,
        0 <= i < ranges::coalesced(edits).len(),
        ranges::touches_row(ranges::coalesced(edits)[i], cursor_row),
        cursor_row < rows::lines(text).len() <= u32::MAX,
    ensures
        has_rows(text, edits, cursor_row),
        ({
            let newest = recorded(
                snippets,
                file_path,
                text,
                edits,
                cursor_row,
                limit,
            ).last();
            newest.start_row <= cursor_row <= newest.end_row
        }),
{
    ranges::lemma_range_for_touches(ranges::coalesced(edits), cursor_row, i);
    lemma_recorded_newest(snippets, file_path, text, edits, cursor_row, limit);
}

/// What is remembered of an edit, in full. The edited range is kept with three rows on either side,
/// as far as the text has them. Where the newest snippet is of the same file and its rows overlap
/// these or are adjacent to them, it gives way to one snippet of both; otherwise they are a snippet
/// of their own. Either shows its rows as they stand in the text, each with a newline. Then the
/// oldest snippets give way until no more than `limit` are left.
pub proof fn lemma_recorded_in_full(
    snippets: Seq<SnippetView>,
    file_path: Seq<char>,
    text: Seq<char>,
    edits: Seq<(Range<u32>, Range<u32>)>,
    cursor_row: int,
    limit: int,
)
    requires
        0 < rows::lines(text).len() <= u32::MAX,
        well_formed(snippets),
        limit >= 0,
    ensures
        ({
            let lines = rows::lines(text);
            let n = lines.len() as int;
            let range = ranges::range_for(ranges::coalesced(edits), cursor_row);
            let first = vstd::math::max(range.start - 3, 0);
            let last = vstd::math::min(range.end + 3, n - 1);
            let after = recorded(snippets, file_path, text, edits, cursor_row, limit);
            if first > last {
                after == snippets
            } else {
                let newest = snippets[snippets.len() - 1];
                let joins = snippets.len() > 0 && newest.file_path == file_path && first
                    <= newest.end_row + 1 && newest.start_row <= last + 1;
                let older = if joins {
                    snippets.take(snippets.len() - 1)
                } else {
                    snippets
                };
                let from = if joins {
                    vstd::math::min(first, newest.start_row)
                } else {
                    first
                };
                let to = if joins {
                    vstd::math::max(last, newest.end_row)
                } else {
                    last
                };
                &&& after.len() == vstd::math::min(limit, older.len() as int + 1)
                &&& after.len() > 0 ==> {
                    &&& after.last().file_path == file_path
                    &&& after.last().start_row == from
                    &&& after.last().end_row == to
                    &&& after.last().text == rows::ended(
                        lines.subrange(
                            vstd::math::min(from, n),
                            vstd::math::min(to + 1, n),
                        ),
                    ).flatten()
                    &&& after.drop_last() == older.skip(older.len() - (after.len() - 1))
                }
            }
        }),
{
    let lines = rows::lines(text);
    let n = lines.len() as int;
    let range = ranges::range_for(ranges::coalesced(edits), cursor_row);
    let first = vstd::math::max(range.start - 3, 0);
    let last = vstd::math::min(range.end + 3, n - 1);
    let after = recorded(snippets, file_path, text, edits, cursor_row, limit);
    ranges::lemma_surround_keeps_three_rows(range, lines.len());
    if first <= last {
        let newest = snippets[snippets.len() - 1];
        let joins = snippets.len() > 0 && newest.file_path == file_path && first
            <= newest.end_row + 1 && newest.start_row <= last + 1;
        let all = absorbed(snippets, file_path, first, last, lines);
        if joins {
            assert(newest == snippets.last());
            let from = vstd::math::min(first, newest.start_row);
            let to = vstd::math::max(last, newest.end_row);
            rows::lemma_rows_text_is_each_row(lines, from, to + 1);
            assert(all.drop_last() =~= snippets.take(snippets.len() - 1));
        } else {
            rows::lemma_rows_text_is_each_row(lines, first, last + 1);
            assert(all.drop_last() =~= snippets);
        }
        if after.len() > 0 {
            let older = all.drop_last();
            assert(after.last() == all.last());
            assert(after.drop_last() =~= older.skip(older.len() - (after.len() - 1)));
        }
    }
}

} // verus!
