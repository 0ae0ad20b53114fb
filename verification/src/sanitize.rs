//! Cleaning what a model has generated: prompt markers, text that repeats what stands around the
//! cursor, and echoes of the context.

use vstd::prelude::*;

use crate::removal;
use crate::rows;
use crate::text;

verus! {

/// The markers that a prompt puts around the text before and after the cursor.
pub open spec fn markers() -> Seq<Seq<char>> {
    seq!["[PREFIX]"@, "[/PREFIX]"@, "[SUFFIX]"@, "[/SUFFIX]"@]
}

/// The number of characters before the cursor that a completion is held against for repetition.
pub const TAIL_MAX_CHARS: usize = 80;

/// The number of characters on either side of the cursor that count as one echo.
pub const EDGE_CHARS: usize = 200;

/// The number of bytes from which a line of context, or its edge at the cursor, counts as an echo.
pub const ECHO_MIN_BYTES: usize = 40;

/// The last `n` characters of `before` are the first `n` of `generated`.
pub open spec fn overlaps(before: Seq<char>, generated: Seq<char>, n: int) -> bool {
    &&& 0 <= n <= before.len()
    &&& n <= generated.len()
    &&& before.skip(before.len() - n) == generated.take(n)
}

/// The largest overlap of no more than `n` characters.
pub open spec fn overlap_within(before: Seq<char>, generated: Seq<char>, n: int) -> int
    decreases n,
{
    if n <= 0 {
        0
    } else if overlaps(before, generated, n) {
        n
    } else {
        overlap_within(before, generated, n - 1)
    }
}

/// The length of the longest end of `before` that `generated` starts with.
pub open spec fn overlap(before: Seq<char>, generated: Seq<char>) -> int {
    overlap_within(before, generated, before.len() as int)
}

/// The overlap is one, and no longer one is.
pub proof fn lemma_overlap_is_longest(before: Seq<char>, generated: Seq<char>, n: int)
    ensures
        overlaps(before, generated, overlap(before, generated)),
        overlaps(before, generated, n) ==> n <= overlap(before, generated),
{
    lemma_overlap_within(before, generated, before.len() as int, n);
}

proof fn lemma_overlap_within(before: Seq<char>, generated: Seq<char>, bound: int, n: int)
    requires
        0 <= bound <= before.len(),
    ensures
        overlaps(before, generated, overlap_within(before, generated, bound)),
        overlap_within(before, generated, bound) <= bound,
        n <= bound && overlaps(before, generated, n) ==> n <= overlap_within(
            before,
            generated,
            bound,
        ),
    decreases bound,
{
    if bound > 0 && !overlaps(before, generated, bound) {
        lemma_overlap_within(before, generated, bound - 1, n);
    } else if bound == 0 {
        assert(before.skip(before.len() as int) =~= generated.take(0));
    }
}

/// The number of characters that `a` and `b` start with in common.
pub open spec fn common_start(a: Seq<char>, b: Seq<char>) -> int
    decreases a.len(),
{
    if a.len() > 0 && b.len() > 0 && a[0] == b[0] {
        1 + common_start(a.drop_first(), b.drop_first())
    } else {
        0
    }
}

/// Both texts start with their common start, and where both go on they differ.
pub proof fn lemma_common_start(a: Seq<char>, b: Seq<char>)
    ensures
        0 <= common_start(a, b) <= a.len(),
        common_start(a, b) <= b.len(),
        a.take(common_start(a, b)) == b.take(common_start(a, b)),
        common_start(a, b) < a.len() && common_start(a, b) < b.len() ==> a[common_start(a, b)]
            != b[common_start(a, b)],
    decreases a.len(),
{
    if a.len() > 0 && b.len() > 0 && a[0] == b[0] {
        lemma_common_start(a.drop_first(), b.drop_first());
        let n = common_start(a, b);
        assert forall|i: int| 0 <= i < n implies a.take(n)[i] == b.take(n)[i] by {
            if i > 0 {
                assert(a.drop_first().take(n - 1)[i - 1] == b.drop_first().take(n - 1)[i - 1]);
            }
        }
        assert(a.take(n) =~= b.take(n));
    } else {
        assert(a.take(0) =~= b.take(0));
    }
}

/// The rows that are long enough to be echoes, without the white space at their ends.
pub open spec fn long_lines(lines: Seq<Seq<char>>) -> Seq<Seq<char>>
    decreases lines.len(),
{
    if lines.len() == 0 {
        Seq::empty()
    } else {
        let line = text::trimmed_end(lines.last());
        if text::byte_len(line) >= ECHO_MIN_BYTES {
            long_lines(lines.drop_last()).push(line)
        } else {
            long_lines(lines.drop_last())
        }
    }
}

/// The echoes to look for on one side of the cursor: the edge at the cursor, where there is enough
/// to it, and the long lines.
pub open spec fn side_echoes(edge: Seq<char>, side: Seq<char>) -> Seq<Seq<char>> {
    let at_edge = if text::byte_len(text::trimmed(edge)) >= ECHO_MIN_BYTES {
        seq![edge]
    } else {
        Seq::empty()
    };
    at_edge + long_lines(rows::lines(side))
}

/// `found` with `echo` behind it, unless it is there already.
pub open spec fn with_echo(found: Seq<Seq<char>>, echo: Seq<char>) -> Seq<Seq<char>> {
    if found.contains(echo) {
        found
    } else {
        found.push(echo)
    }
}

/// Each of `all` once, in the order of first occurrence.
pub open spec fn distinct(all: Seq<Seq<char>>) -> Seq<Seq<char>>
    decreases all.len(),
{
    if all.len() == 0 {
        Seq::empty()
    } else {
        with_echo(distinct(all.drop_last()), all.last())
    }
}

/// The echoes to look for around a cursor between `prefix` and `suffix`, each once.
pub open spec fn echoes(prefix: Seq<char>, suffix: Seq<char>) -> Seq<Seq<char>> {
    distinct(
        side_echoes(text::tail(prefix, EDGE_CHARS as int), prefix) + side_echoes(
            text::head(suffix, EDGE_CHARS as int),
            suffix,
        ),
    )
}

/// What is left of `generated` between `prefix` and `suffix`: first the markers go, then what it
/// repeats of the end of `before`, then what it anticipates of `suffix`, then the echoes.
pub open spec fn sanitized(
    generated: Seq<char>,
    prefix: Seq<char>,
    suffix: Seq<char>,
    before: Seq<char>,
) -> Seq<char> {
    let unmarked = removal::without_each(generated, markers());
    let fresh = unmarked.skip(overlap(before, unmarked));
    let inserted = fresh.skip(common_start(fresh, suffix));
    removal::without_each(inserted, echoes(prefix, suffix))
}

/// The markers, in the order in which they are removed.
pub fn marker_strings() -> (r: Vec<String>)
    ensures
        text::views(r@) == markers(),
{
    let r = vec![
        "[PREFIX]".to_owned(),
        "[/PREFIX]".to_owned(),
        "[SUFFIX]".to_owned(),
        "[/SUFFIX]".to_owned(),
    ];
    assert(text::views(r@) =~= markers());
    r
}

/// The length of the longest end of `before` that `generated` starts with, in characters.
fn overlap_of(before: &Vec<char>, generated: &Vec<char>) -> (n: usize)
    ensures
        n == overlap(before@, generated@),
        n <= generated.len(),
{
    let mut n: usize = before.len();
    while n > 0
        invariant
            n <= before.len(),
            overlap(before@, generated@) == overlap_within(before@, generated@, n as int),
        decreases n,
    {
        if n <= generated.len() {
            let from = before.len() - n;
            let mut i: usize = 0;
            while i < n && before[from + i] == generated[i]
                invariant
                    i <= n <= generated.len(),
                    from + n == before.len(),
                    forall|j: int| 0 <= j < i ==> before@[from + j] == #[trigger] generated@[j],
                decreases n - i,
            {
                i += 1;
            }
            if i == n {
                assert(before@.skip(from as int) =~= generated@.take(n as int));
                return n;
            }
            assert(before@.skip(from as int)[i as int] != generated@.take(n as int)[i as int]);
        }
        n -= 1;
    }
    0
}

/// The number of characters that `a` and `b` start with in common.
fn common_start_of(a: &Vec<char>, b: &Vec<char>) -> (n: usize)
    ensures
        n == common_start(a@, b@),
        n <= a.len(),
{
    let mut n: usize = 0;
    assert(a@.skip(0) == a@);
    assert(b@.skip(0) == b@);
    while n < a.len() && n < b.len() && a[n] == b[n]
        invariant
            n <= a.len(),
            n <= b.len(),
            common_start(a@, b@) == n + common_start(a@.skip(n as int), b@.skip(n as int)),
        decreases a.len() - n,
    {
        assert(a@.skip(n as int).drop_first() == a@.skip(n + 1));
        assert(b@.skip(n as int).drop_first() == b@.skip(n + 1));
        n += 1;
    }
    n
}

/// Adds an echo unless it is there already.
fn add_echo(found: &mut Vec<String>, echo: String)
    ensures
        text::views(final(found)@) == with_echo(text::views(old(found)@), echo@),
{
    let ghost before = text::views(found@);
    let mut i: usize = 0;
    while i < found.len()
        invariant
            i <= found.len(),
            before == text::views(found@),
            forall|j: int| 0 <= j < i ==> #[trigger] before[j] != echo@,
        decreases found.len() - i,
    {
        assert(before[i as int] == found@[i as int]@);
        if found[i] == echo {
            return;
        }
        i += 1;
    }
    found.push(echo);
    assert(text::views(found@) =~= before.push(echo@));
}

/// Adds the echoes of one side of the cursor to those found.
fn add_side_echoes(found: &mut Vec<String>, edge: String, side: &str, Ghost(all): Ghost<
    Seq<Seq<char>>,
>)
    requires
        text::views(old(found)@) == distinct(all),
    ensures
        text::views(final(found)@) == distinct(all + side_echoes(edge@, side@)),
{
    let ghost mut so_far = all;
    let trimmed = text::chars_of(text::trim(edge.as_str()).as_str());
    assert(trimmed@.subrange(0, trimmed.len() as int) == trimmed@);
    let ghost at_edge = if text::byte_len(text::trimmed(edge@)) >= ECHO_MIN_BYTES {
        seq![edge@]
    } else {
        Seq::empty()
    };
    if text::at_least_bytes(&trimmed, 0, trimmed.len(), ECHO_MIN_BYTES) {
        proof {
            so_far = all.push(edge@);
            assert(so_far.drop_last() == all);
            assert(so_far =~= all + at_edge);
        }
        add_echo(found, edge);
    }
    assert(so_far =~= all + at_edge);
    let chars = text::chars_of(side);
    let starts = rows::row_starts(&chars);
    let ghost lines = rows::lines(side@);
    let mut row: usize = 0;
    assert(lines.take(0) == Seq::<Seq<char>>::empty());
    assert(so_far + long_lines(lines.take(0)) =~= so_far);
    while row < starts.len()
        invariant
            row <= starts.len(),
            chars@ == side@,
            lines == rows::lines(side@),
            starts.len() == lines.len(),
            forall|i: int| 0 <= i < starts.len() ==> #[trigger] starts@[i] == rows::row_start(lines, i),
            text::views(found@) == distinct(so_far + long_lines(lines.take(row as int))),
        decreases starts.len() - row,
    {
        proof {
            rows::lemma_lines(side@);
            assert(rows::row_stands(side@, lines, row as int));
            assert(lines.take(row + 1).drop_last() == lines.take(row as int));
            assert(lines.take(row + 1).last() == lines[row as int]);
            if row + 1 < starts.len() {
                assert(starts@[row + 1] == rows::row_start(lines, row + 1));
            }
        }
        let end = if row + 1 < starts.len() {
            starts[row + 1] - 1
        } else {
            chars.len()
        };
        let cut = text::end_without_white_space(&chars, starts[row], end);
        if text::at_least_bytes(&chars, starts[row], cut, ECHO_MIN_BYTES) {
            let line = text::substring(&chars, starts[row], cut);
            proof {
                let longer = so_far + long_lines(lines.take(row + 1));
                assert(longer =~= (so_far + long_lines(lines.take(row as int))).push(line@));
                assert(longer.drop_last() =~= so_far + long_lines(lines.take(row as int)));
            }
            add_echo(found, line);
        }
        row += 1;
    }
    proof {
        assert(lines.take(starts.len() as int) == lines);
        assert(so_far + long_lines(lines) =~= all + side_echoes(edge@, side@));
    }
}

/// The echoes to look for around a cursor between `prefix` and `suffix`.
pub fn echo_candidates(prefix: &str, suffix: &str) -> (found: Vec<String>)
    ensures
        text::views(found@) == echoes(prefix@, suffix@),
{
    let mut found: Vec<String> = Vec::new();
    let ghost none = Seq::<Seq<char>>::empty();
    assert(text::views(found@) =~= none);
    let tail = text::tail_of(prefix, EDGE_CHARS);
    add_side_echoes(&mut found, tail, prefix, Ghost(none));
    let head = text::head_of(suffix, EDGE_CHARS);
    let ghost before_cursor = side_echoes(text::tail(prefix@, EDGE_CHARS as int), prefix@);
    assert(none + before_cursor =~= before_cursor);
    add_side_echoes(&mut found, head, suffix, Ghost(before_cursor));
    found
}

/// Cleans what a model generated between `prefix` and `suffix`, held against `before`, the text
/// just before the cursor, for repetition.
pub fn sanitize(generated: String, prefix: &str, suffix: &str, before: &str) -> (r: String)
    ensures
        r@ == sanitized(generated@, prefix@, suffix@, before@),
{
    let unmarked = text::chars_of(removal::remove_each(generated, &marker_strings()).as_str());
    let repeated = overlap_of(&text::chars_of(before), &unmarked);
    let fresh = text::chars_of(
        text::substring(&unmarked, repeated, unmarked.len()).as_str(),
    );
    let anticipated = common_start_of(&fresh, &text::chars_of(suffix));
    let inserted = text::substring(&fresh, anticipated, fresh.len());
    removal::remove_each(inserted, &echo_candidates(prefix, suffix))
}

/// The positions of `generated` that [`sanitized`] leaves.
pub open spec fn kept_sanitized(
    generated: Seq<char>,
    prefix: Seq<char>,
    suffix: Seq<char>,
    before: Seq<char>,
) -> Seq<int> {
    let unmarked = removal::without_each(generated, markers());
    let repeated = overlap(before, unmarked);
    let fresh = unmarked.skip(repeated);
    let inserted = fresh.skip(common_start(fresh, suffix));
    removal::kept_in_turn(
        removal::kept_in_turn(
            removal::kept_without_each(generated, markers()),
            Seq::new(inserted.len(), |i: int| i + unmarked.len() - inserted.len()),
        ),
        removal::kept_without_each(inserted, echoes(prefix, suffix)),
    )
}

/// Cleaning only takes characters away: what it leaves is left of what was generated, in order.
pub proof fn lemma_sanitized_only_removes(
    generated: Seq<char>,
    prefix: Seq<char>,
    suffix: Seq<char>,
    before: Seq<char>,
)
    ensures
        removal::left_of(
            sanitized(generated, prefix, suffix, before),
            generated,
            kept_sanitized(generated, prefix, suffix, before),
        ),
{
    lemma_sanitized_kept(generated, prefix, suffix, before);
}

/// No marker that the model wrote comes through whole: what is left may spell one again only where
/// removal has joined the parts of it.
pub proof fn lemma_no_marker_comes_through(
    generated: Seq<char>,
    prefix: Seq<char>,
    suffix: Seq<char>,
    before: Seq<char>,
    m: int,
    at: int,
)
    requires
        0 <= m < markers().len(),
        removal::occurs_at(generated, markers()[m], at),
    ensures
        !removal::survives(
            kept_sanitized(generated, prefix, suffix, before),
            at,
            markers()[m].len() as int,
        ),
{
    lemma_sanitized_kept(generated, prefix, suffix, before);
    lemma_markers_not_empty(m);
    let n = markers()[m].len() as int;
    let kept = kept_sanitized(generated, prefix, suffix, before);
    removal::lemma_no_occurrence_survives(generated, markers(), m, at);
    if removal::survives(kept, at, n) {
        let i = choose|i: int| #[trigger] removal::survives_from(kept, i, at, n);
        let j = lemma_sanitized_from_unmarked(generated, prefix, suffix, before, i, at, n);
        assert(removal::survives_from(removal::kept_without_each(generated, markers()), j, at, n));
    }
}

proof fn lemma_markers_not_empty(m: int)
    requires
        0 <= m < markers().len(),
    ensures
        markers()[m].len() > 0,
{
    reveal_strlit("[PREFIX]");
    reveal_strlit("[/PREFIX]");
    reveal_strlit("[SUFFIX]");
    reveal_strlit("[/SUFFIX]");
}

/// The parts of [`kept_sanitized`]: what the markers leave of the generated text, and what the two
/// cuts at the start leave of that.
proof fn lemma_sanitized_kept(
    generated: Seq<char>,
    prefix: Seq<char>,
    suffix: Seq<char>,
    before: Seq<char>,
)
    ensures
        ({
            let unmarked = removal::without_each(generated, markers());
            let fresh = unmarked.skip(overlap(before, unmarked));
            let inserted = fresh.skip(common_start(fresh, suffix));
            let marked = removal::kept_without_each(generated, markers());
            let cut = Seq::new(inserted.len(), |i: int| i + unmarked.len() - inserted.len());
            let echoed = removal::kept_without_each(inserted, echoes(prefix, suffix));
            &&& removal::left_of(unmarked, generated, marked)
            &&& removal::left_of(inserted, unmarked, cut)
            &&& removal::left_of(inserted, generated, removal::kept_in_turn(marked, cut))
            &&& removal::left_of(sanitized(generated, prefix, suffix, before), inserted, echoed)
            &&& removal::left_of(
                sanitized(generated, prefix, suffix, before),
                generated,
                kept_sanitized(generated, prefix, suffix, before),
            )
        }),
{
    let unmarked = removal::without_each(generated, markers());
    lemma_overlap_is_longest(before, unmarked, 0);
    let fresh = unmarked.skip(overlap(before, unmarked));
    lemma_common_start(fresh, suffix);
    let inserted = fresh.skip(common_start(fresh, suffix));
    let marked = removal::kept_without_each(generated, markers());
    let cut = Seq::new(inserted.len(), |i: int| i + unmarked.len() - inserted.len());
    let echoed = removal::kept_without_each(inserted, echoes(prefix, suffix));
    removal::lemma_without_each_leaves(generated, markers());
    assert(removal::left_of(inserted, unmarked, cut));
    removal::lemma_kept_in_turn(inserted, unmarked, generated, marked, cut);
    removal::lemma_without_each_leaves(inserted, echoes(prefix, suffix));
    removal::lemma_kept_in_turn(
        sanitized(generated, prefix, suffix, before),
        inserted,
        generated,
        removal::kept_in_turn(marked, cut),
        echoed,
    );
}

proof fn lemma_sanitized_from_unmarked(
    generated: Seq<char>,
    prefix: Seq<char>,
    suffix: Seq<char>,
    before: Seq<char>,
    i: int,
    at: int,
    n: int,
) -> (j: int)
    requires
        n > 0,
        removal::survives_from(kept_sanitized(generated, prefix, suffix, before), i, at, n),
    ensures
        removal::survives_from(removal::kept_without_each(generated, markers()), j, at, n),
{
    lemma_sanitized_kept(generated, prefix, suffix, before);
    let unmarked = removal::without_each(generated, markers());
    let fresh = unmarked.skip(overlap(before, unmarked));
    let inserted = fresh.skip(common_start(fresh, suffix));
    let marked = removal::kept_without_each(generated, markers());
    let cut = Seq::new(inserted.len(), |i: int| i + unmarked.len() - inserted.len());
    let echoed = removal::kept_without_each(inserted, echoes(prefix, suffix));
    removal::lemma_kept_in_turn(
        sanitized(generated, prefix, suffix, before),
        inserted,
        generated,
        removal::kept_in_turn(marked, cut),
        echoed,
    );
    assert(removal::survives_from(removal::kept_in_turn(marked, cut), echoed[i], at, n));
    removal::lemma_kept_in_turn(inserted, unmarked, generated, marked, cut);
    cut[echoed[i]]
}

/// No echo that the model wrote comes through whole either.
pub proof fn lemma_no_echo_comes_through(
    generated: Seq<char>,
    prefix: Seq<char>,
    suffix: Seq<char>,
    before: Seq<char>,
    e: int,
    at: int,
)
    requires
        0 <= e < echoes(prefix, suffix).len(),
        removal::occurs_at(generated, echoes(prefix, suffix)[e], at),
    ensures
        !removal::survives(
            kept_sanitized(generated, prefix, suffix, before),
            at,
            echoes(prefix, suffix)[e].len() as int,
        ),
{
    lemma_sanitized_kept(generated, prefix, suffix, before);
    lemma_echoes_are_context(prefix, suffix);
    let echo = echoes(prefix, suffix)[e];
    let n = echo.len() as int;
    let unmarked = removal::without_each(generated, markers());
    let fresh = unmarked.skip(overlap(before, unmarked));
    let inserted = fresh.skip(common_start(fresh, suffix));
    let marked = removal::kept_without_each(generated, markers());
    let cut = Seq::new(inserted.len(), |i: int| i + unmarked.len() - inserted.len());
    let outer = removal::kept_in_turn(marked, cut);
    let inner = removal::kept_without_each(inserted, echoes(prefix, suffix));
    let kept = kept_sanitized(generated, prefix, suffix, before);
    if removal::survives(kept, at, n) {
        let i = choose|i: int| #[trigger] removal::survives_from(kept, i, at, n);
        removal::lemma_kept_in_turn(
            sanitized(generated, prefix, suffix, before),
            inserted,
            generated,
            outer,
            inner,
        );
        assert(text::byte_len(Seq::<char>::empty()) == 0);
        assert(n > 0) by {
            if n == 0 {
                assert(echo =~= Seq::empty());
            }
        }
        let k = inner[i];
        assert(removal::survives_from(inner, i, k, n));
        assert(removal::survives_from(outer, k, at, n));
        assert(inserted.subrange(k, k + n) =~= echo) by {
            assert forall|m: int| 0 <= m < n implies inserted.subrange(k, k + n)[m] == echo[m] by {
                assert(outer[k + m] == at + m);
                assert(inserted[k + m] == generated[outer[k + m]]);
                assert(generated.subrange(at, at + n)[m] == generated[at + m]);
            }
        }
        assert(removal::occurs_at(inserted, echo, k));
        removal::lemma_no_occurrence_survives(inserted, echoes(prefix, suffix), e, k);
        assert(removal::survives(inner, k, n));
    }
}

/// All that is cut from the start of the unmarked text stands there already: first the end of what
/// stands before the cursor, then the start of what stands behind it.
pub proof fn lemma_cuts_stand_at_cursor(
    unmarked: Seq<char>,
    suffix: Seq<char>,
    before: Seq<char>,
)
    ensures
        ({
            let repeated = overlap(before, unmarked);
            let fresh = unmarked.skip(repeated);
            let anticipated = common_start(fresh, suffix);
            &&& 0 <= repeated <= before.len()
            &&& 0 <= anticipated <= suffix.len()
            &&& unmarked == before.skip(before.len() - repeated) + suffix.take(anticipated)
                + fresh.skip(anticipated)
        }),
{
    let repeated = overlap(before, unmarked);
    lemma_overlap_is_longest(before, unmarked, 0);
    let fresh = unmarked.skip(repeated);
    lemma_common_start(fresh, suffix);
    let anticipated = common_start(fresh, suffix);
    assert(fresh =~= fresh.take(anticipated) + fresh.skip(anticipated));
    assert(unmarked =~= unmarked.take(repeated) + fresh);
    assert(unmarked =~= unmarked.take(repeated) + fresh.take(anticipated) + fresh.skip(
        anticipated,
    ));
}

/// Text without markers, that repeats nothing of what stands before the cursor, starts unlike what
/// stands behind it and holds no echo, is left as it is.
pub proof fn lemma_sanitized_leaves_fresh_text(
    generated: Seq<char>,
    prefix: Seq<char>,
    suffix: Seq<char>,
    before: Seq<char>,
)
    requires
        forall|i: int|
            0 <= i < markers().len() ==> !removal::occurs(generated, #[trigger] markers()[i]),
        forall|n: int| n > 0 ==> !overlaps(before, generated, n),
        generated.len() > 0 && suffix.len() > 0 ==> generated[0] != suffix[0],
        forall|i: int|
            0 <= i < echoes(prefix, suffix).len() ==> !removal::occurs(
                generated,
                #[trigger] echoes(prefix, suffix)[i],
            ),
    ensures
        sanitized(generated, prefix, suffix, before) == generated,
{
    removal::lemma_without_each_absent(generated, markers());
    lemma_overlap_is_longest(before, generated, 0);
    assert(generated.skip(0) =~= generated);
    removal::lemma_without_each_absent(generated, echoes(prefix, suffix));
}

/// Every echo to look for is verbatim context of at least [`ECHO_MIN_BYTES`] bytes, and none is
/// listed twice.
pub proof fn lemma_echoes_are_context(prefix: Seq<char>, suffix: Seq<char>)
    ensures
        echoes(prefix, suffix).no_duplicates(),
        forall|i: int|
            0 <= i < echoes(prefix, suffix).len() ==> {
                let echo = #[trigger] echoes(prefix, suffix)[i];
                &&& text::byte_len(echo) >= ECHO_MIN_BYTES
                &&& removal::occurs(prefix, echo) || removal::occurs(suffix, echo)
            },
{
    let tail = text::tail(prefix, EDGE_CHARS as int);
    let head = text::head(suffix, EDGE_CHARS as int);
    let at = if prefix.len() > EDGE_CHARS {
        prefix.len() - EDGE_CHARS
    } else {
        0
    };
    assert(prefix.subrange(at, at + tail.len()) =~= tail);
    assert(suffix.subrange(0, head.len() as int) =~= head);
    lemma_side_echoes(tail, prefix, at);
    lemma_side_echoes(head, suffix, 0);
    let all = side_echoes(tail, prefix) + side_echoes(head, suffix);
    lemma_distinct(all);
    assert forall|i: int| 0 <= i < echoes(prefix, suffix).len() implies {
        let echo = #[trigger] echoes(prefix, suffix)[i];
        &&& text::byte_len(echo) >= ECHO_MIN_BYTES
        &&& removal::occurs(prefix, echo) || removal::occurs(suffix, echo)
    } by {
        let echo = echoes(prefix, suffix)[i];
        assert(distinct(all).contains(echo));
        assert(all.contains(echo));
        let k = choose|k: int| 0 <= k < all.len() && all[k] == echo;
        let n = side_echoes(tail, prefix).len();
        if k < n {
            assert(side_echoes(tail, prefix)[k] == echo);
        } else {
            assert(side_echoes(head, suffix)[k - n] == echo);
        }
    }
}

proof fn lemma_distinct(all: Seq<Seq<char>>)
    ensures
        distinct(all).no_duplicates(),
        forall|e: Seq<char>| distinct(all).contains(e) <==> #[trigger] all.contains(e),
    decreases all.len(),
{
    if all.len() > 0 {
        let t = all.drop_last();
        let before = distinct(t);
        lemma_distinct(t);
        assert forall|e: Seq<char>| distinct(all).contains(e) <==> #[trigger] all.contains(e) by {
            assert(before.contains(e) <==> t.contains(e));
            if all.contains(e) {
                let k = choose|k: int| 0 <= k < all.len() && all[k] == e;
                if k < t.len() {
                    assert(t[k] == e);
                    let m = choose|m: int| 0 <= m < before.len() && before[m] == e;
                    assert(distinct(all)[m] == e);
                } else {
                    assert(e == all.last());
                    if !before.contains(e) {
                        assert(distinct(all)[before.len() as int] == e);
                    }
                }
            }
            if distinct(all).contains(e) {
                let m = choose|m: int| 0 <= m < distinct(all).len() && distinct(all)[m] == e;
                if m < before.len() {
                    assert(before[m] == e);
                    let k = choose|k: int| 0 <= k < t.len() && t[k] == e;
                    assert(all[k] == e);
                } else {
                    assert(all[all.len() - 1] == e);
                }
            }
        }
    }
}

proof fn lemma_side_echoes(edge: Seq<char>, side: Seq<char>, at: int)
    requires
        removal::occurs_at(side, edge, at),
    ensures
        forall|i: int|
            0 <= i < side_echoes(edge, side).len() ==> {
                let echo = #[trigger] side_echoes(edge, side)[i];
                &&& text::byte_len(echo) >= ECHO_MIN_BYTES
                &&& removal::occurs(side, echo)
            },
{
    let lines = rows::lines(side);
    rows::lemma_lines(side);
    lemma_long_lines(side, lines.len() as int);
    assert(lines.take(lines.len() as int) == lines);
    text::lemma_trimmed_no_longer(edge);
    assert forall|i: int| 0 <= i < side_echoes(edge, side).len() implies {
        let echo = #[trigger] side_echoes(edge, side)[i];
        &&& text::byte_len(echo) >= ECHO_MIN_BYTES
        &&& removal::occurs(side, echo)
    } by {
        let n = side_echoes(edge, side).len() - long_lines(lines).len();
        if i >= n {
            assert(side_echoes(edge, side)[i] == long_lines(lines)[i - n]);
        }
    }
}

proof fn lemma_long_lines(side: Seq<char>, n: int)
    requires
        0 <= n <= rows::lines(side).len(),
    ensures
        forall|i: int|
            0 <= i < long_lines(rows::lines(side).take(n)).len() ==> {
                let echo = #[trigger] long_lines(rows::lines(side).take(n))[i];
                &&& text::byte_len(echo) >= ECHO_MIN_BYTES
                &&& removal::occurs(side, echo)
            },
    decreases n,
{
    let lines = rows::lines(side);
    if n > 0 {
        lemma_long_lines(side, n - 1);
        assert(lines.take(n).drop_last() == lines.take(n - 1));
        assert(lines.take(n).last() == lines[n - 1]);
        rows::lemma_lines(side);
        assert(rows::row_stands(side, lines, n - 1));
        let line = lines[n - 1];
        let from = rows::row_start(lines, n - 1);
        let cut = text::trimmed_end(line);
        text::lemma_trimmed_end_prefix(line);
        assert(side.subrange(from, from + cut.len()) =~= line.take(cut.len() as int));
        assert(removal::occurs_at(side, cut, from));
        let found = long_lines(lines.take(n));
        let above = long_lines(lines.take(n - 1));
        assert forall|i: int| 0 <= i < found.len() implies {
            let echo = #[trigger] found[i];
            &&& text::byte_len(echo) >= ECHO_MIN_BYTES
            &&& removal::occurs(side, echo)
        } by {
            if i < above.len() {
                assert(found[i] == above[i]);
            }
        }
    }
}

/// Cleaning, step by step. Without the four markers, each removed from what the one before it
/// leaves, the text falls into three parts: the longest beginning that ends what stands before the
/// cursor, then the longest one that starts what stands behind it, and the rest. The rest without
/// the echoes is what is left.
pub proof fn lemma_sanitized_parts(
    generated: Seq<char>,
    prefix: Seq<char>,
    suffix: Seq<char>,
    before: Seq<char>,
) -> (parts: (Seq<char>, Seq<char>, Seq<char>))
    ensures
        ({
            let unmarked = removal::without(
                removal::without(
                    removal::without(removal::without(generated, "[PREFIX]"@), "[/PREFIX]"@),
                    "[SUFFIX]"@,
                ),
                "[/SUFFIX]"@,
            );
            let (repeated, anticipated, rest) = parts;
            &&& unmarked == repeated + anticipated + rest
            &&& repeated.is_suffix_of(before)
            &&& forall|longer: Seq<char>| #[trigger]
                longer.is_suffix_of(before) && longer.is_prefix_of(unmarked) ==> longer.len()
                    <= repeated.len()
            &&& anticipated.is_prefix_of(suffix)
            &&& rest.len() > 0 && anticipated.len() < suffix.len() ==> rest[0]
                != suffix[anticipated.len() as int]
            &&& sanitized(generated, prefix, suffix, before) == removal::without_each(
                rest,
                echoes(prefix, suffix),
            )
        }),
{
    let unmarked = removal::without_each(generated, markers());
    lemma_markers_in_turn(generated);
    let n = overlap(before, unmarked);
    lemma_overlap_is_longest(before, unmarked, 0);
    let repeated = unmarked.take(n);
    let fresh = unmarked.skip(n);
    let m = common_start(fresh, suffix);
    lemma_common_start(fresh, suffix);
    let anticipated = fresh.take(m);
    let rest = fresh.skip(m);
    assert(unmarked =~= repeated + anticipated + rest);
    assert(before.subrange(before.len() - n, before.len() as int) =~= before.skip(
        before.len() - n,
    ));
    assert(suffix.subrange(0, m) =~= suffix.take(m));
    assert forall|longer: Seq<char>| #[trigger]
        longer.is_suffix_of(before) && longer.is_prefix_of(unmarked) implies longer.len()
        <= repeated.len() by {
        let k = longer.len() as int;
        assert(before.skip(before.len() - k) =~= before.subrange(
            before.len() - k,
            before.len() as int,
        ));
        assert(unmarked.take(k) =~= unmarked.subrange(0, k));
        lemma_overlap_is_longest(before, unmarked, k);
    }
    (repeated, anticipated, rest)
}

proof fn lemma_markers_in_turn(generated: Seq<char>)
    ensures
        removal::without_each(generated, markers()) == removal::without(
            removal::without(
                removal::without(removal::without(generated, "[PREFIX]"@), "[/PREFIX]"@),
                "[SUFFIX]"@,
            ),
            "[/SUFFIX]"@,
        ),
{
    let all = markers();
    assert(all.drop_last() =~= seq!["[PREFIX]"@, "[/PREFIX]"@, "[SUFFIX]"@]);
    assert(all.drop_last().drop_last() =~= seq!["[PREFIX]"@, "[/PREFIX]"@]);
    assert(all.drop_last().drop_last().drop_last() =~= seq!["[PREFIX]"@]);
    assert(all.drop_last().drop_last().drop_last().drop_last() =~= Seq::empty());
    reveal_with_fuel(removal::without_each, 5);
}

/// Every row of the context that takes at least forty bytes without the white space at its end
/// counts as an echo, however it starts.
pub proof fn lemma_long_rows_are_echoes(prefix: Seq<char>, suffix: Seq<char>, row: int)
    ensures
        0 <= row < rows::lines(prefix).len() && text::byte_len(
            text::trimmed_end(rows::lines(prefix)[row]),
        ) >= 40 ==> echoes(prefix, suffix).contains(text::trimmed_end(rows::lines(prefix)[row])),
        0 <= row < rows::lines(suffix).len() && text::byte_len(
            text::trimmed_end(rows::lines(suffix)[row]),
        ) >= 40 ==> echoes(prefix, suffix).contains(text::trimmed_end(rows::lines(suffix)[row])),
{
    let left = side_echoes(text::tail(prefix, EDGE_CHARS as int), prefix);
    let right = side_echoes(text::head(suffix, EDGE_CHARS as int), suffix);
    let all = left + right;
    lemma_distinct(all);
    if 0 <= row < rows::lines(prefix).len() {
        let echo = text::trimmed_end(rows::lines(prefix)[row]);
        if text::byte_len(echo) >= 40 {
            let k = lemma_long_line_listed(rows::lines(prefix), row);
            let n = left.len() - long_lines(rows::lines(prefix)).len();
            assert(left[n + k] == echo);
            assert(all[n + k] == echo);
            assert(all.contains(echo));
        }
    }
    if 0 <= row < rows::lines(suffix).len() {
        let echo = text::trimmed_end(rows::lines(suffix)[row]);
        if text::byte_len(echo) >= 40 {
            let k = lemma_long_line_listed(rows::lines(suffix), row);
            let n = right.len() - long_lines(rows::lines(suffix)).len();
            assert(right[n + k] == echo);
            assert(all[left.len() + n + k] == echo);
            assert(all.contains(echo));
        }
    }
}

proof fn lemma_long_line_listed(lines: Seq<Seq<char>>, row: int) -> (k: int)
    requires
        0 <= row < lines.len(),
        text::byte_len(text::trimmed_end(lines[row])) >= 40,
    ensures
        0 <= k < long_lines(lines).len(),
        long_lines(lines)[k] == text::trimmed_end(lines[row]),
    decreases lines.len(),
{
    if row < lines.len() - 1 {
        lemma_long_line_listed(lines.drop_last(), row)
    } else {
        long_lines(lines).len() - 1
    }
}

/// The last two hundred characters before the cursor, and the first two hundred behind it, count as
/// an echo each, where they take at least forty bytes without the white space around them.
pub proof fn lemma_edges_are_echoes(prefix: Seq<char>, suffix: Seq<char>)
    ensures
        text::byte_len(text::trimmed(text::tail(prefix, 200))) >= 40 ==> echoes(
            prefix,
            suffix,
        ).contains(text::tail(prefix, 200)),
        text::byte_len(text::trimmed(text::head(suffix, 200))) >= 40 ==> echoes(
            prefix,
            suffix,
        ).contains(text::head(suffix, 200)),
{
    let left = side_echoes(text::tail(prefix, 200), prefix);
    let right = side_echoes(text::head(suffix, 200), suffix);
    let all = left + right;
    lemma_distinct(all);
    if text::byte_len(text::trimmed(text::tail(prefix, 200))) >= 40 {
        assert(all[0] == text::tail(prefix, 200));
        assert(all.contains(text::tail(prefix, 200)));
    }
    if text::byte_len(text::trimmed(text::head(suffix, 200))) >= 40 {
        assert(all[left.len() as int] == text::head(suffix, 200));
        assert(all.contains(text::head(suffix, 200)));
    }
}

/// The long row of `side`, by its number, without the white space at its end.
pub open spec fn is_long_row(side: Seq<char>, row: int, echo: Seq<char>) -> bool {
    &&& 0 <= row < rows::lines(side).len()
    &&& echo == text::trimmed_end(rows::lines(side)[row])
    &&& text::byte_len(echo) >= 40
}

/// Nothing else counts as an echo: each is one of the two edges, or a long row.
pub proof fn lemma_echoes_are_edges_or_rows(prefix: Seq<char>, suffix: Seq<char>, i: int)
    requires
        0 <= i < echoes(prefix, suffix).len(),
    ensures
        ({
            let echo = echoes(prefix, suffix)[i];
            ||| echo == text::tail(prefix, 200) && text::byte_len(text::trimmed(echo)) >= 40
            ||| echo == text::head(suffix, 200) && text::byte_len(text::trimmed(echo)) >= 40
            ||| exists|row: int| is_long_row(prefix, row, echo)
            ||| exists|row: int| is_long_row(suffix, row, echo)
        }),
{
    let left = side_echoes(text::tail(prefix, 200), prefix);
    let right = side_echoes(text::head(suffix, 200), suffix);
    let all = left + right;
    lemma_distinct(all);
    let echo = echoes(prefix, suffix)[i];
    assert(distinct(all).contains(echo));
    assert(all.contains(echo));
    let k = choose|k: int| 0 <= k < all.len() && all[k] == echo;
    if k < left.len() {
        let long = long_lines(rows::lines(prefix));
        let n = left.len() - long.len();
        if k >= n {
            assert(long[k - n] == echo);
            let row = lemma_long_lines_are_rows(rows::lines(prefix), k - n);
            assert(is_long_row(prefix, row, echo));
        }
    } else {
        let long = long_lines(rows::lines(suffix));
        let n = right.len() - long.len();
        let j = k - left.len();
        assert(right[j] == echo);
        if j >= n {
            assert(long[j - n] == echo);
            let row = lemma_long_lines_are_rows(rows::lines(suffix), j - n);
            assert(is_long_row(suffix, row, echo));
        }
    }
}

proof fn lemma_long_lines_are_rows(lines: Seq<Seq<char>>, k: int) -> (row: int)
    requires
        0 <= k < long_lines(lines).len(),
    ensures
        0 <= row < lines.len(),
        long_lines(lines)[k] == text::trimmed_end(lines[row]),
        text::byte_len(long_lines(lines)[k]) >= 40,
    decreases lines.len(),
{
    if k < long_lines(lines.drop_last()).len() {
        lemma_long_lines_are_rows(lines.drop_last(), k)
    } else {
        lines.len() - 1
    }
}

} // verus!
