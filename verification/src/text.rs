//! Text as a sequence of characters: white space, UTF-8 lengths and substrings.

use vstd::prelude::*;

verus! {

/// A character with the Unicode property `White_Space`.
pub open spec fn is_white_space(c: char) -> bool {
    let u = c as u32;
    ||| 0x9 <= u <= 0xd
    ||| u == 0x20
    ||| u == 0x85
    ||| u == 0xa0
    ||| u == 0x1680
    ||| 0x2000 <= u <= 0x200a
    ||| u == 0x2028
    ||| u == 0x2029
    ||| u == 0x202f
    ||| u == 0x205f
    ||| u == 0x3000
}

/// `char::is_whitespace` tells whether a character has the Unicode property `White_Space`, that is,
/// whether it is one of the code points that [`is_white_space`] lists.
pub assume_specification[ char::is_whitespace ](c: char) -> (white: bool)
    ensures
        white == is_white_space(c),
;

/// `String::push` appends one character.
pub assume_specification[ String::push ](s: &mut String, c: char)
    ensures
        final(s)@ == old(s)@.push(c),
;

/// The characters of `s`, one by one.
pub fn chars_of(s: &str) -> (chars: Vec<char>)
    ensures
        chars@ == s@,
{
    let mut chars: Vec<char> = Vec::new();
    for c in iter: s.chars()
        invariant
            chars@ == s@.take(iter.index() as int),
            iter.seq() == s@,
    {
        chars.push(c);
    }
    assert(s@.take(s@.len() as int) == s@);
    chars
}

/// The characters at positions `from` up to but not including `to`, as a string.
pub fn substring(chars: &Vec<char>, from: usize, to: usize) -> (s: String)
    requires
        from <= to <= chars.len(),
    ensures
        s@ == chars@.subrange(from as int, to as int),
{
    let mut s = String::new();
    let mut i: usize = from;
    while i < to
        invariant
            from <= i <= to <= chars.len(),
            s@ == chars@.subrange(from as int, i as int),
        decreases to - i,
    {
        s.push(chars[i]);
        i += 1;
    }
    s
}

/// Nothing but white space.
pub open spec fn blank(s: Seq<char>) -> bool {
    forall|i: int| 0 <= i < s.len() ==> is_white_space(#[trigger] s[i])
}

/// `s` without the white space at its start.
pub open spec fn trimmed_start(s: Seq<char>) -> Seq<char>
    decreases s.len(),
{
    if s.len() > 0 && is_white_space(s[0]) {
        trimmed_start(s.drop_first())
    } else {
        s
    }
}

/// `s` without the white space at its end.
pub open spec fn trimmed_end(s: Seq<char>) -> Seq<char>
    decreases s.len(),
{
    if s.len() > 0 && is_white_space(s.last()) {
        trimmed_end(s.drop_last())
    } else {
        s
    }
}

/// `s` without the white space at either end.
pub open spec fn trimmed(s: Seq<char>) -> Seq<char> {
    trimmed_end(trimmed_start(s))
}

/// Trimming the end leaves a beginning.
pub proof fn lemma_trimmed_end_prefix(s: Seq<char>)
    ensures
        trimmed_end(s).len() <= s.len(),
        trimmed_end(s) == s.take(trimmed_end(s).len() as int),
    decreases s.len(),
{
    if s.len() > 0 && is_white_space(s.last()) {
        lemma_trimmed_end_prefix(s.drop_last());
        let n = trimmed_end(s).len() as int;
        assert(s.drop_last().take(n) == s.take(n));
    } else {
        assert(s.take(s.len() as int) == s);
    }
}

/// Trimming leaves nothing exactly where there is nothing but white space.
pub proof fn lemma_blank_iff_trimmed_empty(s: Seq<char>)
    ensures
        blank(s) <==> trimmed(s).len() == 0,
    decreases s.len(),
{
    if s.len() > 0 && is_white_space(s[0]) {
        lemma_blank_iff_trimmed_empty(s.drop_first());
        assert(forall|i: int| 0 <= i < s.drop_first().len() ==> s.drop_first()[i] == s[i + 1]);
        if blank(s.drop_first()) {
            assert forall|i: int| 0 <= i < s.len() implies is_white_space(#[trigger] s[i]) by {
                if i > 0 {
                    assert(s[i] == s.drop_first()[i - 1]);
                }
            }
        }
        if blank(s) {
            assert forall|i: int| 0 <= i < s.drop_first().len() implies is_white_space(
                #[trigger] s.drop_first()[i],
            ) by {
                assert(s.drop_first()[i] == s[i + 1]);
            }
        }
    } else if s.len() > 0 {
        lemma_trimmed_end_keeps_first(s);
    }
}

proof fn lemma_trimmed_end_keeps_first(s: Seq<char>)
    requires
        s.len() > 0,
        !is_white_space(s[0]),
    ensures
        trimmed_end(s).len() > 0,
    decreases s.len(),
{
    if is_white_space(s.last()) {
        assert(s.len() > 1);
        lemma_trimmed_end_keeps_first(s.drop_last());
    }
}

/// Whether `s` is nothing but white space.
pub fn is_blank(s: &str) -> (blank_text: bool)
    ensures
        blank_text == blank(s@),
{
    let chars = chars_of(s);
    let mut i: usize = 0;
    while i < chars.len()
        invariant
            chars@ == s@,
            i <= chars.len(),
            forall|j: int| 0 <= j < i ==> is_white_space(#[trigger] s@[j]),
        decreases chars.len() - i,
    {
        if !chars[i].is_whitespace() {
            assert(!is_white_space(s@[i as int]));
            return false;
        }
        i += 1;
    }
    true
}

/// Where `chars` from `from` up to `to` ends once the white space at its end is gone.
pub fn end_without_white_space(chars: &Vec<char>, from: usize, to: usize) -> (end: usize)
    requires
        from <= to <= chars.len(),
    ensures
        from <= end <= to,
        chars@.subrange(from as int, end as int) == trimmed_end(
            chars@.subrange(from as int, to as int),
        ),
{
    let mut end: usize = to;
    while end > from && chars[end - 1].is_whitespace()
        invariant
            from <= end <= to <= chars.len(),
            trimmed_end(chars@.subrange(from as int, to as int)) == trimmed_end(
                chars@.subrange(from as int, end as int),
            ),
        decreases end,
    {
        assert(chars@.subrange(from as int, end as int).drop_last() == chars@.subrange(
            from as int,
            end - 1,
        ));
        end -= 1;
    }
    end
}

/// Where the first character of `chars` that is no white space stands.
fn start_without_white_space(chars: &Vec<char>) -> (start: usize)
    ensures
        start <= chars.len(),
        chars@.subrange(start as int, chars.len() as int) == trimmed_start(chars@),
{
    let mut start: usize = 0;
    assert(chars@.subrange(0, chars.len() as int) == chars@);
    while start < chars.len() && chars[start].is_whitespace()
        invariant
            start <= chars.len(),
            trimmed_start(chars@) == trimmed_start(
                chars@.subrange(start as int, chars.len() as int),
            ),
        decreases chars.len() - start,
    {
        assert(chars@.subrange(start as int, chars.len() as int).drop_first() == chars@.subrange(
            start + 1,
            chars.len() as int,
        ));
        start += 1;
    }
    start
}

/// `s` without the white space at either end.
pub fn trim(s: &str) -> (r: String)
    ensures
        r@ == trimmed(s@),
{
    let chars = chars_of(s);
    let start = start_without_white_space(&chars);
    let end = end_without_white_space(&chars, start, chars.len());
    substring(&chars, start, end)
}

/// The length of `s` in bytes, encoded as UTF-8.
pub open spec fn byte_len(s: Seq<char>) -> nat {
    vstd::utf8::encode_utf8(s).len()
}

/// The number of bytes that UTF-8 takes for `c`.
pub open spec fn char_width(c: char) -> nat {
    vstd::utf8::encode_scalar(c as u32).len()
}

/// The byte length grows by the last character's width.
pub proof fn lemma_byte_len_push(s: Seq<char>, c: char)
    ensures
        byte_len(s.push(c)) == byte_len(s) + char_width(c),
        1 <= char_width(c) <= 4,
    decreases s.len(),
{
    let t = s.push(c);
    if s.len() == 0 {
        assert(t.drop_first() == Seq::<char>::empty());
        assert(t[0] == c);
        reveal_with_fuel(vstd::utf8::encode_utf8, 2);
    } else {
        assert(t.drop_first() == s.drop_first().push(c));
        lemma_byte_len_push(s.drop_first(), c);
        assert(t[0] == s[0]);
    }
}

/// The number of bytes that UTF-8 takes for `c`.
fn width_of(c: char) -> (width: usize)
    ensures
        width == char_width(c),
{
    let u = c as u32;
    if u < 0x80 {
        1
    } else if u < 0x800 {
        2
    } else if u < 0x10000 {
        3
    } else {
        4
    }
}

/// Whether the characters at positions `from` up to `to` take at least `bytes` bytes.
pub fn at_least_bytes(chars: &Vec<char>, from: usize, to: usize, bytes: usize) -> (long: bool)
    requires
        from <= to <= chars.len(),
        bytes < usize::MAX - 4,
    ensures
        long == (byte_len(chars@.subrange(from as int, to as int)) >= bytes),
{
    let mut i: usize = from;
    let mut total: usize = 0;
    assert(chars@.subrange(from as int, from as int) == Seq::<char>::empty());
    while i < to && total < bytes
        invariant
            from <= i <= to <= chars.len(),
            total <= bytes + 3,
            bytes < usize::MAX - 4,
            total == byte_len(chars@.subrange(from as int, i as int)),
        decreases to - i,
    {
        proof {
            lemma_byte_len_push(chars@.subrange(from as int, i as int), chars@[i as int]);
            assert(chars@.subrange(from as int, i + 1) == chars@.subrange(
                from as int,
                i as int,
            ).push(chars@[i as int]));
        }
        total += width_of(chars[i]);
        i += 1;
    }
    proof {
        lemma_byte_len_take(chars@.subrange(from as int, to as int), i - from);
        assert(chars@.subrange(from as int, to as int).take(i - from) == chars@.subrange(
            from as int,
            i as int,
        ));
    }
    total >= bytes
}

/// Each character after the first `n` takes at least one byte more.
proof fn lemma_byte_len_take(s: Seq<char>, n: int)
    requires
        0 <= n <= s.len(),
    ensures
        byte_len(s.take(n)) + (s.len() - n) <= byte_len(s),
    decreases s.len() - n,
{
    if n < s.len() {
        lemma_byte_len_push(s.take(n), s[n]);
        assert(s.take(n + 1) == s.take(n).push(s[n]));
        lemma_byte_len_take(s, n + 1);
    } else {
        assert(s.take(n) == s);
    }
}

/// Leaving out the first character leaves no more bytes.
proof fn lemma_byte_len_drop_first(s: Seq<char>)
    requires
        s.len() > 0,
    ensures
        byte_len(s.drop_first()) <= byte_len(s),
{
}

proof fn lemma_trimmed_start_no_longer(s: Seq<char>)
    ensures
        byte_len(trimmed_start(s)) <= byte_len(s),
    decreases s.len(),
{
    if s.len() > 0 && is_white_space(s[0]) {
        lemma_byte_len_drop_first(s);
        lemma_trimmed_start_no_longer(s.drop_first());
    }
}

/// Trimming leaves no more bytes.
pub proof fn lemma_trimmed_no_longer(s: Seq<char>)
    ensures
        byte_len(trimmed(s)) <= byte_len(s),
{
    lemma_trimmed_start_no_longer(s);
    let t = trimmed_start(s);
    lemma_trimmed_end_prefix(t);
    lemma_byte_len_take(t, trimmed_end(t).len() as int);
}

/// The byte offset `offset` into the UTF-8 encoding of `s` stands between two characters, or at
/// either end.
pub open spec fn is_boundary(s: Seq<char>, offset: int) -> bool {
    vstd::utf8::is_char_boundary(vstd::utf8::encode_utf8(s), offset)
}

/// The number of characters of `s` in its first `offset` bytes.
pub open spec fn char_index(s: Seq<char>, offset: int) -> int {
    choose|k: int| 0 <= k <= s.len() && #[trigger] byte_len(s.take(k)) == offset
}

/// At a boundary, the bytes before it are those of the characters before it.
pub proof fn lemma_char_index(s: Seq<char>, offset: int)
    requires
        is_boundary(s, offset),
    ensures
        0 <= char_index(s, offset) <= s.len(),
        byte_len(s.take(char_index(s, offset))) == offset,
{
    let k = lemma_boundary_char(s, offset);
    assert(byte_len(s.take(k)) == offset);
}

proof fn lemma_boundary_char(s: Seq<char>, offset: int) -> (k: int)
    requires
        is_boundary(s, offset),
    ensures
        0 <= k <= s.len(),
        byte_len(s.take(k)) == offset,
    decreases s.len(),
{
    let bytes = vstd::utf8::encode_utf8(s);
    vstd::utf8::encode_utf8_valid_utf8(s);
    if offset == 0 {
        assert(s.take(0) == Seq::<char>::empty());
        0
    } else {
        if s.len() == 0 {
            assert(bytes.len() == 0);
        }
        vstd::utf8::encode_utf8_first_scalar(s);
        let rest = s.drop_first();
        assert(vstd::utf8::pop_first_scalar(bytes) =~= vstd::utf8::encode_utf8(rest));
        let k = lemma_boundary_char(rest, offset - char_width(s[0]));
        assert(s.take(k + 1).drop_first() == rest.take(k));
        assert(s.take(k + 1)[0] == s[0]);
        k + 1
    }
}

/// Two beginnings of `s` with the same byte length are the same.
proof fn lemma_char_index_unique(s: Seq<char>, i: int, j: int)
    requires
        0 <= i <= s.len(),
        0 <= j <= s.len(),
        byte_len(s.take(i)) == byte_len(s.take(j)),
    ensures
        i == j,
{
    if i < j {
        lemma_byte_len_take(s.take(j), i);
        assert(s.take(j).take(i) == s.take(i));
    } else if j < i {
        lemma_byte_len_take(s.take(i), j);
        assert(s.take(i).take(j) == s.take(j));
    }
}

/// Boundaries in order have characters in order before them.
pub proof fn lemma_char_index_monotone(s: Seq<char>, a: int, b: int)
    requires
        is_boundary(s, a),
        is_boundary(s, b),
        a <= b,
    ensures
        char_index(s, a) <= char_index(s, b),
{
    lemma_char_index(s, a);
    lemma_char_index(s, b);
    let i = char_index(s, a);
    let j = char_index(s, b);
    if j < i {
        lemma_byte_len_take(s.take(i), j);
        assert(s.take(i).take(j) == s.take(j));
    }
}

/// The number of characters in the first `offset` bytes.
pub fn char_index_of(chars: &Vec<char>, offset: usize) -> (index: usize)
    requires
        is_boundary(chars@, offset as int),
    ensures
        index == char_index(chars@, offset as int),
        index <= chars.len(),
{
    let ghost k = char_index(chars@, offset as int);
    proof {
        lemma_char_index(chars@, offset as int);
        assert(chars@.take(0) == Seq::<char>::empty());
    }
    let mut i: usize = 0;
    let mut total: usize = 0;
    while total < offset
        invariant
            0 <= i <= k <= chars.len(),
            total <= offset,
            total == byte_len(chars@.take(i as int)),
            offset == byte_len(chars@.take(k)),
        decreases offset - total,
    {
        proof {
            lemma_byte_len_push(chars@.take(i as int), chars@[i as int]);
            assert(chars@.take(i + 1) == chars@.take(i as int).push(chars@[i as int]));
            lemma_byte_len_take(chars@.take(k), i + 1);
            assert(chars@.take(k).take(i + 1) == chars@.take(i + 1));
        }
        total += width_of(chars[i]);
        i += 1;
    }
    proof {
        lemma_char_index_unique(chars@, i as int, k);
    }
    i
}

/// Strings, by the characters they hold.
pub open spec fn views(strings: Seq<String>) -> Seq<Seq<char>> {
    strings.map_values(|s: String| s@)
}

/// The last `n` characters of `s`, or all of them where there are no more.
pub open spec fn tail(s: Seq<char>, n: int) -> Seq<char> {
    if s.len() > n {
        s.skip(s.len() - n)
    } else {
        s
    }
}

/// The first `n` characters of `s`, or all of them where there are no more.
pub open spec fn head(s: Seq<char>, n: int) -> Seq<char> {
    if s.len() > n {
        s.take(n)
    } else {
        s
    }
}

/// The last `n` characters of `s`.
pub fn tail_of(s: &str, n: usize) -> (r: String)
    ensures
        r@ == tail(s@, n as int),
{
    let chars = chars_of(s);
    let from = if chars.len() > n {
        chars.len() - n
    } else {
        0
    };
    substring(&chars, from, chars.len())
}

/// The first `n` characters of `s`.
pub fn head_of(s: &str, n: usize) -> (r: String)
    ensures
        r@ == head(s@, n as int),
{
    let chars = chars_of(s);
    let to = if chars.len() > n {
        n
    } else {
        chars.len()
    };
    substring(&chars, 0, to)
}

/// What trimming the end takes away is white space, and what it leaves is a beginning of the text
/// that does not end in white space.
pub proof fn lemma_trimmed_end(s: Seq<char>)
    ensures
        trimmed_end(s).len() <= s.len(),
        s.take(trimmed_end(s).len() as int) == trimmed_end(s),
        forall|i: int|
            trimmed_end(s).len() <= i < s.len() ==> is_white_space(#[trigger] s[i]),
        trimmed_end(s).len() > 0 ==> !is_white_space(trimmed_end(s).last()),
    decreases s.len(),
{
    lemma_trimmed_end_prefix(s);
    if s.len() > 0 && is_white_space(s.last()) {
        let t = s.drop_last();
        lemma_trimmed_end(t);
        assert forall|i: int| trimmed_end(s).len() <= i < s.len() implies is_white_space(
            #[trigger] s[i],
        ) by {
            if i < t.len() {
                assert(t[i] == s[i]);
            }
        }
    }
}

proof fn lemma_trimmed_start(s: Seq<char>)
    ensures
        trimmed_start(s).len() <= s.len(),
        s.skip(s.len() - trimmed_start(s).len()) == trimmed_start(s),
        forall|i: int|
            0 <= i < s.len() - trimmed_start(s).len() ==> is_white_space(#[trigger] s[i]),
        trimmed_start(s).len() > 0 ==> !is_white_space(trimmed_start(s)[0]),
    decreases s.len(),
{
    if s.len() > 0 && is_white_space(s[0]) {
        let t = s.drop_first();
        lemma_trimmed_start(t);
        let n = trimmed_start(t).len();
        assert(s.skip(s.len() - n) =~= t.skip(t.len() - n));
        assert forall|i: int| 0 <= i < s.len() - n implies is_white_space(#[trigger] s[i]) by {
            if i > 0 {
                assert(t[i - 1] == s[i]);
            }
        }
    } else {
        assert(s.skip(0) =~= s);
    }
}

/// Trimming leaves one piece of the text, from `from` on: all around it is white space, and it
/// neither starts nor ends with any.
pub proof fn lemma_trimmed(s: Seq<char>) -> (from: int)
    ensures
        0 <= from,
        from + trimmed(s).len() <= s.len(),
        trimmed(s) == s.subrange(from, from + trimmed(s).len()),
        forall|i: int|
            0 <= i < from || from + trimmed(s).len() <= i < s.len() ==> is_white_space(
                #[trigger] s[i],
            ),
        trimmed(s).len() > 0 ==> !is_white_space(trimmed(s)[0]) && !is_white_space(
            trimmed(s).last(),
        ),
{
    let t = trimmed_start(s);
    let from = s.len() - t.len();
    let n = trimmed(s).len() as int;
    lemma_trimmed_start(s);
    lemma_trimmed_end(t);
    assert(s.subrange(from, from + n) =~= t.take(n));
    assert forall|i: int| 0 <= i < from || from + n <= i < s.len() implies is_white_space(
        #[trigger] s[i],
    ) by {
        if i >= from {
            assert(t[i - from] == s[i]);
        }
    }
    if n > 0 {
        assert(trimmed(s)[0] == t[0]);
    }
    from
}

/// UTF-8 takes one to four bytes for a character, by its code point.
pub proof fn lemma_char_width(c: char)
    ensures
        char_width(c) == if (c as u32) < 0x80 {
            1nat
        } else if (c as u32) < 0x800 {
            2
        } else if (c as u32) < 0x10000 {
            3
        } else {
            4
        },
{
}

/// No text takes no bytes, and one text behind another takes the bytes of both.
pub proof fn lemma_byte_len_add(a: Seq<char>, b: Seq<char>)
    ensures
        byte_len(Seq::<char>::empty()) == 0,
        byte_len(a + b) == byte_len(a) + byte_len(b),
    decreases b.len(),
{
    if b.len() > 0 {
        let t = b.drop_last();
        lemma_byte_len_add(a, t);
        lemma_byte_len_push(t, b.last());
        lemma_byte_len_push(a + t, b.last());
        assert(t.push(b.last()) =~= b);
        assert((a + t).push(b.last()) =~= a + b);
    } else {
        assert(a + b =~= a);
        assert(b =~= Seq::<char>::empty());
    }
}

/// A tail is the end of the text, `n` characters long unless the text is shorter.
pub proof fn lemma_tail(s: Seq<char>, n: int)
    requires
        0 <= n,
    ensures
        tail(s, n).len() == vstd::math::min(n, s.len() as int),
        s.skip(s.len() - tail(s, n).len()) == tail(s, n),
{
    assert(s.skip(0) =~= s);
}

/// A head is the beginning of the text, `n` characters long unless the text is shorter.
pub proof fn lemma_head(s: Seq<char>, n: int)
    requires
        0 <= n,
    ensures
        head(s, n).len() == vstd::math::min(n, s.len() as int),
        s.take(head(s, n).len() as int) == head(s, n),
{
    assert(s.take(s.len() as int) =~= s);
}

/// The characters before a boundary are counted by the bytes they take: any beginning of the text
/// that takes just as many is the one meant.
pub proof fn lemma_char_index_counts(s: Seq<char>, k: int)
    requires
        0 <= k <= s.len(),
    ensures
        char_index(s, byte_len(s.take(k)) as int) == k,
{
    let offset = byte_len(s.take(k)) as int;
    let i = char_index(s, offset);
    assert(0 <= i <= s.len() && byte_len(s.take(i)) == offset);
    lemma_char_index_unique(s, i, k);
}

/// Every beginning of the text ends at a boundary.
pub proof fn lemma_beginning_ends_at_boundary(s: Seq<char>, k: int)
    requires
        0 <= k <= s.len(),
    ensures
        is_boundary(s, byte_len(s.take(k)) as int),
    decreases s.len(),
{
    let bytes = vstd::utf8::encode_utf8(s);
    vstd::utf8::encode_utf8_valid_utf8(s);
    let offset = byte_len(s.take(k)) as int;
    if k == 0 {
        assert(s.take(0) == Seq::<char>::empty());
    } else {
        vstd::utf8::encode_utf8_first_scalar(s);
        let rest = s.drop_first();
        assert(vstd::utf8::pop_first_scalar(bytes) =~= vstd::utf8::encode_utf8(rest));
        assert(s.take(k).drop_first() =~= rest.take(k - 1));
        assert(s.take(k)[0] == s[0]);
        lemma_beginning_ends_at_boundary(rest, k - 1);
        lemma_byte_len_take(s, k);
    }
}

} // verus!
