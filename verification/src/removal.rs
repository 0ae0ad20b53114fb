//! Removing pieces of text, and what of the text is left.

use vstd::prelude::*;

use crate::text;

verus! {

/// `p` stands in `s` at position `i`.
pub open spec fn occurs_at(s: Seq<char>, p: Seq<char>, i: int) -> bool {
    0 <= i && i + p.len() <= s.len() && s.subrange(i, i + p.len()) == p
}

/// `p` stands somewhere in `s`.
pub open spec fn occurs(s: Seq<char>, p: Seq<char>) -> bool {
    exists|i: int| occurs_at(s, p, i)
}

/// `s` without `p`: found from the left, each occurrence after the end of the one before it.
pub open spec fn without(s: Seq<char>, p: Seq<char>) -> Seq<char>
    decreases s.len(),
{
    if p.len() == 0 || s.len() == 0 {
        s
    } else if occurs_at(s, p, 0) {
        without(s.skip(p.len() as int), p)
    } else {
        seq![s[0]] + without(s.drop_first(), p)
    }
}

/// Whether `pattern` stands in `chars` at position `at`.
fn matches_at(chars: &Vec<char>, pattern: &Vec<char>, at: usize) -> (found: bool)
    requires
        at <= chars.len(),
    ensures
        found == occurs_at(chars@, pattern@, at as int),
{
    if chars.len() - at < pattern.len() {
        return false;
    }
    let mut j: usize = 0;
    while j < pattern.len()
        invariant
            j <= pattern.len(),
            at + pattern.len() <= chars.len(),
            forall|k: int| 0 <= k < j ==> chars@[at + k] == #[trigger] pattern@[k],
        decreases pattern.len() - j,
    {
        if chars[at + j] != pattern[j] {
            assert(chars@.subrange(at as int, at + pattern.len())[j as int] != pattern@[j as int]);
            return false;
        }
        j += 1;
    }
    assert(chars@.subrange(at as int, at + pattern.len()) == pattern@);
    true
}

/// `s` without the occurrences of `pattern`.
pub fn remove(s: &str, pattern: &str) -> (r: String)
    ensures
        r@ == without(s@, pattern@),
{
    let chars = text::chars_of(s);
    let pat = text::chars_of(pattern);
    if pat.len() == 0 {
        return s.to_owned();
    }
    let mut r = String::new();
    let mut i: usize = 0;
    assert(chars@.skip(0) == chars@);
    while i < chars.len()
        invariant
            i <= chars.len(),
            pat.len() > 0,
            without(chars@, pat@) == r@ + without(chars@.skip(i as int), pat@),
        decreases chars.len() - i,
    {
        let ghost rest = chars@.skip(i as int);
        if matches_at(&chars, &pat, i) {
            proof {
                assert(rest.subrange(0, pat.len() as int) == chars@.subrange(
                    i as int,
                    i + pat.len(),
                ));
                assert(rest.skip(pat.len() as int) == chars@.skip(i + pat.len()));
            }
            i += pat.len();
        } else {
            proof {
                if occurs_at(rest, pat@, 0) {
                    assert(chars@.subrange(i as int, i + pat.len()) == rest.subrange(
                        0,
                        pat.len() as int,
                    ));
                }
                assert(rest.drop_first() == chars@.skip(i + 1));
                assert(r@.push(rest[0]) + without(rest.drop_first(), pat@) == r@ + without(
                    rest,
                    pat@,
                ));
            }
            r.push(chars[i]);
            i += 1;
        }
    }
    assert(chars@.skip(i as int) == Seq::<char>::empty());
    assert(r@ + Seq::<char>::empty() == r@);
    r
}

/// `s` without each of `patterns`, one after the other.
pub open spec fn without_each(s: Seq<char>, patterns: Seq<Seq<char>>) -> Seq<char>
    decreases patterns.len(),
{
    if patterns.len() == 0 {
        s
    } else {
        without(without_each(s, patterns.drop_last()), patterns.last())
    }
}

/// `s` without each of `patterns`, one after the other in the order they are given.
pub fn remove_each(s: String, patterns: &Vec<String>) -> (r: String)
    ensures
        r@ == without_each(s@, text::views(patterns@)),
{
    let mut r = s;
    let ghost all = text::views(patterns@);
    let mut i: usize = 0;
    assert(all.take(0) == Seq::<Seq<char>>::empty());
    while i < patterns.len()
        invariant
            i <= patterns.len(),
            all == text::views(patterns@),
            r@ == without_each(s@, all.take(i as int)),
        decreases patterns.len() - i,
    {
        proof {
            assert(all.take(i + 1).drop_last() == all.take(i as int));
            assert(all.take(i + 1).last() == patterns@[i as int]@);
        }
        r = remove(r.as_str(), patterns[i].as_str());
        i += 1;
    }
    assert(all.take(patterns.len() as int) == all);
    r
}

/// A text in which a pattern does not occur is left as it is.
pub proof fn lemma_without_absent(s: Seq<char>, p: Seq<char>)
    requires
        !occurs(s, p),
    ensures
        without(s, p) == s,
    decreases s.len(),
{
    if p.len() > 0 && s.len() > 0 {
        assert(!occurs_at(s, p, 0));
        let t = s.drop_first();
        assert forall|i: int| !occurs_at(t, p, i) by {
            if occurs_at(t, p, i) {
                assert(t.subrange(i, i + p.len()) =~= s.subrange(i + 1, i + 1 + p.len()));
                assert(occurs_at(s, p, i + 1));
            }
        }
        lemma_without_absent(t, p);
        assert(seq![s[0]] + t =~= s);
    }
}

/// A text in which none of the patterns occurs is left as it is.
pub proof fn lemma_without_each_absent(s: Seq<char>, patterns: Seq<Seq<char>>)
    requires
        forall|i: int| 0 <= i < patterns.len() ==> !occurs(s, #[trigger] patterns[i]),
    ensures
        without_each(s, patterns) == s,
    decreases patterns.len(),
{
    if patterns.len() > 0 {
        let before = patterns.drop_last();
        assert forall|i: int| 0 <= i < before.len() implies !occurs(s, #[trigger] before[i]) by {
            assert(before[i] == patterns[i]);
        }
        lemma_without_each_absent(s, before);
        assert(patterns[patterns.len() - 1] == patterns.last());
        lemma_without_absent(s, patterns.last());
    }
}

/// The character at each position of `t` is the one at the position of `s` that `kept` names, and
/// the positions come in order: `t` is what is left of `s`.
pub open spec fn left_of(t: Seq<char>, s: Seq<char>, kept: Seq<int>) -> bool {
    &&& kept.len() == t.len()
    &&& forall|i: int|
        0 <= i < kept.len() ==> 0 <= #[trigger] kept[i] < s.len() && t[i] == s[kept[i]]
    &&& forall|i: int, j: int|
        #![trigger kept[i], kept[j]]
        0 <= i < j < kept.len() ==> kept[i] < kept[j]
}

/// The `n` positions from `at` on are all among the kept ones.
pub open spec fn survives(kept: Seq<int>, at: int, n: int) -> bool {
    exists|i: int| #[trigger] survives_from(kept, i, at, n)
}

/// The `n` positions from `at` on are those kept from index `i` on.
pub open spec fn survives_from(kept: Seq<int>, i: int, at: int, n: int) -> bool {
    &&& 0 <= i
    &&& i + n <= kept.len()
    &&& forall|j: int| i <= j < i + n ==> #[trigger] kept[j] == at + (j - i)
}

/// The positions of `s` that [`without`] leaves.
pub open spec fn kept_without(s: Seq<char>, p: Seq<char>) -> Seq<int>
    decreases s.len(),
{
    if p.len() == 0 || s.len() == 0 {
        Seq::new(s.len(), |i: int| i)
    } else if occurs_at(s, p, 0) {
        kept_without(s.skip(p.len() as int), p).map_values(|k: int| k + p.len())
    } else {
        seq![0int] + kept_without(s.drop_first(), p).map_values(|k: int| k + 1)
    }
}

/// What removal leaves is left of the text, and no occurrence of the pattern survives whole.
pub proof fn lemma_without_leaves(s: Seq<char>, p: Seq<char>)
    ensures
        left_of(without(s, p), s, kept_without(s, p)),
        p.len() > 0 ==> forall|at: int|
            occurs_at(s, p, at) ==> !#[trigger] survives(kept_without(s, p), at, p.len() as int),
    decreases s.len(),
{
    let kept = kept_without(s, p);
    let n = p.len() as int;
    if p.len() == 0 || s.len() == 0 {
    } else if occurs_at(s, p, 0) {
        let t = s.skip(n);
        let inner = kept_without(t, p);
        lemma_without_leaves(t, p);
        assert forall|at: int| occurs_at(s, p, at) implies !#[trigger] survives(kept, at, n) by {
            if survives(kept, at, n) {
                let i = choose|i: int| #[trigger] survives_from(kept, i, at, n);
                assert(kept[i] == at);
                assert(kept[i] == inner[i] + n);
                assert(t.subrange(at - n, at) =~= s.subrange(at, at + n));
                assert(occurs_at(t, p, at - n));
                assert forall|j: int| i <= j < i + n implies #[trigger] inner[j] == at - n + (j
                    - i) by {
                    assert(kept[j] == inner[j] + n);
                }
                assert(survives_from(inner, i, at - n, n));
                assert(survives(inner, at - n, n));
            }
        }
        assert forall|i: int| 0 <= i < kept.len() implies 0 <= #[trigger] kept[i] < s.len()
            && without(s, p)[i] == s[kept[i]] by {
            assert(kept[i] == inner[i] + n);
            assert(t[inner[i]] == s[inner[i] + n]);
        }
        assert forall|i: int, j: int|
            #![trigger kept[i], kept[j]]
            0 <= i < j < kept.len() implies kept[i] < kept[j] by {
            assert(inner[i] < inner[j]);
        }
    } else {
        let t = s.drop_first();
        let inner = kept_without(t, p);
        lemma_without_leaves(t, p);
        assert forall|at: int| occurs_at(s, p, at) implies !#[trigger] survives(kept, at, n) by {
            if survives(kept, at, n) {
                let i = choose|i: int| #[trigger] survives_from(kept, i, at, n);
                assert(kept[i] == at);
                assert(at != 0);
                assert(kept[i] == inner[i - 1] + 1);
                assert(t.subrange(at - 1, at - 1 + n) =~= s.subrange(at, at + n));
                assert(occurs_at(t, p, at - 1));
                assert forall|j: int| i - 1 <= j < i - 1 + n implies #[trigger] inner[j] == at - 1 + (
                j - (i - 1)) by {
                    assert(kept[j + 1] == inner[j] + 1);
                }
                assert(survives_from(inner, i - 1, at - 1, n));
                assert(survives(inner, at - 1, n));
            }
        }
        assert forall|i: int| 0 <= i < kept.len() implies 0 <= #[trigger] kept[i] < s.len()
            && without(s, p)[i] == s[kept[i]] by {
            if i > 0 {
                assert(kept[i] == inner[i - 1] + 1);
                assert(t[inner[i - 1]] == s[inner[i - 1] + 1]);
            }
        }
        assert forall|i: int, j: int|
            #![trigger kept[i], kept[j]]
            0 <= i < j < kept.len() implies kept[i] < kept[j] by {
            assert(kept[j] == inner[j - 1] + 1);
            if i > 0 {
                assert(kept[i] == inner[i - 1] + 1);
                assert(inner[i - 1] < inner[j - 1]);
            }
        }
    }
}

/// The positions kept where first `outer` and then, of what that leaves, `inner` is kept.
pub open spec fn kept_in_turn(outer: Seq<int>, inner: Seq<int>) -> Seq<int> {
    Seq::new(inner.len(), |i: int| outer[inner[i]])
}

/// What is left of what is left of a text is left of the text, and positions that survive both
/// steps side by side stood side by side between them.
pub proof fn lemma_kept_in_turn(
    u: Seq<char>,
    t: Seq<char>,
    s: Seq<char>,
    outer: Seq<int>,
    inner: Seq<int>,
)
    requires
        left_of(t, s, outer),
        left_of(u, t, inner),
    ensures
        left_of(u, s, kept_in_turn(outer, inner)),
        forall|i: int, at: int, n: int|
            n > 0 && #[trigger] survives_from(kept_in_turn(outer, inner), i, at, n) ==> {
                &&& survives_from(inner, i, inner[i], n)
                &&& survives_from(outer, inner[i], at, n)
            },
{
    let both = kept_in_turn(outer, inner);
    assert forall|i: int, at: int, n: int|
        n > 0 && #[trigger] survives_from(both, i, at, n) implies survives_from(
        inner,
        i,
        inner[i],
        n,
    ) && survives_from(outer, inner[i], at, n) by {
        lemma_side_by_side(t, s, outer, inner, i, at, n);
    }
}

proof fn lemma_side_by_side(
    t: Seq<char>,
    s: Seq<char>,
    outer: Seq<int>,
    inner: Seq<int>,
    i: int,
    at: int,
    n: int,
)
    requires
        left_of(t, s, outer),
        forall|i: int| 0 <= i < inner.len() ==> 0 <= #[trigger] inner[i] < t.len(),
        forall|i: int, j: int|
            #![trigger inner[i], inner[j]]
            0 <= i < j < inner.len() ==> inner[i] < inner[j],
        n > 0,
        survives_from(kept_in_turn(outer, inner), i, at, n),
    ensures
        survives_from(inner, i, inner[i], n),
        survives_from(outer, inner[i], at, n),
    decreases n,
{
    let both = kept_in_turn(outer, inner);
    let last = i + n - 1;
    assert(both[last] == at + n - 1);
    assert(both[last] == outer[inner[last]]);
    if n > 1 {
        assert(survives_from(both, i, at, n - 1));
        lemma_side_by_side(t, s, outer, inner, i, at, n - 1);
        let prev = i + n - 2;
        assert(both[prev] == at + n - 2);
        assert(both[prev] == outer[inner[prev]]);
        assert(inner[prev] < inner[last]);
        if inner[prev] + 1 < inner[last] {
            assert(outer[inner[prev]] < outer[inner[prev] + 1]);
            assert(outer[inner[prev] + 1] < outer[inner[last]]);
        }
        assert(inner[prev] == inner[i] + (prev - i));
    }
    assert forall|j: int| inner[i] <= j < inner[i] + n implies #[trigger] outer[j] == at + (j
        - inner[i]) by {
        if j == inner[i] + n - 1 {
            assert(j == inner[last]);
        }
    }
}

/// The positions of `s` that [`without_each`] leaves.
pub open spec fn kept_without_each(s: Seq<char>, patterns: Seq<Seq<char>>) -> Seq<int>
    decreases patterns.len(),
{
    if patterns.len() == 0 {
        Seq::new(s.len(), |i: int| i)
    } else {
        kept_in_turn(
            kept_without_each(s, patterns.drop_last()),
            kept_without(without_each(s, patterns.drop_last()), patterns.last()),
        )
    }
}

/// What removing several patterns leaves is left of the text.
pub proof fn lemma_without_each_leaves(s: Seq<char>, patterns: Seq<Seq<char>>)
    ensures
        left_of(without_each(s, patterns), s, kept_without_each(s, patterns)),
    decreases patterns.len(),
{
    if patterns.len() > 0 {
        let before = patterns.drop_last();
        let t = without_each(s, before);
        lemma_without_each_leaves(s, before);
        lemma_without_leaves(t, patterns.last());
        lemma_kept_in_turn(
            without_each(s, patterns),
            t,
            s,
            kept_without_each(s, before),
            kept_without(t, patterns.last()),
        );
    }
}

/// Wherever one of the patterns occurs in the text, removing all of them breaks it up: what is
/// left may spell the pattern again only where removal has joined the parts.
pub proof fn lemma_no_occurrence_survives(
    s: Seq<char>,
    patterns: Seq<Seq<char>>,
    j: int,
    at: int,
)
    requires
        0 <= j < patterns.len(),
        patterns[j].len() > 0,
        occurs_at(s, patterns[j], at),
    ensures
        !survives(kept_without_each(s, patterns), at, patterns[j].len() as int),
    decreases patterns.len(),
{
    let before = patterns.drop_last();
    let t = without_each(s, before);
    let p = patterns[j];
    let n = p.len() as int;
    let outer = kept_without_each(s, before);
    let inner = kept_without(t, patterns.last());
    let both = kept_without_each(s, patterns);
    lemma_without_each_leaves(s, before);
    lemma_without_leaves(t, patterns.last());
    lemma_kept_in_turn(without_each(s, patterns), t, s, outer, inner);
    if survives(both, at, n) {
        let i = choose|i: int| #[trigger] survives_from(both, i, at, n);
        assert(survives_from(inner, i, inner[i], n));
        assert(survives_from(outer, inner[i], at, n));
        if j < before.len() {
            assert(before[j] == p);
            lemma_no_occurrence_survives(s, before, j, at);
            assert(survives(outer, at, n));
        } else {
            let k = inner[i];
            assert(t.subrange(k, k + n) =~= p) by {
                assert forall|m: int| 0 <= m < n implies t.subrange(k, k + n)[m] == p[m] by {
                    assert(outer[k + m] == at + m);
                    assert(t[k + m] == s[outer[k + m]]);
                    assert(s.subrange(at, at + n)[m] == s[at + m]);
                }
            }
            assert(occurs_at(t, p, k));
            assert(survives(inner, k, n));
        }
    }
}

/// Removal goes on behind the first occurrence: what stands before it is left, and what stands
/// behind it is searched by itself.
pub proof fn lemma_without_first_occurrence(a: Seq<char>, p: Seq<char>, b: Seq<char>)
    requires
        p.len() > 0,
        forall|i: int|
            0 <= i < a.len() ==> #[trigger] (a + p + b).subrange(i, i + p.len()) != p,
    ensures
        without(a + p + b, p) == a + without(b, p),
    decreases a.len(),
{
    let s = a + p + b;
    if a.len() == 0 {
        assert(s.subrange(0, p.len() as int) =~= p);
        assert(s.skip(p.len() as int) =~= b);
        assert(a + without(b, p) =~= without(b, p));
    } else {
        let t = a.drop_first();
        assert(s.subrange(0, 0int + p.len()) != p);
        assert(s.drop_first() =~= t + p + b);
        assert forall|i: int| 0 <= i < t.len() implies #[trigger] (t + p + b).subrange(
            i,
            i + p.len(),
        ) != p by {
            assert((t + p + b).subrange(i, i + p.len()) =~= s.subrange(i + 1, i + 1 + p.len()));
        }
        lemma_without_first_occurrence(t, p, b);
        assert(seq![s[0]] + (t + without(b, p)) =~= a + without(b, p));
    }
}

/// Patterns are removed one after the other: the later ones from what the earlier ones leave.
pub proof fn lemma_without_each_in_turn(
    s: Seq<char>,
    first: Seq<Seq<char>>,
    later: Seq<Seq<char>>,
    p: Seq<char>,
)
    ensures
        without_each(s, first + later) == without_each(without_each(s, first), later),
        without_each(s, seq![p]) == without(s, p),
        without_each(s, Seq::empty()) == s,
    decreases later.len(),
{
    let one = seq![p];
    assert(one.drop_last() =~= Seq::empty());
    assert(without_each(s, one.drop_last()) == s);
    if later.len() == 0 {
        assert(first + later =~= first);
    } else {
        assert((first + later).drop_last() =~= first + later.drop_last());
        lemma_without_each_in_turn(s, first, later.drop_last(), p);
    }
}

} // verus!
