//! How many entries of a sequence a test keeps.

use vstd::prelude::*;

verus! {

/// Of two tests, the one that holds more often keeps more of a sequence.
pub proof fn lemma_filter_keeps_more<A>(s: Seq<A>, p: spec_fn(A) -> bool, q: spec_fn(A) -> bool)
    requires
        forall|i: int| 0 <= i < s.len() && p(#[trigger] s[i]) ==> q(s[i]),
    ensures
        s.filter(p).len() <= s.filter(q).len(),
    decreases s.len(),
{
    reveal(Seq::filter);
    if s.len() > 0 {
        lemma_filter_keeps_more(s.drop_last(), p, q);
    }
}

/// Two tests that agree on every entry of a sequence keep the same entries.
pub proof fn lemma_filter_agrees<A>(s: Seq<A>, p: spec_fn(A) -> bool, q: spec_fn(A) -> bool)
    requires
        forall|i: int| 0 <= i < s.len() ==> p(#[trigger] s[i]) == q(s[i]),
    ensures
        s.filter(p) == s.filter(q),
    decreases s.len(),
{
    reveal(Seq::filter);
    if s.len() > 0 {
        lemma_filter_agrees(s.drop_last(), p, q);
    }
}

/// A test that holds of no entry of a sequence keeps nothing.
pub proof fn lemma_filter_keeps_none<A>(s: Seq<A>, p: spec_fn(A) -> bool)
    requires
        forall|i: int| 0 <= i < s.len() ==> !p(#[trigger] s[i]),
    ensures
        s.filter(p).len() == 0,
    decreases s.len(),
{
    reveal(Seq::filter);
    if s.len() > 0 {
        lemma_filter_keeps_none(s.drop_last(), p);
    }
}

/// A test that holds of an entry of a sequence keeps one entry or more.
pub proof fn lemma_filter_keeps_one<A>(s: Seq<A>, p: spec_fn(A) -> bool, i: int)
    requires
        0 <= i < s.len(),
        p(s[i]),
    ensures
        s.filter(p).len() >= 1,
    decreases s.len(),
{
    reveal(Seq::filter);
    if i < s.len() - 1 {
        lemma_filter_keeps_one(s.drop_last(), p, i);
    }
}

/// A test that holds of two entries of a sequence keeps two entries or
/// more.
pub proof fn lemma_filter_keeps_two<A>(s: Seq<A>, p: spec_fn(A) -> bool, i: int, j: int)
    requires
        0 <= i < j < s.len(),
        p(s[i]),
        p(s[j]),
    ensures
        s.filter(p).len() >= 2,
    decreases s.len(),
{
    reveal(Seq::filter);
    let rest = s.drop_last();
    if j == s.len() - 1 {
        lemma_filter_keeps_one(rest, p, i);
    } else {
        lemma_filter_keeps_two(rest, p, i, j);
    }
}

/// A test that holds of the entry at `i`, and of no other entry of a
/// sequence, keeps one entry.
pub proof fn lemma_filter_keeps_just_one<A>(s: Seq<A>, p: spec_fn(A) -> bool, i: int)
    requires
        0 <= i < s.len(),
        forall|k: int| 0 <= k < s.len() ==> (p(#[trigger] s[k]) <==> k == i),
    ensures
        s.filter(p).len() == 1,
    decreases s.len(),
{
    reveal(Seq::filter);
    let rest = s.drop_last();
    if i == s.len() - 1 {
        assert(p(s[i]));
        lemma_filter_keeps_none(rest, p);
    } else {
        assert(!p(s[s.len() - 1]));
        lemma_filter_keeps_just_one(rest, p, i);
    }
}

/// A test that holds of the entries at `i` and `j`, and of no other entry of
/// a sequence, keeps two entries.
pub proof fn lemma_filter_keeps_just_two<A>(s: Seq<A>, p: spec_fn(A) -> bool, i: int, j: int)
    requires
        0 <= i < j < s.len(),
        forall|k: int| 0 <= k < s.len() ==> (p(#[trigger] s[k]) <==> k == i || k == j),
    ensures
        s.filter(p).len() == 2,
    decreases s.len(),
{
    reveal(Seq::filter);
    let rest = s.drop_last();
    if j == s.len() - 1 {
        assert(p(s[j]));
        lemma_filter_keeps_just_one(rest, p, i);
    } else {
        assert(!p(s[s.len() - 1]));
        lemma_filter_keeps_just_two(rest, p, i, j);
    }
}

} // verus!
