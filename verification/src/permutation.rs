//! Random orders in which to offer the edges of a graph.

use rand::rngs::StdRng;
use rand::seq::SliceRandom;
use vstd::prelude::*;

verus! {

/// The random generator that the trials draw from, `rand::rngs::StdRng`.
/// Nothing is known of its state or of what it yields.
#[verifier::external_type_specification]
#[verifier::external_body]
pub struct ExStdRng(rand::rngs::StdRng);

/// The indices `0..size` in rising order.
pub open spec fn rising(size: nat) -> Seq<usize> {
    Seq::new(size, |i: int| i as usize)
}

/// Whether `order` holds each of the indices `0..size` exactly once.
pub open spec fn is_permutation(order: Seq<usize>, size: nat) -> bool {
    order.to_multiset() == rising(size).to_multiset()
}

/// A permutation of `0..size` has `size` entries, all below `size`, and none
/// of them twice.
pub proof fn lemma_permutation(order: Seq<usize>, size: nat)
    requires
        is_permutation(order, size),
        size <= usize::MAX,
    ensures
        order.len() == size,
        forall|i: int| 0 <= i < order.len() ==> (#[trigger] order[i]) < size,
        forall|k: usize| k < size ==> order.contains(k),
        order.no_duplicates(),
{
    broadcast use vstd::seq_lib::group_to_multiset_ensures;

    let base = rising(size);
    assert(order.len() == order.to_multiset().len());
    assert(base.len() == base.to_multiset().len());
    assert forall|i: int| 0 <= i < order.len() implies (#[trigger] order[i]) < size by {
        assert(order.contains(order[i]));
        assert(base.to_multiset().count(order[i]) > 0);
        assert(base.contains(order[i]));
        let j = choose|j: int| 0 <= j < base.len() && base[j] == order[i];
        assert(base[j] == j as usize);
    }
    assert forall|k: usize| k < size implies order.contains(k) by {
        assert(base[k as int] == k);
        assert(base.contains(k));
        assert(order.to_multiset().count(k) > 0);
    }
    assert(base.no_duplicates());
    base.lemma_multiset_has_no_duplicates();
    order.lemma_multiset_has_no_duplicates_conv();
}

/// Reorders `items` in place by `rand::seq::SliceRandom::shuffle`.
///
/// Taken on trust: the shuffle only swaps entries, so that the same values
/// are there afterwards, each as often as before. Which order comes out, and
/// that every order is as likely as any other, is not stated.
#[verifier::external_body]
fn shuffle(items: &mut Vec<usize>, rng: &mut StdRng)
    ensures
        final(items)@.to_multiset() == old(items)@.to_multiset(),
{
    items.shuffle(rng);
}

/// A random order of the indices `0..size`.
pub fn random_permutation(size: usize, rng: &mut StdRng) -> (order: Vec<usize>)
    ensures
        is_permutation(order@, size as nat),
        order@.len() == size,
{
    let mut order: Vec<usize> = Vec::new();
    let mut i: usize = 0;
    while i < size
        invariant
            i <= size,
            order@ == rising(i as nat),
        decreases size - i,
    {
        order.push(i);
        i = i + 1;
        assert(order@ =~= rising(i as nat));
    }
    shuffle(&mut order, rng);
    proof {
        lemma_permutation(order@, size as nat);
    }
    order
}

} // verus!
