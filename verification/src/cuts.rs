//! What holds of the cut that a trial finds, whatever the order in which it
//! contracts: its bounds, and how it compares with the cuts of the graph.

use crate::contraction::{contracted, crosses, names_edges, trial_cut};
use crate::counting::{lemma_filter_agrees, lemma_filter_keeps_more};
use crate::disjoint_set::{lemma_join_removes, singletons};
use crate::edge::{in_range, non_loops, Edge};
use vstd::prelude::*;

verus! {

/// Whether `side` splits the vertices `0..n` in two parts, none of them
/// empty.
pub open spec fn is_bipartition(side: Seq<bool>, n: nat) -> bool {
    &&& side.len() == n
    &&& exists|x: int, y: int| 0 <= x < n && 0 <= y < n && #[trigger] side[x] && !#[trigger] side[y]
}

/// The number of edges that run from one part of `side` to the other.
pub open spec fn crossing(edges: Seq<Edge>, side: Seq<bool>) -> nat {
    edges.filter(|e: Edge| side[e.v1 as int] != side[e.v2 as int]).len()
}

/// Whether no way to split the vertices `0..n` in two is crossed by fewer
/// than `k` edges.
pub open spec fn bounds_every_cut(edges: Seq<Edge>, n: nat, k: nat) -> bool {
    forall|side: Seq<bool>| is_bipartition(side, n) ==> #[trigger] crossing(edges, side) >= k
}

/// A trial never finds more crossing edges than the graph has edges.
pub proof fn lemma_trial_cut_bounded(edges: Seq<Edge>, n: nat, order: Seq<usize>)
    ensures
        trial_cut(edges, n, order) <= edges.len(),
{
    let labels = contracted(edges, n, order).0;
    edges.lemma_filter_len(|e: Edge| crosses(labels, e));
}

/// On a graph of two vertices or fewer nothing is contracted, and the trial
/// counts the edges whose endpoints differ.
pub proof fn lemma_small_graph(edges: Seq<Edge>, n: nat, order: Seq<usize>)
    requires
        n <= 2,
        in_range(edges, n),
    ensures
        contracted(edges, n, order) == (singletons(n), 0nat),
        trial_cut(edges, n, order) == non_loops(edges),
    decreases order.len(),
{
    if order.len() > 0 {
        lemma_small_graph(edges, n, order.drop_last());
    }
    let labels = singletons(n);
    lemma_filter_agrees(edges, |e: Edge| crosses(labels, e), |e: Edge| e.v1 != e.v2);
}

/// Every contraction takes one block away: after `m` contractions the
/// vertices `0..n` are in `n - m` blocks. As no contraction is made once two
/// blocks are left, a graph of two vertices or more ends with two blocks or
/// more.
pub proof fn lemma_block_count(edges: Seq<Edge>, n: nat, order: Seq<usize>)
    requires
        in_range(edges, n),
        names_edges(order, edges.len()),
        n <= usize::MAX,
    ensures
        contracted(edges, n, order).0.len() == n,
        forall|v: int| 0 <= v < n ==> #[trigger] contracted(edges, n, order).0[v] < n,
        contracted(edges, n, order).0.to_set().len() == n - contracted(edges, n, order).1,
        n >= 2 ==> contracted(edges, n, order).1 <= n - 2,
        n < 2 ==> contracted(edges, n, order).1 == 0,
    decreases order.len(),
{
    if order.len() == 0 {
        singletons(n).unique_seq_to_set();
    } else {
        lemma_block_count(edges, n, order.drop_last());
        let (labels, merges) = contracted(edges, n, order.drop_last());
        let e = edges[order.last() as int];
        assert(e.v1 < n && e.v2 < n);
        if merges + 2 < n && crosses(labels, e) {
            assert(labels.to_set().contains(labels[e.v1 as int]));
            assert(labels.to_set().contains(labels[e.v2 as int]));
            lemma_join_removes(labels, labels[e.v1 as int], labels[e.v2 as int]);
        }
    }
}

/// The cut that a trial finds is the cut of some way to split the graph in
/// two, or larger: it is never less than a number that bounds every cut of
/// the graph from below, such as the least of them.
pub proof fn lemma_trial_cut_not_below(edges: Seq<Edge>, n: nat, order: Seq<usize>, k: nat)
    requires
        n >= 2,
        n <= usize::MAX,
        in_range(edges, n),
        names_edges(order, edges.len()),
        bounds_every_cut(edges, n, k),
    ensures
        trial_cut(edges, n, order) >= k,
{
    lemma_block_count(edges, n, order);
    let labels = contracted(edges, n, order).0;
    let side = Seq::new(n, |x: int| labels[x] == labels[0]);
    assert(exists|y: int| 0 <= y < n && #[trigger] labels[y] != labels[0]) by {
        if forall|y: int| 0 <= y < n ==> #[trigger] labels[y] == labels[0] {
            assert(labels.to_set() =~= set![labels[0]]) by {
                assert(labels.to_set().contains(labels[0]));
            }
        }
    }
    let y = choose|y: int| 0 <= y < n && #[trigger] labels[y] != labels[0];
    assert(side[0] && !side[y]);
    assert(is_bipartition(side, n));
    assert(crossing(edges, side) >= k);
    lemma_filter_keeps_more(
        edges,
        |e: Edge| side[e.v1 as int] != side[e.v2 as int],
        |e: Edge| crosses(labels, e),
    );
}

/// Where the contractions have left two blocks, what the trial finds is a
/// cut of the graph: the number of edges that cross from one of the two
/// blocks to the other.
pub proof fn lemma_trial_cut_is_cut(
    edges: Seq<Edge>,
    n: nat,
    order: Seq<usize>,
) -> (side: Seq<bool>)
    requires
        n <= usize::MAX,
        in_range(edges, n),
        names_edges(order, edges.len()),
        contracted(edges, n, order).1 + 2 == n,
    ensures
        is_bipartition(side, n),
        trial_cut(edges, n, order) == crossing(edges, side),
{
    lemma_block_count(edges, n, order);
    let labels = contracted(edges, n, order).0;
    let side = Seq::new(n, |x: int| labels[x] == labels[0]);
    assert(exists|y: int| 0 <= y < n && #[trigger] labels[y] != labels[0]) by {
        if forall|y: int| 0 <= y < n ==> #[trigger] labels[y] == labels[0] {
            assert(labels.to_set() =~= set![labels[0]]) by {
                assert(labels.to_set().contains(labels[0]));
            }
        }
    }
    let y = choose|y: int| 0 <= y < n && #[trigger] labels[y] != labels[0];
    assert(side[0] && !side[y]);
    assert forall|x: int| 0 <= x < n && labels[x] != labels[0] implies #[trigger] labels[x]
        == labels[y] by {
        if labels[x] != labels[y] {
            let three = set![labels[0], labels[y], labels[x]];
            assert(labels.to_set().contains(labels[0]));
            assert(labels.to_set().contains(labels[y]));
            assert(labels.to_set().contains(labels[x]));
            assert(three.subset_of(labels.to_set()));
            vstd::set_lib::lemma_len_subset(three, labels.to_set());
            assert(three.len() == 3) by {
                assert(set![labels[0]].len() == 1);
                assert(set![labels[0], labels[y]].len() == 2);
            }
        }
    }
    assert forall|i: int| 0 <= i < edges.len() implies crosses(labels, #[trigger] edges[i]) == (
    side[edges[i].v1 as int] != side[edges[i].v2 as int]) by {
        let e = edges[i];
        assert(e.v1 < n && e.v2 < n);
    }
    lemma_filter_agrees(
        edges,
        |e: Edge| crosses(labels, e),
        |e: Edge| side[e.v1 as int] != side[e.v2 as int],
    );
    side
}

} // verus!
