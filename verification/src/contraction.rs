//! One contraction trial: edges are contracted in a given order until two
//! blocks of vertices are left, and the edges between different blocks are
//! counted.

use crate::disjoint_set::{join, singletons, DisjointSetForest};
use crate::cuts::lemma_small_graph;
use crate::edge::{in_range, non_loops, Edge};
use vstd::prelude::*;

verus! {

/// Whether the endpoints of `e` lie in different blocks of `labels`.
pub open spec fn crosses(labels: Seq<usize>, e: Edge) -> bool {
    labels[e.v1 as int] != labels[e.v2 as int]
}

/// The labelling after `e` has been contracted: the block of `e.v2` takes
/// the label of the block of `e.v1`.
pub open spec fn contract(labels: Seq<usize>, e: Edge) -> Seq<usize> {
    join(labels, labels[e.v1 as int], labels[e.v2 as int])
}

/// The labels of the vertices, equal where two vertices are in one block,
/// and the number of contractions made once the edges named by
/// `order` have been offered in turn. An edge is contracted where its
/// endpoints lie in different blocks and more than two blocks are left.
pub open spec fn contracted(edges: Seq<Edge>, n: nat, order: Seq<usize>) -> (Seq<usize>, nat)
    decreases order.len(),
{
    if order.len() == 0 {
        (singletons(n), 0)
    } else {
        let (labels, merges) = contracted(edges, n, order.drop_last());
        let e = edges[order.last() as int];
        if merges + 2 < n && crosses(labels, e) {
            (contract(labels, e), merges + 1)
        } else {
            (labels, merges)
        }
    }
}

/// The number of edges whose endpoints lie in different blocks of `labels`.
pub open spec fn cut_size(edges: Seq<Edge>, labels: Seq<usize>) -> nat {
    edges.filter(|e: Edge| crosses(labels, e)).len()
}

/// The cut that one trial finds when it contracts in the order `order`.
pub open spec fn trial_cut(edges: Seq<Edge>, n: nat, order: Seq<usize>) -> nat {
    cut_size(edges, contracted(edges, n, order).0)
}

/// Whether every entry of `order` names an edge of a graph of `edge_count`
/// edges.
pub open spec fn names_edges(order: Seq<usize>, edge_count: nat) -> bool {
    forall|i: int| 0 <= i < order.len() ==> (#[trigger] order[i]) < edge_count
}

/// Whether `reps` and `labels` describe the same partition.
pub open spec fn same_partition(reps: Seq<usize>, labels: Seq<usize>) -> bool {
    &&& reps.len() == labels.len()
    &&& forall|x: int, y: int|
        0 <= x < reps.len() && 0 <= y < reps.len() ==> ((#[trigger] reps[x] == #[trigger] reps[y])
            <==> labels[x] == labels[y])
}

/// Counting the crossing edges one by one.
pub proof fn lemma_cut_size_push(edges: Seq<Edge>, e: Edge, labels: Seq<usize>)
    ensures
        cut_size(edges.push(e), labels) == cut_size(edges, labels) + if crosses(labels, e) {
            1nat
        } else {
            0nat
        },
        cut_size(Seq::<Edge>::empty(), labels) == 0,
        cut_size(edges, labels) <= edges.len(),
{
    let pred = |e: Edge| crosses(labels, e);
    reveal(Seq::filter);
    assert(edges.push(e).drop_last() =~= edges);
    edges.lemma_filter_len(pred);
}

/// Once all but two blocks are gone, offering more edges changes nothing.
pub proof fn lemma_contraction_settles(edges: Seq<Edge>, n: nat, order: Seq<usize>, k: int)
    requires
        0 <= k <= order.len(),
        contracted(edges, n, order.take(k)).1 + 2 >= n,
    ensures
        contracted(edges, n, order) == contracted(edges, n, order.take(k)),
    decreases order.len() - k,
{
    if k == order.len() {
        assert(order.take(k) =~= order);
    } else {
        assert(order.take(k + 1).drop_last() =~= order.take(k));
        lemma_contraction_settles(edges, n, order, k + 1);
    }
}

/// The cut found by contracting the edges in the order `order`.
///
/// The edges that `order` names are offered in turn; one whose endpoints lie
/// in different blocks is contracted, until `number_of_vertices - 2`
/// contractions have been made. The result counts the edges of the whole
/// graph that run between different blocks.
pub fn karger_step_in_order(
    edges: &[Edge],
    number_of_vertices: usize,
    order: &[usize],
) -> (cut: usize)
    requires
        in_range(edges@, number_of_vertices as nat),
        names_edges(order@, edges@.len()),
    ensures
        cut == trial_cut(edges@, number_of_vertices as nat, order@),
        cut <= edges.len(),
        number_of_vertices <= 2 ==> cut == non_loops(edges@),
{
    let n = number_of_vertices;
    let mut forest = DisjointSetForest::new(n);
    let mut merges: usize = 0;
    let mut i: usize = 0;
    proof {
        assert(order@.take(0) =~= Seq::<usize>::empty());
    }
    while i < order.len() && n >= 2 && merges < n - 2
        invariant
            i <= order.len(),
            n == number_of_vertices,
            in_range(edges@, n as nat),
            names_edges(order@, edges@.len()),
            forest.wf(),
            forest@.len() == n,
            merges == contracted(edges@, n as nat, order@.take(i as int)).1,
            same_partition(forest@, contracted(edges@, n as nat, order@.take(i as int)).0),
        decreases order.len() - i,
    {
        let e = edges[order[i]];
        let ghost before = contracted(edges@, n as nat, order@.take(i as int));
        proof {
            assert(order@.take(i + 1).drop_last() =~= order@.take(i as int));
            assert(order@.take(i + 1).last() == order@[i as int]);
        }
        let ghost reps = forest@;
        let ghost winner = forest.winner(e.v1, e.v2);
        let ghost loser = forest.loser(e.v1, e.v2);
        if forest.union(e.v1, e.v2) {
            merges = merges + 1;
            proof {
                lemma_join_agrees(reps, before.0, e, winner, loser);
            }
        }
        i = i + 1;
    }
    proof {
        if i == order.len() {
            assert(order@.take(i as int) =~= order@);
        } else {
            lemma_contraction_settles(edges@, n as nat, order@, i as int);
        }
    }
    let ghost labels = contracted(edges@, n as nat, order@).0;
    let mut cut: usize = 0;
    let mut j: usize = 0;
    proof {
        assert(edges@.take(0) =~= Seq::<Edge>::empty());
        lemma_cut_size_push(Seq::<Edge>::empty(), Edge { v1: 0, v2: 0 }, labels);
    }
    while j < edges.len()
        invariant
            j <= edges.len(),
            in_range(edges@, n as nat),
            forest.wf(),
            forest@.len() == n,
            same_partition(forest@, labels),
            cut == cut_size(edges@.take(j as int), labels),
            cut <= j,
        decreases edges.len() - j,
    {
        let e = edges[j];
        proof {
            assert(edges@.take(j + 1) =~= edges@.take(j as int).push(e));
            lemma_cut_size_push(edges@.take(j as int), e, labels);
        }
        if !forest.same_set(e.v1, e.v2) {
            cut = cut + 1;
        }
        j = j + 1;
    }
    proof {
        assert(edges@.take(j as int) =~= edges@);
        if n <= 2 {
            lemma_small_graph(edges@, n as nat, order@);
        }
    }
    cut
}

/// Joining the sets of the endpoints of an edge in the forest is
/// contracting that edge in the labelling.
proof fn lemma_join_agrees(reps: Seq<usize>, labels: Seq<usize>, e: Edge, winner: usize, loser: usize)
    requires
        same_partition(reps, labels),
        e.v1 < reps.len(),
        e.v2 < reps.len(),
        reps[e.v1 as int] != reps[e.v2 as int],
        winner == reps[e.v1 as int] && loser == reps[e.v2 as int] || winner == reps[e.v2 as int]
            && loser == reps[e.v1 as int],
    ensures
        same_partition(join(reps, winner, loser), contract(labels, e)),
{
    let next_reps = join(reps, winner, loser);
    let next_labels = contract(labels, e);
    assert forall|x: int, y: int| 0 <= x < reps.len() && 0 <= y < reps.len() implies ((
    #[trigger] next_reps[x] == #[trigger] next_reps[y]) <==> next_labels[x] == next_labels[y]) by {
        assert(reps[x] == reps[y] <==> labels[x] == labels[y]);
        assert(reps[x] == reps[e.v1 as int] <==> labels[x] == labels[e.v1 as int]);
        assert(reps[x] == reps[e.v2 as int] <==> labels[x] == labels[e.v2 as int]);
        assert(reps[y] == reps[e.v1 as int] <==> labels[y] == labels[e.v1 as int]);
        assert(reps[y] == reps[e.v2 as int] <==> labels[y] == labels[e.v2 as int]);
    }
}

} // verus!
