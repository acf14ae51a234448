//! One random trial: the edges are contracted in a random order and the
//! edges left between the blocks are counted.

use crate::contraction::{karger_step_in_order, names_edges, trial_cut};
use crate::cuts::{bounds_every_cut, lemma_trial_cut_not_below};
use crate::edge::{in_range, non_loops, Edge};
use crate::permutation::{is_permutation, lemma_permutation, random_permutation};
use rand::rngs::StdRng;
use vstd::prelude::*;

verus! {

/// Whether every entry of `orders` is a permutation of `0..edge_count`.
pub open spec fn are_permutations(orders: Seq<Seq<usize>>, edge_count: nat) -> bool {
    forall|i: int| 0 <= i < orders.len() ==> is_permutation(#[trigger] orders[i], edge_count)
}

/// Whether every entry of every order names an edge of a graph of
/// `edge_count` edges.
pub open spec fn all_name_edges(orders: Seq<Seq<usize>>, edge_count: nat) -> bool {
    forall|i: int| 0 <= i < orders.len() ==> names_edges(#[trigger] orders[i], edge_count)
}

/// The orders that `orders` holds, as sequences.
pub open spec fn views(orders: Seq<Vec<usize>>) -> Seq<Seq<usize>> {
    orders.map_values(|order: Vec<usize>| order@)
}

/// Whether a trial on the graph can find the cut `cut`: some order of all the
/// edges leads to it.
pub open spec fn is_trial_cut(edges: Seq<Edge>, n: nat, cut: nat) -> bool {
    exists|order: Seq<usize>|
        is_permutation(order, edges.len()) && cut == #[trigger] trial_cut(edges, n, order)
}

/// The cut that a random trial finds is never less than a number that bounds
/// every cut of the graph from below.
pub proof fn lemma_found_cut_not_below(edges: Seq<Edge>, n: nat, cut: nat, k: nat)
    requires
        2 <= n <= usize::MAX,
        edges.len() <= usize::MAX,
        in_range(edges, n),
        is_trial_cut(edges, n, cut),
        bounds_every_cut(edges, n, k),
    ensures
        cut >= k,
{
    let order = choose|order: Seq<usize>|
        is_permutation(order, edges.len()) && cut == #[trigger] trial_cut(edges, n, order);
    lemma_permutation(order, edges.len());
    lemma_trial_cut_not_below(edges, n, order, k);
}

/// One trial: the edges are contracted in a random order, and the edges left
/// between the blocks are counted.
pub fn karger_step(edges: &[Edge], number_of_vertices: usize, rng: &mut StdRng) -> (cut: usize)
    requires
        in_range(edges@, number_of_vertices as nat),
    ensures
        is_trial_cut(edges@, number_of_vertices as nat, cut as nat),
        cut <= edges.len(),
        number_of_vertices <= 2 ==> cut == non_loops(edges@),
{
    let order = random_permutation(edges.len(), rng);
    proof {
        lemma_permutation(order@, edges@.len());
    }
    karger_step_in_order(edges, number_of_vertices, order.as_slice())
}

} // verus!
