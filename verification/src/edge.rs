//! Edges of an undirected multigraph whose vertices are numbered from zero.

use vstd::prelude::*;

verus! {

/// An undirected edge between the vertices `v1` and `v2`. The two may be the
/// same vertex, and a graph may hold the same pair several times.
#[derive(Clone, Copy, Debug, PartialEq, Eq, Structural)]
pub struct Edge {
    pub v1: usize,
    pub v2: usize,
}

/// Whether every endpoint of `edges` is one of the vertices `0..n`.
pub open spec fn in_range(edges: Seq<Edge>, n: nat) -> bool {
    forall|i: int| 0 <= i < edges.len() ==> (#[trigger] edges[i]).v1 < n && edges[i].v2 < n
}

/// The number of edges of `edges` whose two endpoints differ.
pub open spec fn non_loops(edges: Seq<Edge>) -> nat {
    edges.filter(|e: Edge| e.v1 != e.v2).len()
}

/// Whether every endpoint of `edges` is below `number_of_vertices`.
pub fn vertices_in_range(edges: &[Edge], number_of_vertices: usize) -> (ok: bool)
    ensures
        ok == in_range(edges@, number_of_vertices as nat),
{
    let mut i: usize = 0;
    while i < edges.len()
        invariant
            i <= edges.len(),
            in_range(edges@.take(i as int), number_of_vertices as nat),
        decreases edges.len() - i,
    {
        if edges[i].v1 >= number_of_vertices || edges[i].v2 >= number_of_vertices {
            return false;
        }
        assert forall|j: int| 0 <= j < i + 1 implies (#[trigger] edges@.take(i + 1)[j]).v1
            < number_of_vertices && edges@.take(i + 1)[j].v2 < number_of_vertices by {
            if j < i {
                assert(edges@.take(i as int)[j] == edges@[j]);
            }
        }
        i = i + 1;
    }
    assert(edges@.take(i as int) =~= edges@);
    true
}

} // verus!
