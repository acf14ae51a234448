//! The vertices of a graph, which are those that its edges name.

use crate::edge::Edge;
use std::collections::HashSet;
use vstd::prelude::*;

verus! {

/// The vertices that occur as an endpoint of some edge of `edges`.
pub open spec fn vertex_set(edges: Seq<Edge>) -> Set<usize> {
    edges.map_values(|e: Edge| e.v1).to_set().union(edges.map_values(|e: Edge| e.v2).to_set())
}

/// A vertex belongs to a graph where an edge names it, and one more edge
/// adds its two endpoints.
pub proof fn lemma_vertex_set(edges: Seq<Edge>)
    ensures
        vertex_set(edges).finite(),
        vertex_set(edges).len() <= 2 * edges.len(),
        forall|v: usize|
            vertex_set(edges).contains(v) <==> exists|i: int|
                0 <= i < edges.len() && ((#[trigger] edges[i]).v1 == v || edges[i].v2 == v),
        forall|e: Edge| #[trigger]
            vertex_set(edges.push(e)) == vertex_set(edges).insert(e.v1).insert(e.v2),
{
    let firsts = edges.map_values(|e: Edge| e.v1);
    let seconds = edges.map_values(|e: Edge| e.v2);
    firsts.lemma_cardinality_of_set();
    seconds.lemma_cardinality_of_set();
    vstd::set_lib::lemma_len_union(firsts.to_set(), seconds.to_set());
    assert forall|v: usize| vertex_set(edges).contains(v) implies exists|i: int|
        0 <= i < edges.len() && ((#[trigger] edges[i]).v1 == v || edges[i].v2 == v) by {
        if firsts.to_set().contains(v) {
            let i = choose|i: int| 0 <= i < firsts.len() && firsts[i] == v;
            assert(edges[i].v1 == v);
        } else {
            let i = choose|i: int| 0 <= i < seconds.len() && seconds[i] == v;
            assert(edges[i].v2 == v);
        }
    }
    assert forall|v: usize|
        (exists|i: int|
            0 <= i < edges.len() && ((#[trigger] edges[i]).v1 == v || edges[i].v2
                == v)) implies vertex_set(edges).contains(v) by {
        let i = choose|i: int|
            0 <= i < edges.len() && ((#[trigger] edges[i]).v1 == v || edges[i].v2 == v);
        if edges[i].v1 == v {
            assert(firsts[i] == v);
        } else {
            assert(seconds[i] == v);
        }
    }
    assert forall|e: Edge| #[trigger]
        vertex_set(edges.push(e)) == vertex_set(edges).insert(e.v1).insert(e.v2) by {
        let more = edges.push(e);
        assert(more.map_values(|e: Edge| e.v1) =~= firsts.push(e.v1));
        assert(more.map_values(|e: Edge| e.v2) =~= seconds.push(e.v2));
        assert(firsts.push(e.v1).to_set() =~= firsts.to_set().insert(e.v1)) by {
            assert forall|v: usize| firsts.to_set().insert(e.v1).contains(v) implies firsts.push(
                e.v1,
            ).to_set().contains(v) by {
                if v == e.v1 {
                    assert(firsts.push(e.v1)[firsts.len() as int] == v);
                } else {
                    let i = choose|i: int| 0 <= i < firsts.len() && firsts[i] == v;
                    assert(firsts.push(e.v1)[i] == v);
                }
            }
        }
        assert(seconds.push(e.v2).to_set() =~= seconds.to_set().insert(e.v2)) by {
            assert forall|v: usize| seconds.to_set().insert(e.v2).contains(v) implies seconds.push(
                e.v2,
            ).to_set().contains(v) by {
                if v == e.v2 {
                    assert(seconds.push(e.v2)[seconds.len() as int] == v);
                } else {
                    let i = choose|i: int| 0 <= i < seconds.len() && seconds[i] == v;
                    assert(seconds.push(e.v2)[i] == v);
                }
            }
        }
        assert(vertex_set(more) =~= vertex_set(edges).insert(e.v1).insert(e.v2));
    }
}

/// The number of vertices of the graph: of the distinct numbers that occur
/// as an endpoint of some edge.
pub fn number_of_vertices(edges: &[Edge]) -> (count: usize)
    ensures
        count == vertex_set(edges@).len(),
{
    broadcast use vstd::std_specs::hash::group_hash_axioms;

    let mut seen: HashSet<usize> = HashSet::new();
    let mut i: usize = 0;
    proof {
        assert(edges@.take(0) =~= Seq::<Edge>::empty());
        assert(vertex_set(Seq::<Edge>::empty()) =~= Set::<usize>::empty());
    }
    while i < edges.len()
        invariant
            i <= edges.len(),
            seen@ == vertex_set(edges@.take(i as int)),
        decreases edges.len() - i,
    {
        proof {
            lemma_vertex_set(edges@.take(i as int));
            assert(edges@.take(i + 1) =~= edges@.take(i as int).push(edges@[i as int]));
        }
        seen.insert(edges[i].v1);
        seen.insert(edges[i].v2);
        i = i + 1;
    }
    proof {
        assert(edges@.take(i as int) =~= edges@);
    }
    seen.len()
}

} // verus!
