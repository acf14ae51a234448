//! The cycle graphs, whose minimum cut is two.

use crate::contraction::{names_edges, trial_cut};
use crate::counting::{lemma_filter_keeps_just_two, lemma_filter_keeps_two};
use crate::cuts::{bounds_every_cut, crossing, is_bipartition, lemma_trial_cut_not_below};
use crate::edge::{in_range, Edge};
use vstd::prelude::*;

verus! {

/// The cycle on the vertices `0..k`: an edge from each vertex to the next,
/// and one from the last back to the first.
pub open spec fn cycle(k: nat) -> Seq<Edge> {
    Seq::new(k, |i: int| Edge { v1: i as usize, v2: ((i + 1) % (k as int)) as usize })
}

/// The first place at which `side` differs from its first entry.
proof fn first_other(side: Seq<bool>, z: int) -> (p: int)
    requires
        0 <= z < side.len(),
        side[z] != side[0],
    ensures
        0 < p <= z,
        side[p] != side[0],
        forall|i: int| 0 <= i < p ==> #[trigger] side[i] == side[0],
    decreases z,
{
    if exists|i: int| 0 <= i < z && #[trigger] side[i] != side[0] {
        let i = choose|i: int| 0 <= i < z && #[trigger] side[i] != side[0];
        first_other(side, i)
    } else {
        z
    }
}

/// The last place at which `side` differs from its first entry.
proof fn last_other(side: Seq<bool>, z: int) -> (q: int)
    requires
        0 <= z < side.len(),
        side[z] != side[0],
    ensures
        z <= q < side.len(),
        side[q] != side[0],
        forall|i: int| q < i < side.len() ==> #[trigger] side[i] == side[0],
    decreases side.len() - z,
{
    if exists|i: int| z < i < side.len() && #[trigger] side[i] != side[0] {
        let i = choose|i: int| z < i < side.len() && #[trigger] side[i] != side[0];
        last_other(side, i)
    } else {
        z
    }
}

/// The endpoints of a cycle on `k` vertices are among `0..k`.
pub proof fn lemma_cycle_in_range(k: nat)
    requires
        k <= usize::MAX,
    ensures
        cycle(k).len() == k,
        in_range(cycle(k), k),
{
    assert forall|i: int| 0 <= i < k implies (#[trigger] cycle(k)[i]).v1 < k && cycle(k)[i].v2
        < k by {
        vstd::arithmetic::div_mod::lemma_mod_bound(i + 1, k as int);
    }
}

/// Every way to split a cycle of two vertices or more in two is crossed by
/// two edges at least: its minimum cut is not below two.
pub proof fn lemma_cycle_cuts(k: nat)
    requires
        2 <= k <= usize::MAX,
    ensures
        bounds_every_cut(cycle(k), k, 2),
{
    let edges = cycle(k);
    assert forall|side: Seq<bool>| is_bipartition(side, k) implies #[trigger] crossing(edges, side)
        >= 2 by {
        let (x, y) = choose|x: int, y: int|
            0 <= x < k && 0 <= y < k && #[trigger] side[x] && !#[trigger] side[y];
        let z = if side[x] != side[0] {
            x
        } else {
            y
        };
        let p = first_other(side, z);
        let q = last_other(side, z);
        let crosses_side = |e: Edge| side[e.v1 as int] != side[e.v2 as int];
        vstd::arithmetic::div_mod::lemma_small_mod(p as nat, k);
        assert(edges[p - 1].v1 == p - 1 && edges[p - 1].v2 == p);
        assert(crosses_side(edges[p - 1]));
        if q + 1 < k {
            vstd::arithmetic::div_mod::lemma_small_mod((q + 1) as nat, k);
        } else {
            vstd::arithmetic::div_mod::lemma_mod_self_0(k as int);
        }
        assert(crosses_side(edges[q]));
        lemma_filter_keeps_two(edges, crosses_side, p - 1, q);
    }
}

/// A cycle of two vertices or more is split in two by two of its edges: its
/// minimum cut is two.
pub proof fn lemma_cycle_minimum_cut(k: nat) -> (side: Seq<bool>)
    requires
        2 <= k <= usize::MAX,
    ensures
        is_bipartition(side, k),
        crossing(cycle(k), side) == 2,
        bounds_every_cut(cycle(k), k, 2),
{
    let edges = cycle(k);
    let side = Seq::new(k, |x: int| x == 0);
    assert(side[0] && !side[1]);
    let crosses_side = |e: Edge| side[e.v1 as int] != side[e.v2 as int];
    assert forall|i: int| 0 <= i < edges.len() implies (crosses_side(#[trigger] edges[i]) <==> i
        == 0 || i == k - 1) by {
        if i + 1 < k {
            vstd::arithmetic::div_mod::lemma_small_mod((i + 1) as nat, k);
        } else {
            vstd::arithmetic::div_mod::lemma_mod_self_0(k as int);
        }
    }
    lemma_filter_keeps_just_two(edges, crosses_side, 0, k - 1);
    lemma_cycle_cuts(k);
    side
}

/// On a cycle of two vertices or more no trial finds a cut of less than two
/// edges.
pub proof fn lemma_cycle_trial(k: nat, order: Seq<usize>)
    requires
        2 <= k <= usize::MAX,
        names_edges(order, k),
    ensures
        trial_cut(cycle(k), k, order) >= 2,
{
    lemma_cycle_in_range(k);
    lemma_cycle_cuts(k);
    lemma_trial_cut_not_below(cycle(k), k, order, 2);
}

} // verus!
