//! The estimate of the minimum cut: the least cut seen in a number of
//! trials.

use crate::contraction::{karger_step_in_order, names_edges, trial_cut};
use crate::cuts::{bounds_every_cut, lemma_trial_cut_bounded, lemma_trial_cut_not_below};
use crate::cycle::{cycle, lemma_cycle_cuts, lemma_cycle_in_range};
use crate::edge::{in_range, non_loops, Edge};
use crate::permutation::{is_permutation, lemma_permutation};
use crate::trial::{all_name_edges, are_permutations, is_trial_cut, karger_step, views};
use rand::rngs::StdRng;
use vstd::prelude::*;

verus! {

/// The least cut among the trials that contract in the orders `orders`, and
/// `usize::MAX` where there is no trial.
pub open spec fn least_cut(edges: Seq<Edge>, n: nat, orders: Seq<Seq<usize>>) -> nat
    decreases orders.len(),
{
    if orders.len() == 0 {
        usize::MAX as nat
    } else {
        let rest = least_cut(edges, n, orders.drop_last());
        let cut = trial_cut(edges, n, orders.last());
        if cut < rest {
            cut
        } else {
            rest
        }
    }
}

/// Whether `least` is the least cut of some `repeats` trials on the graph.
pub open spec fn is_least_of_trials(edges: Seq<Edge>, n: nat, repeats: nat, least: nat) -> bool {
    exists|orders: Seq<Seq<usize>>|
        orders.len() == repeats && are_permutations(orders, edges.len()) && least
            == #[trigger] least_cut(edges, n, orders)
}

/// The least cut is no larger than the cut of any of the trials, and where
/// there is a trial it is the cut of one of them.
pub proof fn lemma_least_cut(edges: Seq<Edge>, n: nat, orders: Seq<Seq<usize>>)
    requires
        edges.len() <= usize::MAX,
    ensures
        forall|i: int|
            0 <= i < orders.len() ==> least_cut(edges, n, orders) <= trial_cut(
                edges,
                n,
                #[trigger] orders[i],
            ),
        orders.len() > 0 ==> exists|i: int|
            0 <= i < orders.len() && least_cut(edges, n, orders) == trial_cut(
                edges,
                n,
                #[trigger] orders[i],
            ),
        orders.len() > 0 ==> least_cut(edges, n, orders) <= edges.len(),
    decreases orders.len(),
{
    if orders.len() > 0 {
        let rest = orders.drop_last();
        lemma_least_cut(edges, n, rest);
        lemma_trial_cut_bounded(edges, n, orders.last());
        let least = least_cut(edges, n, orders);
        assert forall|i: int| 0 <= i < orders.len() implies least <= trial_cut(
            edges,
            n,
            #[trigger] orders[i],
        ) by {
            if i < rest.len() {
                assert(rest[i] == orders[i]);
            }
        }
        if least == trial_cut(edges, n, orders.last()) {
            assert(orders[orders.len() - 1] == orders.last());
        } else {
            let i = choose|i: int|
                0 <= i < rest.len() && least_cut(edges, n, rest) == trial_cut(
                    edges,
                    n,
                    #[trigger] rest[i],
                );
            assert(orders[i] == rest[i]);
        }
    }
}

/// More trials never raise the least cut: that of the first `k` trials is no
/// smaller than that of all of them.
pub proof fn lemma_least_cut_falls(edges: Seq<Edge>, n: nat, orders: Seq<Seq<usize>>, k: int)
    requires
        0 <= k <= orders.len(),
    ensures
        least_cut(edges, n, orders) <= least_cut(edges, n, orders.take(k)),
    decreases orders.len() - k,
{
    if k == orders.len() {
        assert(orders.take(k) =~= orders);
    } else {
        assert(orders.take(k + 1).drop_last() =~= orders.take(k));
        lemma_least_cut_falls(edges, n, orders, k + 1);
    }
}

/// The least cut of one trial or more is never less than a number that
/// bounds every cut of the graph from below.
pub proof fn lemma_least_cut_not_below(edges: Seq<Edge>, n: nat, orders: Seq<Seq<usize>>, k: nat)
    requires
        2 <= n <= usize::MAX,
        edges.len() <= usize::MAX,
        in_range(edges, n),
        orders.len() > 0,
        all_name_edges(orders, edges.len()),
        bounds_every_cut(edges, n, k),
    ensures
        least_cut(edges, n, orders) >= k,
{
    lemma_least_cut(edges, n, orders);
    let i = choose|i: int|
        0 <= i < orders.len() && least_cut(edges, n, orders) == trial_cut(
            edges,
            n,
            #[trigger] orders[i],
        );
    assert(names_edges(orders[i], edges.len()));
    lemma_trial_cut_not_below(edges, n, orders[i], k);
}

/// What `karger_run_n` returns after one trial or more is never less than a
/// number that bounds every cut of the graph from below.
pub proof fn lemma_least_of_trials_not_below(
    edges: Seq<Edge>,
    n: nat,
    repeats: nat,
    least: nat,
    k: nat,
)
    requires
        2 <= n <= usize::MAX,
        edges.len() <= usize::MAX,
        in_range(edges, n),
        repeats > 0,
        is_least_of_trials(edges, n, repeats, least),
        bounds_every_cut(edges, n, k),
    ensures
        least >= k,
{
    let orders = choose|orders: Seq<Seq<usize>>|
        orders.len() == repeats && are_permutations(orders, edges.len()) && least
            == #[trigger] least_cut(edges, n, orders);
    assert forall|i: int| 0 <= i < orders.len() implies names_edges(
        #[trigger] orders[i],
        edges.len(),
    ) by {
        lemma_permutation(orders[i], edges.len());
    }
    lemma_least_cut_not_below(edges, n, orders, k);
}

/// On a cycle of two vertices or more, what `karger_run_n` returns after one
/// trial or more is never less than two.
pub proof fn lemma_cycle_minimum(k: nat, repeats: nat, least: nat)
    requires
        2 <= k <= usize::MAX,
        repeats > 0,
        is_least_of_trials(cycle(k), k, repeats, least),
    ensures
        least >= 2,
{
    lemma_cycle_in_range(k);
    lemma_cycle_cuts(k);
    lemma_least_of_trials_not_below(cycle(k), k, repeats, least, 2);
}

/// The least cut of the trials that contract in the orders `orders`, and
/// `usize::MAX` where `orders` is empty.
pub fn karger_run_n_in_orders(
    edges: &[Edge],
    number_of_vertices: usize,
    orders: &[Vec<usize>],
) -> (least: usize)
    requires
        in_range(edges@, number_of_vertices as nat),
        all_name_edges(views(orders@), edges@.len()),
    ensures
        least == least_cut(edges@, number_of_vertices as nat, views(orders@)),
{
    let mut least: usize = usize::MAX;
    let mut done: usize = 0;
    proof {
        assert(views(orders@).take(0) =~= Seq::<Seq<usize>>::empty());
    }
    while done < orders.len()
        invariant
            done <= orders.len(),
            in_range(edges@, number_of_vertices as nat),
            all_name_edges(views(orders@), edges@.len()),
            least == least_cut(edges@, number_of_vertices as nat, views(orders@).take(done as int)),
        decreases orders.len() - done,
    {
        proof {
            let seen = views(orders@).take(done + 1);
            assert(seen.drop_last() =~= views(orders@).take(done as int));
            assert(seen.last() == orders@[done as int]@);
            assert(names_edges(views(orders@)[done as int], edges@.len()));
        }
        let cut = karger_step_in_order(edges, number_of_vertices, orders[done].as_slice());
        if cut < least {
            least = cut;
        }
        done = done + 1;
    }
    proof {
        assert(views(orders@).take(done as int) =~= views(orders@));
    }
    least
}

/// The least cut seen in `number_of_repeats` random trials, and `usize::MAX`
/// where no trial is asked for.
pub fn karger_run_n(
    edges: &[Edge],
    number_of_vertices: usize,
    number_of_repeats: usize,
    rng: &mut StdRng,
) -> (least: usize)
    requires
        in_range(edges@, number_of_vertices as nat),
    ensures
        is_least_of_trials(
            edges@,
            number_of_vertices as nat,
            number_of_repeats as nat,
            least as nat,
        ),
        number_of_repeats == 0 ==> least == usize::MAX,
        number_of_repeats > 0 ==> least <= edges.len() && is_trial_cut(
            edges@,
            number_of_vertices as nat,
            least as nat,
        ),
        number_of_repeats > 0 && number_of_vertices <= 2 ==> least == non_loops(edges@),
{
    let mut least: usize = usize::MAX;
    let mut done: usize = 0;
    let ghost mut orders: Seq<Seq<usize>> = Seq::empty();
    while done < number_of_repeats
        invariant
            done <= number_of_repeats,
            in_range(edges@, number_of_vertices as nat),
            orders.len() == done,
            are_permutations(orders, edges@.len()),
            least == least_cut(edges@, number_of_vertices as nat, orders),
            done == 0 ==> least == usize::MAX,
            done > 0 ==> least <= edges.len() && is_trial_cut(
                edges@,
                number_of_vertices as nat,
                least as nat,
            ),
            done > 0 && number_of_vertices <= 2 ==> least == non_loops(edges@),
        decreases number_of_repeats - done,
    {
        let cut = karger_step(edges, number_of_vertices, rng);
        proof {
            let order = choose|order: Seq<usize>|
                is_permutation(order, edges@.len()) && cut == #[trigger] trial_cut(
                    edges@,
                    number_of_vertices as nat,
                    order,
                );
            assert(orders.push(order).drop_last() =~= orders);
            orders = orders.push(order);
        }
        if cut < least {
            least = cut;
        }
        done = done + 1;
    }
    least
}

} // verus!
