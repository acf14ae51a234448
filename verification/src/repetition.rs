//! The number of trials that it takes to find a given cut again.

use crate::contraction::{karger_step_in_order, names_edges, trial_cut};
use crate::cuts::lemma_trial_cut_bounded;
use crate::edge::{in_range, non_loops, Edge};
use crate::permutation::is_permutation;
use crate::trial::{all_name_edges, are_permutations, karger_step, views};
use rand::rngs::StdRng;
use vstd::prelude::*;

verus! {

/// The number of trials after which `karger_run_until` gives up.
pub const REPETITION_LIMIT: usize = 1000;

/// The number of trials made until one finds the cut `opt`, where the trials
/// contract in the orders `orders` and stop when these are used up.
pub open spec fn attempts_needed(edges: Seq<Edge>, n: nat, opt: nat, orders: Seq<Seq<usize>>) -> nat
    decreases orders.len(),
{
    if orders.len() == 0 {
        0
    } else if trial_cut(edges, n, orders.first()) == opt {
        1
    } else {
        1 + attempts_needed(edges, n, opt, orders.drop_first())
    }
}

/// Whether each of the trials that contract in the orders `orders`, but for
/// the last of them, misses the cut `opt`.
pub open spec fn misses_before_last(
    edges: Seq<Edge>,
    n: nat,
    opt: nat,
    orders: Seq<Seq<usize>>,
) -> bool {
    forall|i: int| 0 <= i < orders.len() - 1 ==> trial_cut(edges, n, #[trigger] orders[i]) != opt
}

/// Whether trials that stop at the first to find `opt`, and after `limit`
/// trials at the latest, can stop after `attempts` trials: every trial before
/// the last has missed `opt`, and where the limit is not reached the last has
/// found it.
pub open spec fn stops_after(edges: Seq<Edge>, n: nat, opt: nat, limit: nat, attempts: nat) -> bool {
    exists|orders: Seq<Seq<usize>>|
        #![trigger misses_before_last(edges, n, opt, orders)]
        {
            &&& orders.len() == attempts
            &&& are_permutations(orders, edges.len())
            &&& misses_before_last(edges, n, opt, orders)
            &&& attempts <= limit
            &&& limit > 0 ==> attempts > 0
            &&& 0 < attempts < limit ==> trial_cut(edges, n, orders.last()) == opt
        }
}

/// Trials that all miss `opt` are all made; the count goes on with the rest.
pub proof fn lemma_attempts_after_misses(
    edges: Seq<Edge>,
    n: nat,
    opt: nat,
    orders: Seq<Seq<usize>>,
    k: int,
)
    requires
        0 <= k <= orders.len(),
        forall|i: int| 0 <= i < k ==> trial_cut(edges, n, #[trigger] orders[i]) != opt,
    ensures
        attempts_needed(edges, n, opt, orders) == k + attempts_needed(edges, n, opt, orders.skip(k)),
    decreases k,
{
    if k == 0 {
        assert(orders.skip(0) =~= orders);
    } else {
        let rest = orders.drop_first();
        assert(trial_cut(edges, n, orders[0]) != opt);
        assert forall|i: int| 0 <= i < k - 1 implies trial_cut(edges, n, #[trigger] rest[i])
            != opt by {
            assert(rest[i] == orders[i + 1]);
        }
        lemma_attempts_after_misses(edges, n, opt, rest, k - 1);
        assert(rest.skip(k - 1) =~= orders.skip(k));
    }
}

/// The count of the trials made until one finds `opt` is at least one where
/// there is a trial and at most their number; every trial before the last
/// one counted has missed `opt`, and where the count is less than their
/// number the last one counted has found it.
pub proof fn lemma_attempts_needed(edges: Seq<Edge>, n: nat, opt: nat, orders: Seq<Seq<usize>>)
    ensures
        attempts_needed(edges, n, opt, orders) <= orders.len(),
        orders.len() > 0 ==> attempts_needed(edges, n, opt, orders) >= 1,
        forall|i: int|
            0 <= i < attempts_needed(edges, n, opt, orders) - 1 ==> trial_cut(
                edges,
                n,
                #[trigger] orders[i],
            ) != opt,
        attempts_needed(edges, n, opt, orders) < orders.len() ==> trial_cut(
            edges,
            n,
            orders[attempts_needed(edges, n, opt, orders) - 1],
        ) == opt,
        attempts_needed(edges, n, opt, orders) == orders.len() <==> misses_before_last(
            edges,
            n,
            opt,
            orders,
        ),
    decreases orders.len(),
{
    if orders.len() > 0 {
        lemma_attempts_after_misses(edges, n, opt, orders, 0);
        if misses_before_last(edges, n, opt, orders) {
            lemma_attempts_after_misses(edges, n, opt, orders, orders.len() - 1);
            let tail = orders.skip(orders.len() - 1);
            assert(tail.drop_first().len() == 0);
            assert(attempts_needed(edges, n, opt, tail.drop_first()) == 0);
        }
    }
    if orders.len() > 0 && trial_cut(edges, n, orders.first()) != opt {
        let rest = orders.drop_first();
        lemma_attempts_needed(edges, n, opt, rest);
        let count = attempts_needed(edges, n, opt, orders);
        assert forall|i: int| 0 <= i < count - 1 implies trial_cut(edges, n, #[trigger] orders[i])
            != opt by {
            if i > 0 {
                assert(orders[i] == rest[i - 1]);
            }
        }
        if count < orders.len() {
            assert(orders[count - 1] == rest[count - 2]);
        }
    }
}

/// A cut that no trial can find, being larger than the number of edges, is
/// looked for until the trials are used up.
pub proof fn lemma_unreachable_target(edges: Seq<Edge>, n: nat, opt: nat, limit: nat, attempts: nat)
    requires
        opt > edges.len(),
        stops_after(edges, n, opt, limit, attempts),
    ensures
        attempts == limit,
{
    let orders = choose|orders: Seq<Seq<usize>>|
        #![trigger misses_before_last(edges, n, opt, orders)]
        {
            &&& orders.len() == attempts
            &&& are_permutations(orders, edges.len())
            &&& misses_before_last(edges, n, opt, orders)
            &&& attempts <= limit
            &&& limit > 0 ==> attempts > 0
            &&& 0 < attempts < limit ==> trial_cut(edges, n, orders.last()) == opt
        };
    if attempts > 0 {
        lemma_trial_cut_bounded(edges, n, orders.last());
    }
}

/// Trials that stop at the first to find `opt`, and after `limit` trials at
/// the latest, make one trial at least and `limit` at most.
pub proof fn lemma_stops_within(edges: Seq<Edge>, n: nat, opt: nat, limit: nat, attempts: nat)
    requires
        limit > 0,
        stops_after(edges, n, opt, limit, attempts),
    ensures
        1 <= attempts <= limit,
{
}

/// The number of trials made until one finds the cut `opt`, where the trials
/// contract in the orders `orders`: the place of the first that finds it,
/// counted from one, or the number of `orders` where none does.
pub fn karger_run_until_in_orders(
    edges: &[Edge],
    number_of_vertices: usize,
    opt: usize,
    orders: &[Vec<usize>],
) -> (attempts: usize)
    requires
        in_range(edges@, number_of_vertices as nat),
        all_name_edges(views(orders@), edges@.len()),
    ensures
        attempts == attempts_needed(
            edges@,
            number_of_vertices as nat,
            opt as nat,
            views(orders@),
        ),
        attempts <= orders.len(),
{
    let ghost all = views(orders@);
    let mut repetitions: usize = 0;
    let mut found = false;
    while repetitions < orders.len() && !found
        invariant
            repetitions <= orders.len(),
            in_range(edges@, number_of_vertices as nat),
            all == views(orders@),
            all_name_edges(all, edges@.len()),
            forall|i: int|
                0 <= i < repetitions - 1 ==> trial_cut(
                    edges@,
                    number_of_vertices as nat,
                    #[trigger] all[i],
                ) != opt,
            !found && repetitions > 0 ==> trial_cut(
                edges@,
                number_of_vertices as nat,
                all[repetitions - 1],
            ) != opt,
            found ==> repetitions > 0 && trial_cut(
                edges@,
                number_of_vertices as nat,
                all[repetitions - 1],
            ) == opt,
        decreases orders.len() - repetitions,
    {
        proof {
            assert(names_edges(all[repetitions as int], edges@.len()));
        }
        let cut = karger_step_in_order(edges, number_of_vertices, orders[repetitions].as_slice());
        repetitions = repetitions + 1;
        if cut == opt {
            found = true;
        }
    }
    proof {
        if found {
            lemma_attempts_after_misses(
                edges@,
                number_of_vertices as nat,
                opt as nat,
                all,
                repetitions - 1,
            );
            assert(all.skip(repetitions - 1).first() == all[repetitions - 1]);
        } else {
            lemma_attempts_after_misses(
                edges@,
                number_of_vertices as nat,
                opt as nat,
                all,
                repetitions as int,
            );
        }
    }
    repetitions
}

/// The number of random trials made until one finds the cut `opt`, with
/// `limit` trials at the most. Where the result is `limit`, the cut may never
/// have been found.
pub fn karger_run_until_within(
    edges: &[Edge],
    number_of_vertices: usize,
    opt: usize,
    limit: usize,
    rng: &mut StdRng,
) -> (attempts: usize)
    requires
        in_range(edges@, number_of_vertices as nat),
    ensures
        stops_after(
            edges@,
            number_of_vertices as nat,
            opt as nat,
            limit as nat,
            attempts as nat,
        ),
        attempts <= limit,
        limit > 0 ==> attempts >= 1,
        opt > edges.len() ==> attempts == limit,
        number_of_vertices <= 2 && limit > 0 ==> attempts == if opt == non_loops(edges@) {
            1
        } else {
            limit
        },
{
    let mut repetitions: usize = 0;
    let mut found = false;
    let ghost mut orders: Seq<Seq<usize>> = Seq::empty();
    while repetitions < limit && !found
        invariant
            repetitions <= limit,
            in_range(edges@, number_of_vertices as nat),
            orders.len() == repetitions,
            are_permutations(orders, edges@.len()),
            forall|i: int|
                0 <= i < repetitions - 1 ==> trial_cut(
                    edges@,
                    number_of_vertices as nat,
                    #[trigger] orders[i],
                ) != opt,
            !found && repetitions > 0 ==> trial_cut(
                edges@,
                number_of_vertices as nat,
                orders.last(),
            ) != opt,
            found ==> repetitions > 0 && trial_cut(
                edges@,
                number_of_vertices as nat,
                orders.last(),
            ) == opt,
            number_of_vertices <= 2 && opt == non_loops(edges@) ==> repetitions <= 1 && (found
                <==> repetitions == 1),
            number_of_vertices <= 2 && opt != non_loops(edges@) ==> !found,
        decreases limit - repetitions,
    {
        let cut = karger_step(edges, number_of_vertices, rng);
        proof {
            let order = choose|order: Seq<usize>|
                is_permutation(order, edges@.len()) && cut == #[trigger] trial_cut(
                    edges@,
                    number_of_vertices as nat,
                    order,
                );
            orders = orders.push(order);
        }
        repetitions = repetitions + 1;
        if cut == opt {
            found = true;
        }
    }
    proof {
        assert(misses_before_last(edges@, number_of_vertices as nat, opt as nat, orders));
        if opt > edges.len() {
            lemma_unreachable_target(
                edges@,
                number_of_vertices as nat,
                opt as nat,
                limit as nat,
                repetitions as nat,
            );
        }
    }
    repetitions
}

/// The number of random trials made until one finds the cut `opt`, with
/// `REPETITION_LIMIT` trials at the most.
pub fn karger_run_until(
    edges: &[Edge],
    number_of_vertices: usize,
    opt: usize,
    rng: &mut StdRng,
) -> (attempts: usize)
    requires
        in_range(edges@, number_of_vertices as nat),
    ensures
        stops_after(
            edges@,
            number_of_vertices as nat,
            opt as nat,
            REPETITION_LIMIT as nat,
            attempts as nat,
        ),
        1 <= attempts <= REPETITION_LIMIT,
        opt > edges.len() ==> attempts == REPETITION_LIMIT,
        number_of_vertices <= 2 ==> attempts == if opt == non_loops(edges@) {
            1
        } else {
            REPETITION_LIMIT
        },
{
    karger_run_until_within(edges, number_of_vertices, opt, REPETITION_LIMIT, rng)
}

} // verus!
