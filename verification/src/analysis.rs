//! The analysis of one graph: an estimate of its minimum cut, and the number
//! of trials that it takes on average to find that cut again, each of the
//! two phases timed.

use crate::edge::{in_range, Edge};
use crate::minimum::{is_least_of_trials, karger_run_n};
use crate::repetition::{karger_run_until_within, stops_after, REPETITION_LIMIT};
use crate::vertices::{number_of_vertices, vertex_set};
use rand::rngs::StdRng;
use std::time::{Duration, Instant};
use vstd::prelude::*;

verus! {

/// A reading of the clock, `std::time::Instant`, kept only to measure from.
/// Nothing is known of what it holds.
#[verifier::external_type_specification]
#[verifier::external_body]
pub struct ExInstant(std::time::Instant);

/// The number of trials from which the minimum cut is estimated.
pub const REPETITIONS_FOR_OPT: usize = 200;

/// The number of runs over which the trials needed are averaged.
pub const REPETITIONS_FOR_AVG: usize = 500;

/// How many trials and runs an analysis makes.
#[derive(Clone, Copy, Debug)]
pub struct AnalysisConfig {
    /// The number of trials from which the minimum cut is estimated.
    pub repetitions_for_opt: usize,
    /// The number of runs over which the trials needed are averaged.
    pub repetitions_for_avg: usize,
    /// The number of trials after which a run gives up.
    pub repetition_limit: usize,
}

impl Default for AnalysisConfig {
    fn default() -> (config: Self)
        ensures
            config.repetitions_for_opt == REPETITIONS_FOR_OPT,
            config.repetitions_for_avg == REPETITIONS_FOR_AVG,
            config.repetition_limit == REPETITION_LIMIT,
    {
        AnalysisConfig {
            repetitions_for_opt: REPETITIONS_FOR_OPT,
            repetitions_for_avg: REPETITIONS_FOR_AVG,
            repetition_limit: REPETITION_LIMIT,
        }
    }
}

/// What the analysis of one graph has found.
#[derive(Clone, Copy, Debug)]
pub struct GraphReport {
    /// The number of vertices of the graph.
    pub number_of_vertices: usize,
    /// The number of edges of the graph.
    pub number_of_edges: usize,
    /// The least cut seen, taken for the minimum cut.
    pub opt: usize,
    /// The number of runs made to find `opt` again.
    pub runs: usize,
    /// The trials that these runs made, all together.
    pub sum_repetitions: u128,
    /// The time that it took to estimate `opt`.
    pub opt_duration: Duration,
    /// The time that the runs took.
    pub avg_duration: Duration,
}

/// The sum of `counts`.
pub open spec fn total(counts: Seq<nat>) -> nat
    decreases counts.len(),
{
    if counts.len() == 0 {
        0
    } else {
        total(counts.drop_last()) + counts.last()
    }
}

/// Whether `sum` trials can be what `runs` runs make together, each run
/// stopping at the first trial that finds `opt` and after `limit` trials at
/// the latest.
pub open spec fn is_sum_of_runs(
    edges: Seq<Edge>,
    n: nat,
    opt: nat,
    limit: nat,
    runs: nat,
    sum: nat,
) -> bool {
    exists|counts: Seq<nat>|
        #![trigger total(counts)]
        {
            &&& counts.len() == runs
            &&& forall|i: int|
                0 <= i < runs ==> stops_after(edges, n, opt, limit, #[trigger] counts[i])
            &&& sum == total(counts)
        }
}

/// Reads the clock, by `std::time::Instant::now`. Nothing is claimed of the
/// reading.
#[verifier::external_body]
fn now() -> Instant {
    Instant::now()
}

/// The time that has passed since `start` was read, by
/// `std::time::Instant::elapsed`. Nothing is claimed of its length.
#[verifier::external_body]
fn elapsed(start: &Instant) -> Duration {
    start.elapsed()
}

/// The trials that `runs` runs make all together, where each run stops at
/// the first trial that finds the cut `opt` and after `limit` trials at the
/// latest.
pub fn sum_repetitions(
    edges: &[Edge],
    number_of_vertices: usize,
    opt: usize,
    runs: usize,
    limit: usize,
    rng: &mut StdRng,
) -> (sum: u128)
    requires
        in_range(edges@, number_of_vertices as nat),
    ensures
        is_sum_of_runs(
            edges@,
            number_of_vertices as nat,
            opt as nat,
            limit as nat,
            runs as nat,
            sum as nat,
        ),
        sum <= runs * limit,
        limit > 0 ==> sum >= runs,
        opt > edges.len() ==> sum == runs * limit,
{
    let mut sum: u128 = 0;
    let mut done: usize = 0;
    let ghost mut counts: Seq<nat> = Seq::empty();
    while done < runs
        invariant
            done <= runs,
            in_range(edges@, number_of_vertices as nat),
            counts.len() == done,
            forall|i: int|
                0 <= i < done ==> stops_after(
                    edges@,
                    number_of_vertices as nat,
                    opt as nat,
                    limit as nat,
                    #[trigger] counts[i],
                ),
            sum == total(counts),
            sum <= done * limit,
            limit > 0 ==> sum >= done,
            opt > edges.len() ==> sum == done * limit,
        decreases runs - done,
    {
        let attempts = karger_run_until_within(edges, number_of_vertices, opt, limit, rng);
        proof {
            assert(counts.push(attempts as nat).drop_last() =~= counts);
            counts = counts.push(attempts as nat);
            assert((done + 1) * limit == done * limit + limit) by (nonlinear_arith);
            assert((done + 1) * limit <= usize::MAX * usize::MAX) by (nonlinear_arith)
                requires
                    done + 1 <= usize::MAX,
                    limit <= usize::MAX,
            ;
            assert(usize::MAX * usize::MAX <= u128::MAX) by (nonlinear_arith)
                requires
                    usize::MAX <= u64::MAX,
            ;
        }
        sum = sum + attempts as u128;
        done = done + 1;
    }
    sum
}

/// Analyses the graph: its vertices and edges are counted, its minimum cut
/// is estimated from `config.repetitions_for_opt` trials, and
/// `config.repetitions_for_avg` runs are made to find that cut again, each
/// of at most `config.repetition_limit` trials. Both phases are timed.
pub fn analyze_graph(
    edges: &[Edge],
    config: &AnalysisConfig,
    rng: &mut StdRng,
) -> (report: GraphReport)
    requires
        in_range(edges@, vertex_set(edges@).len()),
    ensures
        report.number_of_vertices == vertex_set(edges@).len(),
        report.number_of_edges == edges@.len(),
        is_least_of_trials(
            edges@,
            report.number_of_vertices as nat,
            config.repetitions_for_opt as nat,
            report.opt as nat,
        ),
        config.repetitions_for_opt == 0 ==> report.opt == usize::MAX,
        config.repetitions_for_opt > 0 ==> report.opt <= edges@.len(),
        report.runs == config.repetitions_for_avg,
        is_sum_of_runs(
            edges@,
            report.number_of_vertices as nat,
            report.opt as nat,
            config.repetition_limit as nat,
            report.runs as nat,
            report.sum_repetitions as nat,
        ),
        report.sum_repetitions <= report.runs * config.repetition_limit,
        config.repetition_limit > 0 ==> report.sum_repetitions >= report.runs,
{
    let number_of_vertices = number_of_vertices(edges);
    let number_of_edges = edges.len();

    let start_opt = now();
    let opt = karger_run_n(edges, number_of_vertices, config.repetitions_for_opt, rng);
    let opt_duration = elapsed(&start_opt);

    let start_avg = now();
    let sum_repetitions = sum_repetitions(
        edges,
        number_of_vertices,
        opt,
        config.repetitions_for_avg,
        config.repetition_limit,
        rng,
    );
    let avg_duration = elapsed(&start_avg);

    GraphReport {
        number_of_vertices,
        number_of_edges,
        opt,
        runs: config.repetitions_for_avg,
        sum_repetitions,
        opt_duration,
        avg_duration,
    }
}

} // verus!
