use mincut::analysis::{
    analyze_graph, sum_repetitions, AnalysisConfig, REPETITIONS_FOR_AVG, REPETITIONS_FOR_OPT,
};
use mincut::edge::{vertices_in_range, Edge};
use mincut::repetition::REPETITION_LIMIT;
use mincut::parse::parse_graph;
use mincut::vertices::number_of_vertices;
use rand::rngs::StdRng;
use rand::SeedableRng;

fn barbell() -> Vec<Edge> {
    parse_graph("0 1\n1 2\n0 2\n3 4\n4 5\n3 5\n2 3\n").unwrap()
}

#[test]
fn default_config_has_the_usual_counts() {
    let config = AnalysisConfig::default();
    assert_eq!(config.repetitions_for_opt, 200);
    assert_eq!(config.repetitions_for_avg, 500);
    assert_eq!(config.repetition_limit, 1000);
    assert_eq!(REPETITIONS_FOR_OPT, 200);
    assert_eq!(REPETITIONS_FOR_AVG, 500);
    assert_eq!(REPETITION_LIMIT, 1000);
}

#[test]
fn analysis_reports_the_graph_and_its_minimum_cut() {
    let edges = barbell();
    assert!(vertices_in_range(&edges, number_of_vertices(&edges)));
    let mut rng = StdRng::seed_from_u64(8);
    let report = analyze_graph(&edges, &AnalysisConfig::default(), &mut rng);
    assert_eq!(report.number_of_vertices, 6);
    assert_eq!(report.number_of_edges, 7);
    assert_eq!(report.opt, 1);
    assert_eq!(report.runs, 500);
    assert!(report.sum_repetitions >= 500);
    assert!(report.sum_repetitions < 500 * 1000);
    let mean = report.sum_repetitions as f64 / report.runs as f64;
    assert!(mean > 1.0 && mean < 20.0);
}

#[test]
fn analysis_of_a_triangle_needs_one_trial_each_run() {
    let edges = parse_graph("0 1\n1 2\n0 2").unwrap();
    let config = AnalysisConfig { repetitions_for_opt: 3, repetitions_for_avg: 40, repetition_limit: 9 };
    let mut rng = StdRng::seed_from_u64(8);
    let report = analyze_graph(&edges, &config, &mut rng);
    assert_eq!(report.number_of_vertices, 3);
    assert_eq!(report.number_of_edges, 3);
    assert_eq!(report.opt, 2);
    assert_eq!(report.runs, 40);
    assert_eq!(report.sum_repetitions, 40);
}

#[test]
fn analysis_of_the_empty_graph() {
    let config = AnalysisConfig { repetitions_for_opt: 2, repetitions_for_avg: 5, repetition_limit: 4 };
    let mut rng = StdRng::seed_from_u64(8);
    let report = analyze_graph(&[], &config, &mut rng);
    assert_eq!(report.number_of_vertices, 0);
    assert_eq!(report.number_of_edges, 0);
    assert_eq!(report.opt, 0);
    assert_eq!(report.sum_repetitions, 5);
}

#[test]
fn analysis_without_trials_finds_no_cut_again() {
    let edges = barbell();
    let config = AnalysisConfig { repetitions_for_opt: 0, repetitions_for_avg: 6, repetition_limit: 11 };
    let mut rng = StdRng::seed_from_u64(8);
    let report = analyze_graph(&edges, &config, &mut rng);
    assert_eq!(report.opt, usize::MAX);
    assert_eq!(report.runs, 6);
    assert_eq!(report.sum_repetitions, 66);
}

#[test]
fn sum_of_runs_counts_every_trial() {
    let edges = barbell();
    let mut rng = StdRng::seed_from_u64(21);
    assert_eq!(sum_repetitions(&edges, 6, 100, 7, 13, &mut rng), 91);
    assert_eq!(sum_repetitions(&edges, 6, 1, 0, 13, &mut rng), 0);
    assert_eq!(sum_repetitions(&edges, 6, 1, 9, 0, &mut rng), 0);
    let sum = sum_repetitions(&edges, 6, 1, 50, 1000, &mut rng);
    assert!(sum >= 50 && sum < 50 * 1000);
}
