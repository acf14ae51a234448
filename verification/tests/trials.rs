use mincut::contraction::karger_step_in_order;
use mincut::edge::Edge;
use mincut::trial::karger_step;
use mincut::permutation::random_permutation;
use rand::rngs::StdRng;
use rand::SeedableRng;
use union_find::{QuickUnionUf, UnionByRank, UnionFind};

fn graph(pairs: &[(usize, usize)]) -> Vec<Edge> {
    pairs.iter().map(|&(v1, v2)| Edge { v1, v2 }).collect()
}

fn cycle(k: usize) -> Vec<Edge> {
    (0..k).map(|v| Edge { v1: v, v2: (v + 1) % k }).collect()
}

/// The same trial, with the blocks kept in a quick-union structure.
fn cut_by_quick_union(edges: &[Edge], n: usize, order: &[usize]) -> usize {
    let mut uf = QuickUnionUf::<UnionByRank>::new(n);
    let mut merges = 0;
    for &i in order {
        if merges + 2 >= n {
            break;
        }
        let edge = &edges[i];
        if uf.find(edge.v1) != uf.find(edge.v2) {
            uf.union(edge.v1, edge.v2);
            merges += 1;
        }
    }
    let mut cut = 0;
    for &i in order {
        let edge = &edges[i];
        if uf.find(edge.v1) != uf.find(edge.v2) {
            cut += 1;
        }
    }
    cut
}

fn permutations(size: usize) -> Vec<Vec<usize>> {
    if size == 0 {
        return vec![vec![]];
    }
    let mut all = Vec::new();
    for shorter in permutations(size - 1) {
        for place in 0..size {
            let mut order = shorter.clone();
            order.insert(place, size - 1);
            all.push(order);
        }
    }
    all
}

#[test]
fn triangle_is_cut_by_two_edges_in_every_order() {
    let edges = graph(&[(0, 1), (1, 2), (0, 2)]);
    let orders = permutations(3);
    assert_eq!(orders.len(), 6);
    for order in orders {
        assert_eq!(karger_step_in_order(&edges, 3, &order), 2);
    }
}

#[test]
fn single_edge_is_always_a_cut_of_one() {
    let edges = graph(&[(0, 1)]);
    assert_eq!(karger_step_in_order(&edges, 2, &[0]), 1);
    for seed in 0..50 {
        let mut rng = StdRng::seed_from_u64(seed);
        assert_eq!(karger_step(&edges, 2, &mut rng), 1);
    }
}

#[test]
fn path_is_cut_where_the_order_leaves_it() {
    let edges = graph(&[(0, 1), (1, 2), (2, 3)]);
    assert_eq!(karger_step_in_order(&edges, 4, &[0, 1, 2]), 1);
    assert_eq!(karger_step_in_order(&edges, 4, &[0, 2, 1]), 1);
    assert_eq!(karger_step_in_order(&edges, 4, &[2, 1, 0]), 1);
}

#[test]
fn parallel_edges_count_one_by_one() {
    let edges = graph(&[(0, 1), (0, 1), (1, 2)]);
    assert_eq!(karger_step_in_order(&edges, 3, &[2, 0, 1]), 2);
    assert_eq!(karger_step_in_order(&edges, 3, &[0, 1, 2]), 1);
    assert_eq!(karger_step_in_order(&edges, 3, &[1, 2, 0]), 1);
}

#[test]
fn contraction_stops_at_two_blocks() {
    // Two triangles joined by one edge: once an order has contracted four
    // edges it must not go on to the fifth.
    let edges = graph(&[(0, 1), (1, 2), (0, 2), (3, 4), (4, 5), (3, 5), (2, 3)]);
    assert_eq!(karger_step_in_order(&edges, 6, &[0, 1, 2, 3, 4, 5, 6]), 1);
    assert_eq!(karger_step_in_order(&edges, 6, &[6, 0, 1, 3, 4, 5, 2]), 2);
    assert_eq!(karger_step_in_order(&edges, 6, &[0, 6, 3, 4, 1, 2, 5]), 2);
}

#[test]
fn edges_already_inside_a_block_are_skipped() {
    let edges = graph(&[(0, 1), (1, 0), (1, 2), (2, 3)]);
    // The second edge joins nothing, so the third and fourth are still offered.
    assert_eq!(karger_step_in_order(&edges, 4, &[0, 1, 2, 3]), 1);
    assert_eq!(karger_step_in_order(&edges, 4, &[2, 3, 0, 1]), 2);
}

#[test]
fn small_graphs_are_not_contracted() {
    assert_eq!(karger_step_in_order(&[], 0, &[]), 0);
    let loops = graph(&[(0, 0), (0, 0)]);
    assert_eq!(karger_step_in_order(&loops, 1, &[1, 0]), 0);
    let pair = graph(&[(0, 1), (0, 0), (1, 0), (1, 1)]);
    assert_eq!(karger_step_in_order(&pair, 2, &[3, 2, 1, 0]), 2);
    assert_eq!(karger_step_in_order(&pair, 2, &[]), 2);
}

#[test]
fn graph_without_edges_has_cut_zero() {
    let mut rng = StdRng::seed_from_u64(3);
    assert_eq!(karger_step(&[], 0, &mut rng), 0);
    assert_eq!(karger_step(&[], 5, &mut rng), 0);
}

#[test]
fn empty_order_contracts_nothing() {
    let edges = graph(&[(0, 1), (1, 2), (0, 2), (2, 2)]);
    assert_eq!(karger_step_in_order(&edges, 3, &[]), 3);
}

#[test]
fn order_may_name_an_edge_twice() {
    let edges = graph(&[(0, 1), (1, 2), (2, 3)]);
    assert_eq!(karger_step_in_order(&edges, 4, &[0, 0, 0]), 2);
}

#[test]
fn unconnected_graph_may_be_left_in_more_blocks() {
    let edges = graph(&[(0, 1), (2, 3), (4, 5)]);
    assert_eq!(karger_step_in_order(&edges, 6, &[0, 1, 2]), 0);
    assert_eq!(karger_step_in_order(&edges, 6, &[0]), 2);
}

#[test]
fn cut_is_never_more_than_the_edges() {
    let mut rng = StdRng::seed_from_u64(99);
    for k in 3..12 {
        let mut edges = cycle(k);
        edges.push(Edge { v1: 0, v2: k / 2 });
        edges.push(Edge { v1: 1, v2: 1 });
        for _ in 0..20 {
            let cut = karger_step(&edges, k, &mut rng);
            assert!(cut <= edges.len());
            assert!(cut >= 2);
        }
    }
}

#[test]
fn cycle_is_always_cut_by_two_edges() {
    for k in 3..7 {
        let edges = cycle(k);
        for order in permutations(k) {
            assert_eq!(karger_step_in_order(&edges, k, &order), 2);
        }
    }
}

#[test]
fn random_permutation_holds_each_index_once() {
    let mut rng = StdRng::seed_from_u64(7);
    for size in [0usize, 1, 2, 10, 257] {
        let order = random_permutation(size, &mut rng);
        assert_eq!(order.len(), size);
        let mut sorted = order.clone();
        sorted.sort();
        assert_eq!(sorted, (0..size).collect::<Vec<usize>>());
    }
}

#[test]
fn random_permutation_does_shuffle() {
    let mut rng = StdRng::seed_from_u64(7);
    let rising: Vec<usize> = (0..100).collect();
    let first = random_permutation(100, &mut rng);
    let second = random_permutation(100, &mut rng);
    assert_ne!(first, rising);
    assert_ne!(second, rising);
    assert_ne!(first, second);
}

#[test]
fn same_seed_gives_the_same_trial() {
    let mut edges = cycle(9);
    edges.push(Edge { v1: 0, v2: 4 });
    edges.push(Edge { v1: 2, v2: 7 });
    let mut a = StdRng::seed_from_u64(2024);
    let mut b = StdRng::seed_from_u64(2024);
    for _ in 0..30 {
        assert_eq!(karger_step(&edges, 9, &mut a), karger_step(&edges, 9, &mut b));
    }
}

#[test]
fn random_trial_is_the_trial_in_the_order_drawn() {
    let mut edges = cycle(8);
    edges.push(Edge { v1: 0, v2: 3 });
    edges.push(Edge { v1: 0, v2: 3 });
    let mut a = StdRng::seed_from_u64(5);
    let mut b = StdRng::seed_from_u64(5);
    for _ in 0..30 {
        let order = random_permutation(edges.len(), &mut a);
        assert_eq!(karger_step(&edges, 8, &mut b), karger_step_in_order(&edges, 8, &order));
    }
}

#[test]
fn trial_agrees_with_quick_union() {
    let mut rng = StdRng::seed_from_u64(404);
    for n in 2..14usize {
        let mut edges = cycle(n);
        for v in 0..n {
            edges.push(Edge { v1: v, v2: (v * v + 1) % n });
            edges.push(Edge { v1: (3 * v) % n, v2: (v + 2) % n });
        }
        for _ in 0..25 {
            let order = random_permutation(edges.len(), &mut rng);
            assert_eq!(
                karger_step_in_order(&edges, n, &order),
                cut_by_quick_union(&edges, n, &order)
            );
        }
    }
}
