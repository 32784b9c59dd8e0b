use corrnet::graph::{mr_squared, Edge, Graph};
use corrnet::rank::construct_rank_matrix;

fn key(x: f64) -> i64 {
    let m = x.abs().to_bits() as i64;
    if x < 0.0 {
        -m
    } else {
        m
    }
}

fn names(n: usize) -> Vec<String> {
    (1..=n).map(|i| format!("gene_{}", i)).collect()
}

fn corr4() -> Vec<Vec<i64>> {
    let arr = [
        [1.0, 0.2, -0.7, 0.4],
        [0.2, 1.0, 0.1, -0.9],
        [-0.7, 0.1, 1.0, 0.3],
        [0.4, -0.9, 0.3, 1.0],
    ];
    arr.iter().map(|r| r.iter().map(|x| key(*x)).collect()).collect()
}

fn pairs<T: Copy>(g: &Graph<T>) -> Vec<(usize, usize)> {
    g.edges().iter().map(|e| (e.query(), e.target())).collect()
}

#[test]
fn test_mr() {
    assert_eq!((mr_squared(1, 2) as f64).sqrt(), (1.0f64 * 2.0).sqrt());
}

#[test]
fn hrr_network_without_cutoffs_holds_every_pair() {
    let corr = corr4();
    let rank = construct_rank_matrix(&corr, 4).unwrap();
    let mut g: Graph<usize> = Graph::new(&names(4));
    g.construct_hrr_network(&corr, &rank, None, None);
    assert_eq!(pairs(&g), vec![(0, 1), (0, 2), (0, 3), (1, 2), (1, 3), (2, 3)]);
    // rank rows: [0,3,1,2], [2,0,3,1], [1,3,0,2], [2,1,3,0]
    let weights: Vec<usize> = g.edges().iter().map(|e| e.rank).collect();
    assert_eq!(weights, vec![3, 1, 2, 3, 1, 3]);
    assert_eq!(g.edges()[1].corr, key(-0.7));
    assert_eq!(g.nodes()[0].edges().len(), 3);
    assert_eq!(g.nodes()[3].edges().len(), 0);
}

#[test]
fn hrr_network_applies_both_cutoffs() {
    let corr = corr4();
    let rank = construct_rank_matrix(&corr, 4).unwrap();
    let mut g: Graph<usize> = Graph::new(&names(4));
    g.construct_hrr_network(&corr, &rank, Some(2), Some(key(0.25)));
    // |corr| >= 0.25 keeps (0,2) (0,3) (1,3) (2,3); hrr <= 2 then drops (2,3)
    assert_eq!(pairs(&g), vec![(0, 2), (0, 3), (1, 3)]);
}

#[test]
fn hrr_network_is_the_same_when_built_again() {
    let corr = corr4();
    let rank = construct_rank_matrix(&corr, 4).unwrap();
    let mut first: Graph<usize> = Graph::new(&names(4));
    first.construct_hrr_network(&corr, &rank, Some(3), Some(key(0.15)));
    let mut second: Graph<usize> = Graph::new(&names(4));
    second.construct_hrr_network(&corr, &rank, Some(3), Some(key(0.15)));
    assert_eq!(first.edges(), second.edges());
    for e in first.edges() {
        assert!(e.query() < e.target());
    }
}

#[test]
fn raising_the_pcc_cutoff_never_adds_edges() {
    let corr = corr4();
    let rank = construct_rank_matrix(&corr, 4).unwrap();
    let mut last = usize::MAX;
    for cutoff in [0.0, 0.15, 0.25, 0.35, 0.5, 0.8, 0.95] {
        let mut g: Graph<usize> = Graph::new(&names(4));
        g.construct_hrr_network(&corr, &rank, None, Some(key(cutoff)));
        let n = g.edges().len();
        assert!(n <= last);
        last = n;
    }
    assert_eq!(last, 0);
}

#[test]
fn mr_network_weights_are_squared_mutual_ranks() {
    let corr = corr4();
    let rank = construct_rank_matrix(&corr, 4).unwrap();
    let mut g: Graph<u128> = Graph::new(&names(4));
    g.construct_mr_network(&corr, &rank, None, None);
    let weights: Vec<u128> = g.edges().iter().map(|e| e.rank).collect();
    // products of rank[i][j] and rank[j][i]
    assert_eq!(weights, vec![6, 1, 4, 9, 1, 6]);
    let mut cut: Graph<u128> = Graph::new(&names(4));
    cut.construct_mr_network(&corr, &rank, Some(2 * 2), None);
    // sqrt(w) <= 2 keeps the weights 1 and 4
    assert_eq!(pairs(&cut), vec![(0, 2), (0, 3), (1, 3)]);
    let mut half: Graph<u128> = Graph::new(&names(4));
    half.construct_mr_network(&corr, &rank, Some((2.5f64 * 2.5).floor() as u128), None);
    // sqrt(w) <= 2.5 keeps every weight up to 6
    assert_eq!(pairs(&half), vec![(0, 1), (0, 2), (0, 3), (1, 3), (2, 3)]);
}

#[test]
fn from_edges_stores_each_edge_at_its_query_side() {
    let edges = vec![Edge::new(1, 2, 5, 3usize), Edge::new(0, 2, 6, 1), Edge::new(1, 0, 7, 2)];
    let g = Graph::from_edges(&names(3), &edges);
    assert_eq!(g.nodes()[1].edges(), vec![edges[0], edges[2]]);
    assert_eq!(g.edges(), vec![edges[1], edges[0], edges[2]]);
    assert_eq!(edges[2].node_names(g.nodes()), ("gene_2".to_string(), "gene_1".to_string()));
    assert_eq!(g.nodes()[2].to_string(), "gene_3");
}
