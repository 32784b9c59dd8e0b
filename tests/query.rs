use corrnet::query::{
    edges_touching, keep_for_extraction, partner_lists, passes_cutoffs, Adjacency, QueryRecord,
};

fn key(x: f64) -> i64 {
    let m = x.abs().to_bits() as i64;
    if x < 0.0 {
        -m
    } else {
        m
    }
}

fn rec(gene_1: usize, gene_2: usize, corr: f64, rank: f64) -> QueryRecord {
    QueryRecord { gene_1, gene_2, corr: key(corr), rank: key(rank) }
}

fn records() -> Vec<QueryRecord> {
    vec![
        rec(0, 1, 0.9, 1.0),
        rec(1, 2, 0.5, 3.0),
        rec(0, 3, -0.8, 2.0),
        rec(2, 3, 0.7, 5.0),
        rec(1, 0, 0.1, 9.0),
    ]
}

#[test]
fn cutoffs_compare_the_signed_correlation() {
    let r = rec(0, 3, -0.8, 2.0);
    assert!(!passes_cutoffs(&r, Some(key(0.5)), None));
    assert!(passes_cutoffs(&r, Some(key(-0.9)), Some(key(2.0))));
    assert!(!passes_cutoffs(&r, None, Some(key(1.5))));
    assert!(passes_cutoffs(&r, None, None));
}

#[test]
fn depth_one_keeps_edges_that_touch_the_node_and_pass() {
    let rs = records();
    let out = edges_touching(&rs, 1, Some(key(0.3)), Some(key(4.0)));
    assert_eq!(out, vec![rs[0], rs[1]]);
    let none = edges_touching(&rs, 7, None, None);
    assert!(none.is_empty());
}

#[test]
fn extraction_needs_a_listed_gene_and_both_cutoffs() {
    let r = rec(0, 1, 0.9, 1.0);
    assert!(keep_for_extraction(false, true, &r, Some(key(0.5)), Some(key(2.0))));
    assert!(!keep_for_extraction(false, false, &r, None, None));
    assert!(!keep_for_extraction(true, true, &r, Some(key(0.95)), None));
    assert!(!keep_for_extraction(true, false, &r, None, Some(key(0.5))));
}

#[test]
fn walks_of_depth_zero_and_one() {
    let rs = records();
    let adj = Adjacency::from_records(4, &rs, None, Some(key(4.0)));
    let mut none = Vec::new();
    adj.dfs(0, 0, 0, &mut none);
    assert!(none.is_empty());
    let mut one = Vec::new();
    adj.dfs(0, 0, 1, &mut one);
    // the records 2-3 and 1-0 fail the rank cutoff
    assert_eq!(one, vec![rec(0, 1, 0.9, 1.0), rec(0, 3, -0.8, 2.0)]);
    let mut from_three = Vec::new();
    adj.dfs(3, 0, 1, &mut from_three);
    assert_eq!(from_three, vec![rec(3, 0, -0.8, 2.0)]);
}

#[test]
fn deeper_walks_revisit_nodes() {
    let rs = vec![rec(0, 1, 0.9, 1.0)];
    let adj = Adjacency::from_records(2, &rs, None, None);
    let mut out = Vec::new();
    adj.dfs(0, 0, 3, &mut out);
    assert_eq!(
        out,
        vec![rec(0, 1, 0.9, 1.0), rec(1, 0, 0.9, 1.0), rec(0, 1, 0.9, 1.0)]
    );
}

#[test]
fn the_first_record_between_two_nodes_is_kept() {
    let rs = vec![rec(0, 1, 0.9, 1.0), rec(1, 0, 0.4, 7.0)];
    let adj = Adjacency::from_records(2, &rs, None, None);
    let mut out = Vec::new();
    adj.dfs(1, 0, 1, &mut out);
    assert_eq!(out, vec![rec(1, 0, 0.9, 1.0)]);
}

#[test]
fn partner_lists_hold_both_ends_of_each_record() {
    let rs = records();
    let lists = partner_lists(5, &rs);
    assert_eq!(lists[0], vec![(1, key(1.0)), (3, key(2.0)), (1, key(9.0))]);
    assert_eq!(lists[1], vec![(0, key(1.0)), (2, key(3.0)), (0, key(9.0))]);
    assert_eq!(lists[3], vec![(0, key(2.0)), (2, key(5.0))]);
    assert!(lists[4].is_empty());
}
