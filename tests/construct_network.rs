use corrnet::construct_network::construct_hrr_network;
use corrnet::rank::construct_rank_matrix;
use ndarray::Array2;
use ndarray_stats::CorrelationExt;

fn key(x: f64) -> i64 {
    let m = x.abs().to_bits() as i64;
    if x < 0.0 {
        -m
    } else {
        m
    }
}

#[test]
fn test_hrr_network() {
    let index = ["gene_1", "gene_2", "gene_3"].map(|x| x.to_string()).to_vec();
    let arr2 =
        Array2::from_shape_vec((3, 3), vec![1.0, 0.9, 0.3, 0.9, 1.0, 0.5, 0.3, 0.5, 1.0]).unwrap();
    let corr = arr2.pearson_correlation().unwrap();
    let corr: Vec<Vec<i64>> = corr.outer_iter().map(|r| r.iter().map(|x| key(*x)).collect()).collect();
    let rank = construct_rank_matrix(&corr, 3).unwrap();

    let gr = construct_hrr_network(&index, &corr, &rank, None, None);
    assert_eq!(gr.node_count(), 3);
    assert_eq!(gr.edge_count(), 3);
}

#[test]
fn petgraph_network_has_one_node_per_gene() {
    let index: Vec<String> = ["a", "b", "c"].iter().map(|x| x.to_string()).collect();
    let corr: Vec<Vec<i64>> = [[1.0, 0.9, 0.3], [0.9, 1.0, 0.5], [0.3, 0.5, 1.0]]
        .iter()
        .map(|r| r.iter().map(|x| key(*x)).collect())
        .collect();
    let rank = construct_rank_matrix(&corr, 3).unwrap();
    let gr = construct_hrr_network(&index, &corr, &rank, Some(1), None);
    // hrr(a,b) = 1, hrr(a,c) = 2, hrr(b,c) = 2
    assert_eq!(gr.node_count(), 3);
    let weights: Vec<&str> = gr.raw_nodes().iter().map(|n| n.weight.as_str()).collect();
    assert_eq!(weights, vec!["a", "b", "c"]);
    assert_eq!(gr.edge_count(), 1);
    let e = &gr.raw_edges()[0];
    assert_eq!((e.source().index(), e.target().index()), (0, 1));
    assert_eq!((e.weight.corr, e.weight.rank), (key(0.9), 1));
}

#[test]
fn a_gene_without_edges_is_still_a_node() {
    let index = vec!["only".to_string()];
    let corr = vec![vec![key(1.0)]];
    let rank = construct_rank_matrix(&corr, 1).unwrap();
    let gr = construct_hrr_network(&index, &corr, &rank, None, None);
    assert_eq!(gr.node_count(), 1);
    assert_eq!(gr.edge_count(), 0);
    assert_eq!(gr.raw_nodes()[0].weight, "only");
}
