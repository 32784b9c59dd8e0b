use corrnet::graph::Graph;
use corrnet::rank::construct_rank_matrix;
use corrnet::record::CsvRecord;

fn key(x: f64) -> i64 {
    let m = x.abs().to_bits() as i64;
    if x < 0.0 {
        -m
    } else {
        m
    }
}

fn network() -> Graph<usize> {
    let corr: Vec<Vec<i64>> = [[1.0, 0.9, -0.3], [0.9, 1.0, 0.5], [-0.3, 0.5, 1.0]]
        .iter()
        .map(|r| r.iter().map(|x| key(*x)).collect())
        .collect();
    let rank = construct_rank_matrix(&corr, 3).unwrap();
    let names: Vec<String> = ["g1", "g2", "g3"].iter().map(|x| x.to_string()).collect();
    let mut g = Graph::new(&names);
    g.construct_hrr_network(&corr, &rank, None, None);
    g
}

#[test]
fn records_name_both_endpoints() {
    let g = network();
    let records = g.to_records();
    let tuples: Vec<(String, String, i64, usize)> = records
        .iter()
        .map(|r| {
            let (a, b) = r.genes();
            (a, b, r.corr(), r.rank())
        })
        .collect();
    assert_eq!(
        tuples,
        vec![
            ("g1".to_string(), "g2".to_string(), key(0.9), 1),
            ("g1".to_string(), "g3".to_string(), key(-0.3), 2),
            ("g2".to_string(), "g3".to_string(), key(0.5), 2),
        ]
    );
}

#[test]
fn records_read_back_give_the_same_edges() {
    let g = network();
    let names: Vec<String> = ["g1", "g2", "g3"].iter().map(|x| x.to_string()).collect();
    let back = Graph::from_records(&names, &g.to_records()).unwrap();
    assert_eq!(back.edges(), g.edges());
}

#[test]
fn records_with_an_unknown_name_are_refused() {
    let names: Vec<String> = ["g1", "g2"].iter().map(|x| x.to_string()).collect();
    let records = vec![CsvRecord::new("g1".to_string(), "g9".to_string(), key(0.4), 3usize)];
    assert!(Graph::from_records(&names, &records).is_none());
}
