use corrnet::similarity::{cosmix, sort_corr_by_rank, CosmixScore};
use std::collections::HashMap;

fn key(x: f64) -> i64 {
    let m = x.abs().to_bits() as i64;
    if x < 0.0 {
        -m
    } else {
        m
    }
}

fn value(s: CosmixScore) -> f64 {
    s.numerator as f64 / s.denominator as f64
}

#[test]
fn test_cosmix_1() {
    let l = vec![0, 1, 2, 5, 6];
    let rl = vec![1, 2, 3, 4, 6];

    assert_eq!(value(cosmix(&l, &rl, 2)), 1.0 / 3.0);
    assert_eq!(value(cosmix(&l, &rl, 3)), 0.5);
    assert_eq!(value(cosmix(&l, &rl, 4)), 5.0 / 10.0);
    assert_eq!(value(cosmix(&l, &rl, 5)), 8.0 / 15.0);
}

#[test]
fn test_cosmix_2() {
    let l = vec![1, 2, 3, 4, 5];
    let rl = vec![1, 2, 3, 4, 5];

    assert_eq!(value(cosmix(&l, &rl, 2)), 3. / 3.);
    assert_eq!(value(cosmix(&l, &rl, 3)), 6. / 6.);
}

#[test]
fn cosmix_is_an_exact_ratio() {
    let l = vec![0, 1, 2, 5, 6];
    let rl = vec![1, 2, 3, 4, 6];
    assert_eq!(cosmix(&l, &rl, 5), CosmixScore { numerator: 8, denominator: 15 });
    assert_eq!(cosmix(&l, &rl, 0), CosmixScore { numerator: 0, denominator: 0 });
}

#[test]
fn cosmix_lies_between_zero_and_one() {
    let l = vec![3u64, 9, 4, 4, 7, 1];
    let rl = vec![4u64, 4, 2, 9, 3, 8];
    for k in 0..=6 {
        let s = cosmix(&l, &rl, k);
        assert!(s.numerator <= s.denominator);
    }
    let disjoint = cosmix(&vec![1u64, 2, 3], &vec![4u64, 5, 6], 3);
    assert_eq!(disjoint.numerator, 0);
}

#[test]
fn cosmix_of_prefixes_holding_the_same_items_is_one() {
    let l = vec![2usize, 1, 4, 3, 9];
    let rl = vec![1usize, 2, 3, 4, 8];
    // prefixes of length 2 and 4 hold the same items, those of length 1 and 3 do not
    assert_eq!(cosmix(&l, &rl, 2), CosmixScore { numerator: 2, denominator: 3 });
    let same = vec![7usize, 3, 5];
    assert_eq!(cosmix(&same, &same, 3), CosmixScore { numerator: 6, denominator: 6 });
    // a repeated item caps the overlap
    let twice = vec![1usize, 1];
    assert_eq!(cosmix(&twice, &twice, 2), CosmixScore { numerator: 2, denominator: 3 });
}

#[test]
fn cosmix_compares_names() {
    let l: Vec<String> = ["a", "b", "c"].iter().map(|x| x.to_string()).collect();
    let rl: Vec<String> = ["b", "a", "d"].iter().map(|x| x.to_string()).collect();
    assert_eq!(cosmix(&l, &rl, 3), CosmixScore { numerator: 4, denominator: 6 });
}

#[test]
fn test_sort_corr_by_rank() {
    let mut map: HashMap<String, Vec<(String, i64)>> = HashMap::new();
    let gene_1 = "gene_1".to_string();
    let gene_1_vec: Vec<(String, i64)> = vec![
        ("gene_2".to_string(), key(1.0)),
        ("gene_3".to_string(), key(4.0)),
        ("gene_4".to_string(), key(3.0)),
        ("gene_5".to_string(), key(2.0)),
    ];
    map.insert(gene_1.clone(), gene_1_vec);

    let corr_ranked_vec = sort_corr_by_rank(map.get_mut(&gene_1).unwrap());
    assert_eq!(
        corr_ranked_vec,
        ["gene_2", "gene_5", "gene_4", "gene_3"]
            .iter()
            .map(|x| x.to_string())
            .collect::<Vec<String>>()
    );

    assert_eq!(map.get_mut(&"gene_2".to_string()).map(sort_corr_by_rank), None,);
}

#[test]
fn partners_of_equal_rank_keep_their_order() {
    let mut partners: Vec<(String, i64)> = vec![
        ("b".to_string(), key(2.0)),
        ("a".to_string(), key(1.0)),
        ("c".to_string(), key(2.0)),
        ("d".to_string(), key(1.0)),
    ];
    let names = sort_corr_by_rank(&mut partners);
    assert_eq!(names, vec!["a", "d", "b", "c"]);
}
