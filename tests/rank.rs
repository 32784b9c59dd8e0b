use corrnet::rank::{_rank, construct_rank_matrix, get_index_sorted_by_rank, hrr, ShapeError};

/// The integer image of a correlation coefficient: the sign of `x` times the
/// bit pattern of `|x|`.
fn key(x: f64) -> i64 {
    let m = x.abs().to_bits() as i64;
    if x < 0.0 {
        -m
    } else {
        m
    }
}

/// A key whose order is the order of the doubles, negative ones included.
fn order_key(x: f64) -> u64 {
    let bits = x.to_bits();
    if bits >> 63 == 1 {
        !bits
    } else {
        bits | (1 << 63)
    }
}

fn keys(m: &[[f64; 3]; 3]) -> Vec<Vec<i64>> {
    m.iter().map(|r| r.iter().map(|x| key(*x)).collect()).collect()
}

#[test]
fn test_hrr() {
    assert_eq!(hrr(0, 1), 1);
    assert_eq!(hrr(1, 1), 1);
    assert_eq!(hrr(5, 1), 5);
}

#[test]
fn test_rank_1() {
    let mut v: Vec<u64> = [
        0.9999999999999999,
        -0.5788092174903143,
        0.23258203042199635,
        -0.6599591299048517,
        0.4039458299425666,
        -0.470197241576486,
        -0.7643118816809261,
        -0.392552428120889,
        -0.5913422295633524,
        -0.26489680851317693,
    ]
    .iter()
    .map(|x| order_key(*x))
    .collect();
    v.sort();
    assert_eq!(_rank(order_key(0.23258203042199635), &v), 2);
    assert_eq!(_rank(order_key(0.4039458299425666), &v), 1);
}

#[test]
fn test_construct_rank_matrix_1() {
    let arr2 = keys(&[[1.0, 0.9, 0.3], [0.9, 1.0, 0.5], [0.3, 0.5, 1.0]]);
    let rank: Vec<Vec<usize>> = vec![vec![0, 1, 2], vec![1, 0, 2], vec![2, 1, 0]];
    assert_eq!(construct_rank_matrix(&arr2, 3).unwrap(), rank);
}

#[test]
fn rank_matrix_ranks_by_magnitude() {
    // a strong negative correlation ranks above a weak positive one
    let arr2 = keys(&[[1.0, -0.9, 0.3], [-0.9, 1.0, 0.5], [0.3, 0.5, 1.0]]);
    let rank = construct_rank_matrix(&arr2, 3).unwrap();
    assert_eq!(rank, vec![vec![0, 1, 2], vec![1, 0, 2], vec![2, 1, 0]]);
}

#[test]
fn rank_matrix_rows_are_permutations_with_zero_diagonal() {
    let arr = [
        [1.0, 0.2, -0.7, 0.4],
        [0.2, 1.0, 0.1, -0.9],
        [-0.7, 0.1, 1.0, 0.3],
        [0.4, -0.9, 0.3, 1.0],
    ];
    let corr: Vec<Vec<i64>> = arr.iter().map(|r| r.iter().map(|x| key(*x)).collect()).collect();
    let rank = construct_rank_matrix(&corr, 4).unwrap();
    for (i, row) in rank.iter().enumerate() {
        assert_eq!(row[i], 0);
        let mut sorted = row.clone();
        sorted.sort();
        assert_eq!(sorted, vec![0, 1, 2, 3]);
    }
    assert_eq!(rank[0], vec![0, 3, 1, 2]);
    assert_eq!(rank[1], vec![2, 0, 3, 1]);
}

#[test]
fn equal_magnitudes_share_a_rank() {
    let corr = keys(&[[1.0, 0.5, -0.5], [0.5, 1.0, 0.2], [-0.5, 0.2, 1.0]]);
    let rank = construct_rank_matrix(&corr, 3).unwrap();
    assert_eq!(rank[0], vec![0, 2, 2]);
}

#[test]
fn rank_matrix_rejects_a_matrix_that_is_not_square() {
    let ragged = vec![vec![key(1.0), key(0.5)], vec![key(0.5)]];
    assert_eq!(construct_rank_matrix(&ragged, 2), Err(ShapeError { size: 2 }));
    let square = keys(&[[1.0, 0.9, 0.3], [0.9, 1.0, 0.5], [0.3, 0.5, 1.0]]);
    assert_eq!(construct_rank_matrix(&square, 2), Err(ShapeError { size: 2 }));
    assert_eq!(construct_rank_matrix(&Vec::new(), 0), Ok(Vec::new()));
}

#[test]
fn test_get_index_sorted_by_rank_1() {
    let rank: Vec<Vec<usize>> = vec![vec![0, 1, 2], vec![1, 0, 2], vec![2, 1, 0]];

    let index: Vec<String> = ["gene_1", "gene_2", "gene_3"]
        .iter()
        .map(|x| x.to_string())
        .collect();

    assert_eq!(
        get_index_sorted_by_rank(&rank, 0, &index),
        ["gene_2", "gene_3"]
            .iter()
            .map(|x| x.to_string())
            .collect::<Vec<String>>()
    );

    assert_eq!(
        get_index_sorted_by_rank(&rank, 1, &index),
        ["gene_1", "gene_3"]
            .iter()
            .map(|x| x.to_string())
            .collect::<Vec<String>>()
    );
    assert_eq!(
        get_index_sorted_by_rank(&rank, 2, &index),
        ["gene_2", "gene_1"]
            .iter()
            .map(|x| x.to_string())
            .collect::<Vec<String>>()
    );
}
