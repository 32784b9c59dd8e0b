use corrnet::codon::{count_codons, make_codon_map, make_codon_vec, CODON_SIZE};
use std::collections::BTreeMap;

#[test]
fn test_make_codon_map() {
    let codon_map = make_codon_map();
    // check size (4 * 4 * 4 - 3)
    assert_eq!(codon_map.iter().count(), 61);
}

#[test]
fn test_make_codon_vec_1() {
    let seq = "ATGCAGCCCCAGTGA";
    let codon_vec = make_codon_vec(seq).unwrap();

    let mut codon_map: BTreeMap<String, usize> = make_codon_map().into_iter().collect();
    codon_map.insert("ATG".to_string(), 1);
    codon_map.insert("CAG".to_string(), 2);
    codon_map.insert("CCC".to_string(), 1);

    for (i, (k, v)) in codon_map.iter().enumerate() {
        // check index order
        if *v == 1 {
            assert_eq!(codon_vec[i], 1);
        }

        // check stop codon
        if k == "TGA" {
            assert_eq!(codon_vec[i], 0)
        }
    }
}

#[test]
fn codon_map_lists_sense_codons_in_order() {
    let map = make_codon_map();
    assert_eq!(map[0], ("AAA".to_string(), 0));
    assert_eq!(map[60].0, "TTT");
    let names: Vec<&str> = map.iter().map(|(c, _)| c.as_str()).collect();
    assert!(!names.contains(&"TAA") && !names.contains(&"TAG") && !names.contains(&"TGA"));
    let mut sorted = names.clone();
    sorted.sort();
    assert_eq!(sorted, names);
}

#[test]
fn codon_vec_reads_lower_case_and_skips_the_last_codon() {
    let counts = make_codon_vec("atgcagcccCAGtga").unwrap();
    assert_eq!(counts.len(), CODON_SIZE);
    let map = make_codon_map();
    let at = |c: &str| map.iter().position(|(k, _)| k == c).unwrap();
    assert_eq!(counts[at("ATG")], 1);
    assert_eq!(counts[at("CAG")], 2);
    assert_eq!(counts[at("CCC")], 1);
    assert_eq!(counts.iter().sum::<usize>(), 4);
    // the codon that ends the sequence is not read
    let tail = make_codon_vec("AAACCC").unwrap();
    assert_eq!(tail[at("AAA")], 1);
    assert_eq!(tail[at("CCC")], 0);
    // letters other than bases are skipped
    let odd = make_codon_vec("ANAGGGTTT").unwrap();
    assert_eq!(odd.iter().sum::<usize>(), 1);
}

#[test]
fn codon_vec_needs_one_codon() {
    assert_eq!(make_codon_vec("AT"), None);
    assert_eq!(make_codon_vec("ATG"), Some(vec![0; 61]));
}

#[test]
fn count_codons_reads_upper_case_letters() {
    let chars: Vec<char> = "ATGCAGCCCCAGTGA".chars().collect();
    let counts = count_codons(&chars);
    let map = make_codon_map();
    let at = |c: &str| map.iter().position(|(k, _)| k == c).unwrap();
    assert_eq!(counts[at("ATG")], 1);
    assert_eq!(counts[at("CAG")], 2);
    assert_eq!(counts[at("CCC")], 1);
    assert_eq!(counts.iter().sum::<usize>(), 4);
    // lower-case letters are not bases
    let lower: Vec<char> = "atgcag".chars().collect();
    assert_eq!(count_codons(&lower), vec![0; 61]);
    assert_eq!(count_codons(&vec!['A']), vec![0; 61]);
}
