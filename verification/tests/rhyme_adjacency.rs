use spectral_prosody::rhyme_adjacency::{classify_by_spectrum, common_schemes, RhymeScheme, RhymeType};

#[test]
fn test_abab_construction() {
    let scheme = RhymeScheme::from_str("ABAB");
    assert_eq!(scheme.line_count(), 4);
    assert_eq!(scheme.rhyme_class_count(), 2);
    assert_eq!(scheme.rhyme_pair_count(), 2);
}

#[test]
fn test_aabb_construction() {
    let scheme = RhymeScheme::from_str("AABB");
    assert_eq!(scheme.rhyme_pair_count(), 2);
}

#[test]
fn test_abba_construction() {
    let scheme = RhymeScheme::from_str("ABBA");
    assert_eq!(scheme.rhyme_pair_count(), 2);
}

#[test]
fn test_free_verse_no_rhymes() {
    let scheme = RhymeScheme::from_str("ABCD");
    assert_eq!(scheme.rhyme_pair_count(), 0);
}

#[test]
fn test_classify_abab() {
    let scheme = RhymeScheme::from_str("ABAB");
    assert_eq!(scheme.classify(), RhymeType::Alternating);
}

#[test]
fn test_classify_aabb() {
    let scheme = RhymeScheme::from_str("AABB");
    assert_eq!(scheme.classify(), RhymeType::Coupled);
}

#[test]
fn test_classify_abba() {
    let scheme = RhymeScheme::from_str("ABBA");
    assert_eq!(scheme.classify(), RhymeType::Enclosed);
}

#[test]
fn test_classify_free_verse() {
    let scheme = RhymeScheme::from_str("ABCD");
    assert_eq!(scheme.classify(), RhymeType::FreeVerse);
}

#[test]
fn test_rhyme_laplacian_rows_sum_zero() {
    let scheme = RhymeScheme::from_str("ABAB");
    let lap = scheme.laplacian();
    for row in &lap {
        let sum: i64 = row.iter().sum();
        assert!((sum as f64).abs() < 1e-9, "Row sum should be 0, got {}", sum);
    }
}

#[test]
fn test_spectral_classification_by_spectrum() {
    let abab = RhymeScheme::from_str("ABAB");
    let result = classify_by_spectrum(&abab);
    assert_eq!(result, RhymeType::Alternating);
}

#[test]
fn from_str_skips_non_letters_and_keeps_case_offsets() {
    let scheme = RhymeScheme::from_str("A b-A?B");
    // 'b' is 98 - 65 = 33
    assert_eq!(scheme.pattern, vec![0, 33, 0, 1]);
    assert_eq!(scheme.rhyme_pair_count(), 1);
}

#[test]
fn new_builds_symmetric_zero_one_adjacency() {
    let scheme = RhymeScheme::new(vec![0, 1, 0, 1]);
    let expected: Vec<Vec<u8>> = vec![
        vec![0, 0, 1, 0],
        vec![0, 0, 0, 1],
        vec![1, 0, 0, 0],
        vec![0, 1, 0, 0],
    ];
    assert_eq!(scheme.adjacency, expected);
}

#[test]
fn laplacian_of_aabb_has_degrees_on_diagonal() {
    let scheme = RhymeScheme::from_str("AABB");
    let lap = scheme.laplacian();
    let expected: Vec<Vec<i64>> = vec![
        vec![1, -1, 0, 0],
        vec![-1, 1, 0, 0],
        vec![0, 0, 1, -1],
        vec![0, 0, -1, 1],
    ];
    assert_eq!(lap, expected);
}

#[test]
fn laplacian_rows_sum_zero_for_larger_schemes() {
    for text in ["AAAAB", "ABCABCA", "ABCD", "AAAA"] {
        let lap = RhymeScheme::from_str(text).laplacian();
        for row in &lap {
            assert_eq!(row.iter().sum::<i64>(), 0);
        }
    }
}

#[test]
fn pair_count_counts_all_rhyming_pairs() {
    // three lines of class A give three pairs, two of class B give one
    let scheme = RhymeScheme::from_str("AABAB");
    assert_eq!(scheme.rhyme_pair_count(), 4);
    assert_eq!(scheme.rhyme_class_count(), 2);
}

#[test]
fn no_pairs_exactly_when_classes_are_distinct() {
    for text in ["ABCD", "AB", "A", "", "ABCA", "ZYXWZ"] {
        let scheme = RhymeScheme::from_str(text);
        assert_eq!(
            scheme.rhyme_pair_count() == 0,
            scheme.rhyme_class_count() == scheme.line_count(),
            "{}",
            text
        );
    }
}

#[test]
fn classify_other_keeps_letters() {
    let scheme = RhymeScheme::from_str("ABCA");
    assert_eq!(scheme.classify(), RhymeType::Other("ABCA".to_string()));
    let couplets = RhymeScheme::from_str("AABBCC");
    assert_eq!(couplets.classify(), RhymeType::Other("AABBCC".to_string()));
}

#[test]
fn classify_empty_scheme_is_free_verse() {
    let scheme = RhymeScheme::from_str("");
    assert_eq!(scheme.classify(), RhymeType::FreeVerse);
}

#[test]
fn common_schemes_are_the_four_quatrains() {
    let schemes = common_schemes();
    assert_eq!(schemes.len(), 4);
    assert_eq!(schemes[0].pattern, vec![0, 1, 0, 1]);
    assert_eq!(schemes[1].pattern, vec![0, 0, 1, 1]);
    assert_eq!(schemes[2].pattern, vec![0, 1, 1, 0]);
    assert_eq!(schemes[3].pattern, vec![0, 1, 2, 3]);
    assert_eq!(schemes[3].classify(), RhymeType::FreeVerse);
}

#[test]
fn laplacian_diagonal_counts_each_pair_twice() {
    for text in ["AABAB", "ABAB", "ABCD", "AAAA", "ABCABCA"] {
        let scheme = RhymeScheme::from_str(text);
        let lap = scheme.laplacian();
        let trace: i64 = (0..lap.len()).map(|i| lap[i][i]).sum();
        assert_eq!(trace, 2 * scheme.rhyme_pair_count() as i64, "{}", text);
    }
}

#[test]
fn adjacency_is_symmetric_with_empty_diagonal() {
    let scheme = RhymeScheme::from_str("ABCABCA");
    let n = scheme.line_count();
    for i in 0..n {
        assert_eq!(scheme.adjacency[i][i], 0);
        for j in 0..n {
            assert_eq!(scheme.adjacency[i][j], scheme.adjacency[j][i]);
        }
    }
}

#[test]
fn isospectral_quatrains_share_a_spectral_class() {
    let abab = classify_by_spectrum(&RhymeScheme::from_str("ABAB"));
    let aabb = classify_by_spectrum(&RhymeScheme::from_str("AABB"));
    let abba = classify_by_spectrum(&RhymeScheme::from_str("ABBA"));
    assert_eq!(abab, RhymeType::Alternating);
    assert_eq!(aabb, abab);
    assert_eq!(abba, abab);
}

#[test]
fn spectral_class_of_rhymeless_schemes_is_free_verse() {
    for text in ["ABCD", "", "A", "ZYX"] {
        assert_eq!(classify_by_spectrum(&RhymeScheme::from_str(text)), RhymeType::FreeVerse, "{}", text);
    }
}

#[test]
fn spectral_class_names_other_spectra_by_class_sizes() {
    let cases = [
        ("ABCA", "2+1+1"),
        ("AAA", "3"),
        ("AABBCC", "2+2+2"),
        ("ABACB", "2+2+1"),
        ("AAAB", "3+1"),
        ("AAAAAAAAAAB", "10+1"),
    ];
    for (text, shape) in cases {
        let got = classify_by_spectrum(&RhymeScheme::from_str(text));
        assert_eq!(got, RhymeType::Other(shape.to_string()), "{}", text);
    }
}

#[test]
fn spectral_class_ignores_line_order() {
    let a = classify_by_spectrum(&RhymeScheme::from_str("AABCB"));
    let b = classify_by_spectrum(&RhymeScheme::from_str("ABCAB"));
    assert_eq!(a, b);
    assert_eq!(a, RhymeType::Other("2+2+1".to_string()));
}

#[test]
fn laplacian_diagonal_leaves_out_self_loops() {
    let scheme = RhymeScheme {
        pattern: vec![0, 0],
        adjacency: vec![vec![1, 1], vec![1, 0]],
    };
    let lap = scheme.laplacian();
    assert_eq!(lap, vec![vec![1, -1], vec![-1, 1]]);
    for row in &lap {
        assert_eq!(row.iter().sum::<i64>(), 0);
    }
}
