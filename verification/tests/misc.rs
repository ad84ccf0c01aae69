use spectral_prosody::prosody::nearest_neighbours;
use spectral_prosody::error::{check_feature_lengths, require_nodes};
use spectral_prosody::dial_scan::first_index_of;
use spectral_prosody::laplacian_scan::proximity_clusters;
use spectral_prosody::linalg::transpose;
use spectral_prosody::metrical_graph::{node_label, stress_agreement, stress_count};
use spectral_prosody::ProsodyError;

fn iambic() -> Vec<bool> {
    vec![false, true, false, true, false, true, false, true, false, true]
}

fn trochaic() -> Vec<bool> {
    vec![true, false, true, false, true, false, true, false]
}

#[test]
fn stress_count_of_iambic_pentameter() {
    assert_eq!(stress_count(&iambic()), 5);
    assert_eq!(stress_count(&vec![]), 0);
}

#[test]
fn stress_agreement_with_itself_is_complete() {
    assert_eq!(stress_agreement(&iambic(), &iambic()), (10, 10));
    assert_eq!(stress_agreement(&vec![], &vec![]), (0, 0));
}

#[test]
fn stress_agreement_pads_shorter_pattern() {
    // first 8 positions always disagree; positions 8 and 9: false vs pad, true vs pad
    assert_eq!(stress_agreement(&iambic(), &trochaic()), (1, 10));
    assert_eq!(stress_agreement(&trochaic(), &iambic()), (1, 10));
}

#[test]
fn node_labels_join_language_and_index() {
    assert_eq!(node_label("English", 0), "English:0");
    assert_eq!(node_label("Sanskrit", 42), "Sanskrit:42");
}

#[test]
fn error_messages() {
    assert_eq!(
        ProsodyError::InsufficientNodes { got: 1, need: 2 }.message(),
        "need at least 2 nodes, got 1"
    );
    assert_eq!(
        ProsodyError::IndexOutOfRange { index: 120, len: 7 }.message(),
        "index 120 out of range (len=7)"
    );
    assert_eq!(ProsodyError::EmptyFeature.message(), "feature vector is empty");
    assert_eq!(
        ProsodyError::InvalidParameter("sigma must be positive".to_string()).message(),
        "invalid parameter: sigma must be positive"
    );
    assert_eq!(
        ProsodyError::DecompositionFailed("no convergence".to_string()).message(),
        "decomposition failed: no convergence"
    );
}

#[test]
fn clusters_are_greedy_and_partition() {
    // 0 close to 1 and 3; 1 close to 2 (but 1 is taken by 0); 2 close to 4
    let n = 5;
    let mut close = vec![vec![false; n]; n];
    close[0][1] = true;
    close[0][3] = true;
    close[1][2] = true;
    close[2][4] = true;
    let clusters = proximity_clusters(&close);
    assert_eq!(clusters, vec![vec![0, 1, 3], vec![2, 4]]);
}

#[test]
fn clusters_without_closeness_are_singletons() {
    let close = vec![vec![false; 3]; 3];
    assert_eq!(proximity_clusters(&close), vec![vec![0], vec![1], vec![2]]);
    assert_eq!(proximity_clusters(&vec![]), Vec::<Vec<usize>>::new());
}

#[test]
fn transpose_swaps_and_is_an_involution() {
    let a = vec![vec![1.0, 2.0], vec![3.0, 4.0]];
    let t = transpose(&a);
    assert_eq!(t, vec![vec![1.0, 3.0], vec![2.0, 4.0]]);
    assert_eq!(transpose(&t), a);
}

#[test]
fn first_index_of_finds_first_match() {
    let names = vec!["A".to_string(), "B".to_string(), "A".to_string()];
    assert_eq!(first_index_of(&names, "A"), Some(0));
    assert_eq!(first_index_of(&names, "B"), Some(1));
    assert_eq!(first_index_of(&names, "C"), None);
}

#[test]
fn node_and_feature_requirements() {
    assert!(require_nodes(2, 2).is_ok());
    assert!(matches!(require_nodes(0, 1), Err(ProsodyError::InsufficientNodes { got: 0, need: 1 })));
    assert!(check_feature_lengths(6, 6, 6, 6, 6).is_ok());
    assert!(matches!(check_feature_lengths(1, 1, 1, 1, 1), Err(ProsodyError::InsufficientNodes { got: 1, need: 2 })));
    match check_feature_lengths(3, 2, 3, 3, 3) {
        Err(ProsodyError::InvalidParameter(m)) => assert_eq!(m, "all feature vectors must have the same length"),
        other => panic!("unexpected {:?}", other),
    }
}

#[test]
fn nearest_neighbours_pick_smallest_keys_first() {
    // node 2's distances; its own entry is ignored
    let keys = vec![30u64, 10, 0, 10, 5];
    assert_eq!(nearest_neighbours(&keys, 2, 2), vec![4, 1]);
    assert_eq!(nearest_neighbours(&keys, 2, 3), vec![4, 1, 3]);
    // at least one neighbour, at most all the others
    assert_eq!(nearest_neighbours(&keys, 2, 0), vec![4]);
    assert_eq!(nearest_neighbours(&keys, 2, 99), vec![4, 1, 3, 0]);
    assert_eq!(nearest_neighbours(&vec![7u64, 7], 1, 5), vec![0]);
}
