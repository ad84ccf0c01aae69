use spectral_prosody::phrase::{stable_order, PhraseSegmenter};
use spectral_prosody::ProsodyError;

#[test]
fn new_uses_twice_as_many_layers() {
    let s = PhraseSegmenter::new(4);
    assert_eq!(s.max_phrases, 4);
    assert_eq!(s.num_layers, 8);
    let d = PhraseSegmenter::default();
    assert_eq!(d.max_phrases, 8);
    assert_eq!(d.num_layers, 5);
}

#[test]
fn segmentation_needs_two_nodes() {
    let s = PhraseSegmenter::new(4);
    match s.check_node_count(1) {
        Err(ProsodyError::InsufficientNodes { got, need }) => {
            assert_eq!(got, 1);
            assert_eq!(need, 2);
        }
        other => panic!("unexpected {:?}", other),
    }
    assert!(s.check_node_count(2).is_ok());
}

#[test]
fn stable_order_ascending_and_descending() {
    let keys = vec![3u64, 1, 3, 0];
    assert_eq!(stable_order(&keys, false), vec![3, 1, 0, 2]);
    assert_eq!(stable_order(&keys, true), vec![0, 2, 1, 3]);
    assert_eq!(stable_order(&vec![], true), Vec::<usize>::new());
}

#[test]
fn plan_tops_up_sign_cuts_with_widest_gaps() {
    let s = PhraseSegmenter::new(4);
    let order = vec![2usize, 0, 1, 5, 3, 4];
    let signs = vec![-1i8, -1, -1, 1, 1, 1];
    let gap_keys = vec![5u64, 1, 9, 2, 7];
    assert_eq!(s.phrase_cuts(&signs, &gap_keys), vec![1, 3, 5]);
    let spans = s.plan(&order, &signs, &gap_keys);
    assert_eq!(spans.len(), 4);
    assert_eq!(spans[0].members, vec![2]);
    assert_eq!(spans[1].members, vec![0, 1]);
    assert_eq!(spans[2].members, vec![5, 3]);
    assert_eq!(spans[3].members, vec![4]);
    assert_eq!((spans[2].start_idx, spans[2].end_idx), (3, 5));
    assert_eq!(spans[3].label, "phrase_3");
}

#[test]
fn plan_truncates_sign_cuts_to_limit() {
    let s = PhraseSegmenter::new(2);
    let order = vec![0usize, 1, 2, 3, 4];
    let signs = vec![1i8, -1, 1, -1, 1];
    let gap_keys = vec![0u64; 4];
    assert_eq!(s.phrase_cuts(&signs, &gap_keys), vec![1]);
    let spans = s.plan(&order, &signs, &gap_keys);
    assert_eq!(spans.len(), 2);
    assert_eq!(spans[1].members, vec![1, 2, 3, 4]);
    assert_eq!(spans[0].label, "phrase_0");
    assert_eq!(spans[1].label, "phrase_1");
}

#[test]
fn plan_with_zero_phrases_allowed_gives_none() {
    let s = PhraseSegmenter::new(0);
    let order = vec![1usize, 0, 2];
    let spans = s.plan(&order, &vec![1, -1, 1], &vec![4, 4]);
    assert!(spans.is_empty());
    assert!(s.whole_spans(3).is_empty());
}

#[test]
fn plan_covers_every_node_once() {
    let s = PhraseSegmenter::new(5);
    let order = vec![7usize, 3, 9, 0, 1, 8, 2, 6, 5, 4];
    let signs = vec![-1i8, -1, 1, 1, 1, -1, -1, 1, 1, 1];
    let gap_keys = vec![3u64, 8, 1, 1, 6, 2, 9, 0, 4];
    let spans = s.plan(&order, &signs, &gap_keys);
    assert!(!spans.is_empty() && spans.len() <= 5);
    let joined: Vec<usize> = spans.iter().flat_map(|p| p.members.clone()).collect();
    assert_eq!(joined, order);
    for p in &spans {
        assert!(p.start_idx <= p.end_idx);
    }
}

#[test]
fn whole_span_lists_all_nodes() {
    let s = PhraseSegmenter::new(3);
    let spans = s.whole_spans(4);
    assert_eq!(spans.len(), 1);
    let span = &spans[0];
    assert_eq!(span.members, vec![0, 1, 2, 3]);
    assert_eq!((span.start_idx, span.end_idx), (0, 3));
    assert_eq!(span.label, "phrase_0");
}

#[test]
fn labels_use_decimal_numbers() {
    let s = PhraseSegmenter::new(13);
    let order: Vec<usize> = (0..12).collect();
    let signs: Vec<i8> = (0..12).map(|k| if k % 2 == 0 { 1 } else { -1 }).collect();
    let gap_keys = vec![1u64; 11];
    let spans = s.plan(&order, &signs, &gap_keys);
    assert_eq!(spans.len(), 12);
    assert_eq!(spans[10].label, "phrase_10");
    assert_eq!(spans[11].label, "phrase_11");
}

#[test]
fn gaps_are_ranked_only_when_sign_changes_fall_short() {
    let signs = vec![1i8, -1, 1, -1, 1];
    assert!(!PhraseSegmenter::new(2).needs_gap_ranking(&signs));
    assert!(!PhraseSegmenter::new(5).needs_gap_ranking(&signs));
    assert!(PhraseSegmenter::new(6).needs_gap_ranking(&signs));
    assert!(!PhraseSegmenter::new(0).needs_gap_ranking(&signs));
    assert!(!PhraseSegmenter::new(1).needs_gap_ranking(&signs));
    // a zero sign never starts a new run
    assert!(PhraseSegmenter::new(2).needs_gap_ranking(&vec![1, 0, 1, 0]));
}

#[test]
fn phrase_count_is_the_smaller_of_limit_and_nodes() {
    let order: Vec<usize> = (0..7).collect();
    let signs = vec![-1i8, -1, 1, 1, -1, 0, -1];
    let gap_keys = vec![2u64, 9, 4, 4, 1, 7];
    for max in 1..10usize {
        let spans = PhraseSegmenter::new(max).plan(&order, &signs, &gap_keys);
        assert_eq!(spans.len(), max.min(7), "max {}", max);
    }
}
