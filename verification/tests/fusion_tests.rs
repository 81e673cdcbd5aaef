use bridge_search::errors::BridgeError;
use bridge_search::fusion::{fuse_search_results, weighted_rrf, Source};
use bridge_search::text_map::TextMap;
use bridge_search::{default_k, default_text_length};

fn score(e: &bridge_search::fusion::RRFSearchResult) -> f64 {
    e.score_num as f64 / e.score_den as f64
}

#[test]
fn fusion_example_orders_two_one_three() {
    // Vector list ranks ids 1 then 2; text list ranks ids 2 then 3.
    // With equal weights, id 2 gains from both lists and wins; id 1 beats
    // id 3 because rank 0 outweighs rank 1. Expected order: [2, 1, 3].
    let mut texts = TextMap::new();
    texts.insert(1, "one".to_string());
    texts.insert(2, "two".to_string());
    texts.insert(3, "three".to_string());

    // Weights 0.5 / 0.5, expressed in thousandths.
    let results = weighted_rrf(&vec![1, 2], &vec![2, 3], 500, 500, &texts);
    let ids: Vec<i64> = results.iter().map(|e| e.id).collect();
    assert_eq!(ids, vec![2, 1, 3]);

    // id 2: 0.5/(60+1) + 0.5/(60+0), exactly (500*60 + 500*61) / (61*60).
    let two = &results[0];
    assert_eq!(two.score_num, 500 * 60 + 500 * 61);
    assert_eq!(two.score_den, 61 * 60);
    assert_eq!(two.vector_rank, Some(1));
    assert_eq!(two.text_rank, Some(0));
    assert_eq!(two.source, Source::Both);
    assert_eq!(two.text, "two");

    // id 1: 0.5/(60+0) from the vector list alone.
    let one = &results[1];
    assert_eq!(one.score_num, 500);
    assert_eq!(one.score_den, 60);
    assert_eq!(one.vector_rank, Some(0));
    assert_eq!(one.text_rank, None);
    assert_eq!(one.source, Source::Vector);

    // id 3: 0.5/(60+1) from the text list alone.
    let three = &results[2];
    assert_eq!(three.score_num, 500);
    assert_eq!(three.score_den, 61);
    assert_eq!(three.vector_rank, None);
    assert_eq!(three.text_rank, Some(1));
    assert_eq!(three.source, Source::Text);

    // Scores are in fact descending.
    assert!(score(&results[0]) > score(&results[1]));
    assert!(score(&results[1]) > score(&results[2]));
}

#[test]
fn fusion_resolves_missing_text_to_unknown() {
    let mut texts = TextMap::new();
    texts.insert(1, "known".to_string());
    let results = weighted_rrf(&vec![1, 9], &Vec::new(), 500, 500, &texts);
    assert_eq!(results[0].text, "known");
    assert_eq!(results[1].id, 9);
    assert_eq!(results[1].text, "Unknown");
}

#[test]
fn search_with_no_sub_query_is_a_validation_error() {
    let texts = TextMap::new();
    let r = fuse_search_results(None, None, 500, 500, &texts);
    assert!(matches!(r, Err(BridgeError::Validation(_))));
}

#[test]
fn single_vector_query_is_rank_normalized() {
    let mut texts = TextMap::new();
    texts.insert(7, "seven".to_string());
    let list = vec![7, 8];
    let r = fuse_search_results(Some(&list), None, 500, 500, &texts).unwrap();
    assert_eq!(r.len(), 2);
    assert_eq!(r[0].id, 7);
    assert_eq!(r[0].score_num, 1);
    assert_eq!(r[0].score_den, 60);
    assert_eq!(r[0].source, Source::Vector);
    assert_eq!(r[0].source.label(), "vector");
    assert_eq!(r[1].score_den, 61);
}

#[test]
fn single_text_query_is_rank_normalized() {
    let mut texts = TextMap::new();
    texts.insert(3, "three".to_string());
    let list = vec![3];
    let r = fuse_search_results(None, Some(&list), 500, 500, &texts).unwrap();
    assert_eq!(r.len(), 1);
    assert_eq!(r[0].id, 3);
    assert_eq!(r[0].score_num, 1);
    assert_eq!(r[0].score_den, 60);
    assert_eq!(r[0].source, Source::Text);
    assert_eq!(r[0].text_rank, Some(0));
    assert_eq!(r[0].vector_rank, None);
}

#[test]
fn fusion_ties_keep_first_seen_order() {
    // Two ids at the same rank in disjoint positions score equally; the
    // vector-list id was seen first and stays first.
    let texts = TextMap::new();
    let results = weighted_rrf(&vec![10], &vec![20], 500, 500, &texts);
    assert_eq!(results.len(), 2);
    assert_eq!(results[0].id, 10);
    assert_eq!(results[1].id, 20);
    assert_eq!(results[0].score_num * results[1].score_den,
               results[1].score_num * results[0].score_den);
}

#[test]
fn search_defaults() {
    assert_eq!(default_k(), 10);
    assert_eq!(default_text_length(), 100);
}
