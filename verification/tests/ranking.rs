use rust_rag::ranking::rank_by_score;

#[test]
fn ranks_best_first_and_skips_unscored() {
    let scores = vec![Some(5), None, Some(9), Some(5), Some(1)];
    assert_eq!(rank_by_score(&scores, 3), vec![2, 0, 3]);
}

#[test]
fn equal_scores_keep_their_order() {
    let scores = vec![Some(7), Some(7), Some(7), Some(7)];
    assert_eq!(rank_by_score(&scores, 2), vec![0, 1]);
    assert_eq!(rank_by_score(&scores, 10), vec![0, 1, 2, 3]);
}

#[test]
fn top_zero_is_empty() {
    let scores = vec![Some(1), Some(2)];
    assert_eq!(rank_by_score(&scores, 0), Vec::<usize>::new());
}

#[test]
fn more_results_than_scored_documents() {
    let scores = vec![None, Some(3), None, Some(4)];
    assert_eq!(rank_by_score(&scores, 10), vec![3, 1]);
}

#[test]
fn no_documents() {
    let scores: Vec<Option<u32>> = Vec::new();
    assert_eq!(rank_by_score(&scores, 3), Vec::<usize>::new());
}

#[test]
fn fewer_results_are_a_prefix_of_more() {
    let scores = vec![Some(3), Some(8), None, Some(8), Some(0), Some(12)];
    let all = rank_by_score(&scores, 6);
    assert_eq!(all, vec![5, 1, 3, 0, 4]);
    for k in 0..6 {
        let part = rank_by_score(&scores, k);
        assert_eq!(part.as_slice(), &all[..k.min(all.len())]);
    }
}
