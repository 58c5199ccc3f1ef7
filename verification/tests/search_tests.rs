use vigrep::search::{
    display_limit, effective_top_k, rerank_candidate_count, reorder_by_rerank, snippet_lines,
};

#[test]
fn top_k_defaults_and_floor() {
    assert_eq!(effective_top_k(None, 10), 10);
    assert_eq!(effective_top_k(Some(3), 10), 3);
    assert_eq!(effective_top_k(Some(0), 10), 1);
    assert_eq!(display_limit(5, 3), 3);
    assert_eq!(display_limit(2, 3), 2);
}

#[test]
fn rerank_candidates() {
    assert_eq!(rerank_candidate_count(1, 40, 10), None);
    assert_eq!(rerank_candidate_count(100, 40, 10), Some(40));
    assert_eq!(rerank_candidate_count(100, 5, 10), Some(10));
    assert_eq!(rerank_candidate_count(7, 40, 10), Some(7));
    assert_eq!(rerank_candidate_count(7, 0, 0), Some(1));
}

#[test]
fn rerank_reorders_candidates() {
    let order = reorder_by_rerank(4, &[2, 9, 0, 2]);
    assert_eq!(order, vec![(2, Some(0)), (0, Some(2)), (1, None), (3, None)]);
    let unchanged = reorder_by_rerank(3, &[]);
    assert_eq!(unchanged, vec![(0, None), (1, None), (2, None)]);
}

#[test]
fn snippet_shows_ten_lines() {
    let text = (1..=12).map(|i| i.to_string()).collect::<Vec<_>>().join("\n");
    let (lines, more) = snippet_lines(&text, false);
    assert_eq!(lines.len(), 10);
    assert_eq!(lines[9], "10");
    assert!(more);
    let (all, more) = snippet_lines(&text, true);
    assert_eq!(all.len(), 12);
    assert!(!more);
    let (few, more) = snippet_lines("a\nb", false);
    assert_eq!(few, vec!["a".to_string(), "b".to_string()]);
    assert!(!more);
}
