use semantic_pdf_diff::textdiff::{
    exact_text_matches, greedy_exact_text_matches, is_text_extension, match_limit_diagnostic,
    matrix_cell_count_exceeds_limit, text_hunks_from_tokens, token_lcs_len,
};
use semantic_pdf_diff::types::TextHunkKind;

fn words(text: &str) -> Vec<String> {
    text.split_whitespace().map(|w| w.to_owned()).collect()
}

#[test]
fn lcs_length_of_token_lists() {
    assert_eq!(token_lcs_len(&words("a b c d"), &words("a c d e")), 3);
    assert_eq!(token_lcs_len(&words(""), &words("a")), 0);
    assert_eq!(token_lcs_len(&words("x y"), &words("y x")), 1);
}

#[test]
fn hunks_mark_a_replaced_number_between_equal_runs() {
    let hunks = text_hunks_from_tokens(&words("Payment is due in 30 days"), &words("Payment is due in 15 days"));
    assert_eq!(hunks.len(), 3);
    assert_eq!(hunks[0].kind, TextHunkKind::Equal);
    assert_eq!(hunks[0].old_text.as_deref(), Some("Payment is due in"));
    assert_eq!(hunks[0].new_text.as_deref(), Some("Payment is due in"));
    assert_eq!(hunks[1].kind, TextHunkKind::Replaced);
    assert_eq!(hunks[1].old_text.as_deref(), Some("30"));
    assert_eq!(hunks[1].new_text.as_deref(), Some("15"));
    assert_eq!(hunks[2].kind, TextHunkKind::Equal);
    assert_eq!(hunks[2].old_text.as_deref(), Some("days"));
    assert!(hunks.iter().all(|h| h.granularity.is_none() && h.old_range.is_none() && h.new_range.is_none()));
}

#[test]
fn hunks_for_pure_insertion_and_deletion() {
    let inserted = text_hunks_from_tokens(&words("a"), &words("a b c"));
    assert_eq!(inserted.len(), 2);
    assert_eq!(inserted[1].kind, TextHunkKind::Inserted);
    assert_eq!(inserted[1].old_text, None);
    assert_eq!(inserted[1].new_text.as_deref(), Some("b c"));
    let deleted = text_hunks_from_tokens(&words("a b"), &words(""));
    assert_eq!(deleted.len(), 1);
    assert_eq!(deleted[0].kind, TextHunkKind::Deleted);
    assert_eq!(deleted[0].old_text.as_deref(), Some("a b"));
    assert!(text_hunks_from_tokens(&words(""), &words("")).is_empty());
}

#[test]
fn exact_matches_follow_a_longest_common_subsequence() {
    let old = words("Alpha Beta Gamma");
    let new = words("Alpha Inserted Beta Gamma");
    let result = exact_text_matches(&old, &new, 1_000_000);
    assert_eq!(result.matches, vec![(0, 0), (1, 2), (2, 3)]);
    assert!(result.diagnostic.is_none());
}

#[test]
fn exact_matches_fall_back_to_greedy_over_the_limit() {
    let old = words("Alpha Beta Gamma");
    let new = words("Inserted Alpha Beta Gamma");
    let result = exact_text_matches(&old, &new, 4);
    assert_eq!(result.matches, vec![(0, 1), (1, 2), (2, 3)]);
    let diagnostic = result.diagnostic.expect("limit diagnostic");
    assert_eq!(diagnostic.code, "EXACT_MATCH_LIMIT_EXCEEDED");
    assert_eq!(
        diagnostic.message,
        "exact text anchor matrix requires 12 cells for 3 old nodes and 4 new nodes, exceeding limit 4; using greedy exact-anchor fallback"
    );
}

#[test]
fn greedy_matches_skip_empty_and_backward_texts() {
    let old = vec!["b".to_owned(), "".to_owned(), "a".to_owned(), "c".to_owned()];
    let new = vec!["a".to_owned(), "b".to_owned(), "".to_owned(), "c".to_owned()];
    assert_eq!(greedy_exact_text_matches(&old, &new), vec![(0, 1), (3, 3)]);
}

#[test]
fn matrix_limit_counts_cells_and_overflow() {
    assert!(!matrix_cell_count_exceeds_limit(3, 4, 12));
    assert!(matrix_cell_count_exceeds_limit(3, 5, 12));
    assert!(matrix_cell_count_exceeds_limit(usize::MAX, 2, usize::MAX));
    let d = match_limit_diagnostic("CODE", usize::MAX, 2, 7, "m", "f");
    assert_eq!(d.message, format!("m requires overflow cells for {} old nodes and 2 new nodes, exceeding limit 7; using f", usize::MAX));
}

#[test]
fn text_extension_needs_a_proper_prefix() {
    assert!(is_text_extension("Payment", "Payment is due"));
    assert!(is_text_extension("Payment is due", "Payment"));
    assert!(!is_text_extension("Payment", "Payment"));
    assert!(!is_text_extension("", "Payment"));
    assert!(!is_text_extension("Pay", "Day"));
}
