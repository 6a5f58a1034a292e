use semantic_pdf_diff::diffing::{
    change_id, comparable_text, modified_reason_with_hunks, move_pairs, normalize_text_for_match, normalized_tokens,
    summarize_kinds, text_hunks_for_nodes, DefaultSeverityClassifier, MoveCandidate,
};
use semantic_pdf_diff::types::{ChangeKind, ChangeSeverity, TextHunk, TextHunkKind};

fn candidate(kind: ChangeKind, old_text: Option<&str>, new_text: Option<&str>) -> MoveCandidate {
    MoveCandidate { kind, old_text: old_text.map(|t| t.to_owned()), new_text: new_text.map(|t| t.to_owned()) }
}

#[test]
fn default_classifier_rates_by_kind() {
    let c = DefaultSeverityClassifier;
    assert_eq!(c.classify(ChangeKind::Modified), ChangeSeverity::Major);
    assert_eq!(c.classify(ChangeKind::Inserted), ChangeSeverity::Major);
    assert_eq!(c.classify(ChangeKind::Moved), ChangeSeverity::Minor);
    assert_eq!(c.classify(ChangeKind::StyleChanged), ChangeSeverity::Minor);
    assert_eq!(c.classify(ChangeKind::MetadataChanged), ChangeSeverity::Info);
    assert_eq!(c.classify(ChangeKind::ObjectChanged), ChangeSeverity::Info);
    assert_eq!(c.classify(ChangeKind::FormFieldChanged), ChangeSeverity::Major);
    assert_eq!(c.classify(ChangeKind::Unknown), ChangeSeverity::Major);
}

#[test]
fn texts_are_normalized_as_configured() {
    assert_eq!(normalize_text_for_match("  Alpha \n Beta ", true, false), "Alpha Beta");
    assert_eq!(normalize_text_for_match("  Alpha \n Beta ", true, true), "alpha beta");
    assert_eq!(normalize_text_for_match(" A  B", false, false), " A  B");
    assert_eq!(normalize_text_for_match(" A  B", false, true), " a  b");
    assert_eq!(comparable_text(None, true, true), "");
    assert_eq!(normalized_tokens(" one  two three ", false, false), vec!["one", "two", "three"]);
}

#[test]
fn hunks_between_node_texts() {
    let hunks = text_hunks_for_nodes(Some("Hello"), Some("Hello world"), true, false).expect("a small text");
    assert_eq!(hunks.len(), 2);
    assert_eq!(hunks[0].kind, TextHunkKind::Equal);
    assert_eq!(hunks[1].kind, TextHunkKind::Inserted);
    assert_eq!(hunks[1].old_text, None);
    assert_eq!(hunks[1].new_text.as_deref(), Some("world"));
    let same = text_hunks_for_nodes(Some("a  b"), Some("a b"), true, false).expect("a small text");
    assert_eq!(same.len(), 1);
    assert_eq!(same[0].kind, TextHunkKind::Equal);
    assert_eq!(same[0].old_text.as_deref(), Some("a b"));
}

#[test]
fn modified_reason_quotes_the_first_changed_hunk() {
    let hunks = text_hunks_for_nodes(Some("Hello"), Some("Hello world"), true, false).unwrap();
    assert_eq!(
        modified_reason_with_hunks(Some("Hello"), Some("Hello world"), true, false, &hunks),
        "paragraph text differs between exact-match anchors (old: \"\" -> new: \"world\")"
    );
    let replaced = vec![TextHunk {
        kind: TextHunkKind::Replaced,
        granularity: None,
        old_range: None,
        new_range: None,
        old_text: Some("30".to_owned()),
        new_text: Some("15".to_owned()),
    }];
    assert_eq!(
        modified_reason_with_hunks(Some("due in 30"), Some("due in 15"), true, false, &replaced),
        "paragraph text differs between exact-match anchors (old: \"30\" -> new: \"15\")"
    );
    assert_eq!(
        modified_reason_with_hunks(Some("a  b"), Some("a b"), true, false, &replaced),
        "paragraph text differs between exact-match anchors"
    );
    assert_eq!(
        modified_reason_with_hunks(Some("a"), Some("b"), true, false, &[]),
        "paragraph text differs between exact-match anchors"
    );
}

#[test]
fn change_ids_are_numbered_with_four_digits() {
    assert_eq!(change_id(0), "change-0000");
    assert_eq!(change_id(37), "change-0037");
    assert_eq!(change_id(10000), "change-10000");
}

#[test]
fn summary_counts_each_kind() {
    let kinds = vec![
        ChangeKind::Inserted,
        ChangeKind::Deleted,
        ChangeKind::Inserted,
        ChangeKind::Moved,
        ChangeKind::ObjectChanged,
        ChangeKind::LayoutChanged,
    ];
    let s = summarize_kinds(&kinds);
    assert_eq!((s.inserted, s.deleted, s.modified, s.moved, s.layout_changed), (2, 1, 0, 1, 1));
}

#[test]
fn insertions_pair_with_the_earliest_matching_deletion() {
    let changes = vec![
        candidate(ChangeKind::Deleted, Some("Alpha beta"), None),
        candidate(ChangeKind::Inserted, None, Some("Gamma")),
        candidate(ChangeKind::Deleted, Some("alpha beta"), None),
        candidate(ChangeKind::Inserted, None, Some("alpha  beta")),
        candidate(ChangeKind::Inserted, None, Some("alpha beta")),
    ];
    assert_eq!(move_pairs(&changes, true, false), vec![(3, 2)]);
    assert_eq!(move_pairs(&changes, true, true), vec![(3, 0), (4, 2)]);
    assert!(move_pairs(&changes, false, false).len() == 1);
    assert!(move_pairs(&[], true, true).is_empty());
}
