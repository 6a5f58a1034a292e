use semantic_pdf_diff::review::{
    build_question_hints, change_text, change_text_mentions_obligation, diagnostic_summary, review_explanation,
    review_summary, review_tags, section_hint, unsupported_surface_count, ReviewedChange, ReviewedItem,
};
use semantic_pdf_diff::types::{
    AiReviewAnswer, AiReviewTag, ChangeKind, Diagnostic, DiffSummary, TextHunk, TextHunkKind,
};

fn hunk(old: &str, new: &str) -> TextHunk {
    TextHunk {
        kind: TextHunkKind::Replaced,
        granularity: None,
        old_range: None,
        new_range: None,
        old_text: Some(old.to_owned()),
        new_text: Some(new.to_owned()),
    }
}

fn payment_change() -> ReviewedChange {
    ReviewedChange {
        id: "change-0000".to_owned(),
        kind: ChangeKind::Modified,
        old_text: Some("Payment is due within 30 days.".to_owned()),
        new_text: Some("Payment is due within 15 days.".to_owned()),
        text_hunks: vec![hunk("30", "15")],
        low_confidence: false,
        reason: "paragraph text differs".to_owned(),
    }
}

fn item_of(change: &ReviewedChange) -> ReviewedItem {
    ReviewedItem {
        change_id: change.id.clone(),
        tags: review_tags(change),
        old_text: change.old_text.clone(),
        new_text: change.new_text.clone(),
    }
}

#[test]
fn ai_review_report_summarizes_questions_tags_and_evidence() {
    let change = payment_change();
    let changes = vec![change.clone()];
    let summary = review_summary(
        &changes,
        DiffSummary { inserted: 0, deleted: 0, modified: 1, moved: 0, layout_changed: 0 },
        &[],
    );
    assert_eq!(summary.total_changes, 1);
    let item = item_of(&change);
    assert!(item.tags.contains(&AiReviewTag::PaymentTermsCandidate));
    assert!(item.tags.contains(&AiReviewTag::NumericValueChanged));
    assert_eq!(item.old_text.as_deref(), Some("Payment is due within 30 days."));
    let hints = build_question_hints(&[item], summary.unsupported_surface_count);
    let payment_hint = hints
        .iter()
        .find(|hint| hint.question == "Were payment terms modified?")
        .expect("payment question hint should be present");
    assert_eq!(payment_hint.answer, AiReviewAnswer::Yes);
    assert_eq!(payment_hint.supporting_change_ids, vec!["change-0000"]);
}

#[test]
fn tags_come_once_each_in_declared_order() {
    let tags = review_tags(&payment_change());
    assert_eq!(
        tags,
        vec![
            AiReviewTag::TextChanged,
            AiReviewTag::PaymentTermsCandidate,
            AiReviewTag::DateOrDurationCandidate,
            AiReviewTag::NumericValueChanged,
        ]
    );
}

#[test]
fn tags_for_surfaces_confidence_and_parties() {
    let change = ReviewedChange {
        id: "change-0001".to_owned(),
        kind: ChangeKind::StyleChanged,
        old_text: None,
        new_text: Some("ACME Corp".to_owned()),
        text_hunks: Vec::new(),
        low_confidence: true,
        reason: "UNSUPPORTED_FONT encountered".to_owned(),
    };
    assert_eq!(
        review_tags(&change),
        vec![
            AiReviewTag::PartyNameCandidate,
            AiReviewTag::VisualSurfaceChanged,
            AiReviewTag::UnsupportedSurface,
            AiReviewTag::LowConfidence,
        ]
    );
    let plain = ReviewedChange {
        id: "change-0002".to_owned(),
        kind: ChangeKind::Unknown,
        old_text: None,
        new_text: None,
        text_hunks: Vec::new(),
        low_confidence: false,
        reason: "x".to_owned(),
    };
    assert!(review_tags(&plain).is_empty());
}

#[test]
fn change_text_joins_both_sides_with_a_space() {
    let change = payment_change();
    assert_eq!(change_text(&change), "Payment is due within 30 days. Payment is due within 15 days.");
    let mut only_new = payment_change();
    only_new.old_text = None;
    assert_eq!(change_text(&only_new), " Payment is due within 15 days.");
}

#[test]
fn explanation_adds_notes_for_flagged_tags() {
    let change = payment_change();
    let tags = review_tags(&change);
    assert_eq!(
        review_explanation(&change, &tags),
        "Text changed between matched semantic nodes. Payment or amount terms are mentioned; treat this as a \
         review candidate, not a legal conclusion. Date, duration, or notice language is mentioned. paragraph \
         text differs"
    );
    let mut inserted = payment_change();
    inserted.kind = ChangeKind::Inserted;
    assert_eq!(
        review_explanation(&inserted, &[AiReviewTag::LowConfidence]),
        "Content was inserted. Confidence is low; inspect extraction diagnostics and source evidence. paragraph \
         text differs"
    );
}

#[test]
fn obligation_words_are_found_in_lower_case() {
    let mut change = payment_change();
    change.new_text = Some("The Vendor SHALL deliver.".to_owned());
    change.old_text = None;
    assert!(change_text_mentions_obligation(&change));
    change.new_text = Some("Nothing here.".to_owned());
    assert!(!change_text_mentions_obligation(&change));
}

#[test]
fn question_hints_answer_each_standing_question() {
    let mut layout = payment_change();
    layout.id = "change-0001".to_owned();
    layout.kind = ChangeKind::LayoutChanged;
    layout.text_hunks = Vec::new();
    layout.old_text = Some("Signature block".to_owned());
    layout.new_text = Some("Signature block".to_owned());
    let mut duty = payment_change();
    duty.id = "change-0002".to_owned();
    duty.new_text = Some("Supplier must notify".to_owned());
    let items = vec![item_of(&payment_change()), item_of(&layout), item_of(&duty)];
    let hints = build_question_hints(&items, 2);
    assert_eq!(hints.len(), 5);
    assert_eq!(hints[0].question, "Which contractual obligations changed?");
    assert_eq!(hints[0].supporting_change_ids, vec!["change-0000", "change-0002"]);
    assert_eq!(hints[1].supporting_change_ids, vec!["change-0000", "change-0002"]);
    assert_eq!(hints[2].supporting_change_ids, vec!["change-0001"]);
    assert_eq!(hints[3].answer, AiReviewAnswer::No);
    assert!(hints[3].supporting_change_ids.is_empty());
    assert_eq!(hints[4].answer, AiReviewAnswer::Yes);
    assert_eq!(
        hints[4].rationale,
        "Unsupported surfaces are counted from stable diagnostic codes that start with UNSUPPORTED_."
    );
    assert_eq!(build_question_hints(&[], 0)[4].answer, AiReviewAnswer::No);
}

#[test]
fn diagnostics_are_counted_by_code_in_order() {
    let diagnostics = vec![
        Diagnostic::warning("UNSUPPORTED_XFA", "a"),
        Diagnostic::info("FONT_MISSING", "b"),
        Diagnostic::warning("UNSUPPORTED_XFA", "c"),
        Diagnostic::error("A_FIRST", "d"),
    ];
    let counts = diagnostic_summary(&diagnostics);
    let pairs: Vec<(&str, usize)> = counts.iter().map(|c| (c.code.as_str(), c.count)).collect();
    assert_eq!(pairs, vec![("A_FIRST", 1), ("FONT_MISSING", 1), ("UNSUPPORTED_XFA", 2)]);
    assert_eq!(unsupported_surface_count(&diagnostics), 2);
    assert!(diagnostic_summary(&[]).is_empty());
}

#[test]
fn summary_counts_low_confidence_changes() {
    let mut low = payment_change();
    low.low_confidence = true;
    let changes = vec![payment_change(), low];
    let diagnostics = vec![Diagnostic::warning("UNSUPPORTED_JS", "x")];
    let summary = review_summary(
        &changes,
        DiffSummary { inserted: 3, deleted: 4, modified: 5, moved: 6, layout_changed: 7 },
        &diagnostics,
    );
    assert_eq!(summary.total_changes, 2);
    assert_eq!(summary.low_confidence_change_count, 1);
    assert_eq!(summary.unsupported_surface_count, 1);
    assert_eq!(summary.diagnostic_count, 1);
    assert_eq!(summary.layout_changed, 7);
}

#[test]
fn section_hint_prefers_the_new_text() {
    let mut change = payment_change();
    change.new_text = Some("Section 4 Payment terms apply here".to_owned());
    change.old_text = Some("1. Definitions".to_owned());
    assert_eq!(section_hint(&change).as_deref(), Some("Section 4 Payment terms apply here"));
    change.new_text = Some("Plain words".to_owned());
    assert_eq!(section_hint(&change).as_deref(), Some("1. Definitions"));
    change.old_text = None;
    assert_eq!(section_hint(&change), None);
}
