use semantic_pdf_diff::report::{
    escape_html, first_words, has_any, hunk_has_digit_change, hunk_label, section_hint_from_text,
};
use semantic_pdf_diff::types::{TextHunk, TextHunkGranularity, TextHunkKind};

fn hunk(kind: TextHunkKind, old: Option<&str>, new: Option<&str>) -> TextHunk {
    TextHunk {
        kind,
        granularity: None,
        old_range: None,
        new_range: None,
        old_text: old.map(|s| s.to_owned()),
        new_text: new.map(|s| s.to_owned()),
    }
}

#[test]
fn escapes_html_special_characters() {
    assert_eq!(escape_html("a < b & \"c\" > d"), "a &lt; b &amp; &quot;c&quot; &gt; d");
    assert_eq!(escape_html("&amp;"), "&amp;amp;");
    assert_eq!(escape_html(""), "");
}

#[test]
fn finds_any_needle() {
    assert!(has_any("payment is due", &["invoice", "due"]));
    assert!(!has_any("payment", &["invoice", "fee"]));
    assert!(has_any("anything", &[""]));
    assert!(!has_any("anything", &[]));
}

#[test]
fn digit_changes_are_detected_on_either_side() {
    assert!(hunk_has_digit_change(&hunk(TextHunkKind::Replaced, Some("30"), Some("fifteen"))));
    assert!(hunk_has_digit_change(&hunk(TextHunkKind::Inserted, None, Some("day 5"))));
    assert!(!hunk_has_digit_change(&hunk(TextHunkKind::Replaced, Some("thirty"), Some("fifteen"))));
}

#[test]
fn hunk_labels_name_kind_and_granularity() {
    let mut h = hunk(TextHunkKind::Replaced, Some("a"), Some("b"));
    assert_eq!(hunk_label(&h), "Replaced");
    h.granularity = Some(TextHunkGranularity::Token);
    assert_eq!(hunk_label(&h), "Replaced/Token");
    h.kind = TextHunkKind::Equal;
    h.granularity = Some(TextHunkGranularity::Character);
    assert_eq!(hunk_label(&h), "Equal/Character");
}

#[test]
fn first_words_joins_and_cuts_at_ninety_six_bytes() {
    assert_eq!(first_words("  one   two\tthree  ", 2), "one two");
    let long = vec!["abcdefghijk"; 10].join(" ");
    let cut = first_words(&long, 10);
    assert_eq!(cut.len(), 95);
    assert!(!cut.ends_with(' '));
    let longer = vec!["abcdefghijkl"; 10].join(" ");
    assert_eq!(first_words(&longer, 10).len(), 96);
}

#[test]
fn section_hints_come_from_section_openers_and_numbered_words() {
    assert_eq!(section_hint_from_text("Section 4.2 Payment Terms apply").as_deref(), Some("Section 4.2 Payment Terms apply"));
    assert_eq!(section_hint_from_text("  3. Termination of the agreement ").as_deref(), Some("3. Termination of the agreement"));
    assert_eq!(section_hint_from_text("CLAUSE 7 Fees").as_deref(), Some("CLAUSE 7 Fees"));
    assert_eq!(section_hint_from_text("(a) 12) Items").as_deref(), None);
    assert_eq!(section_hint_from_text("12) Items").as_deref(), Some("12) Items"));
    assert_eq!(section_hint_from_text("Hello world"), None);
    assert_eq!(section_hint_from_text("   "), None);
}
