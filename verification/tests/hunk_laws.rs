use semantic_pdf_diff::textdiff::text_hunks_from_tokens;
use semantic_pdf_diff::types::{TextHunk, TextHunkKind};

fn words(text: &str) -> Vec<String> {
    text.split_whitespace().map(str::to_owned).collect()
}

fn rejoin(hunks: &[TextHunk], old: bool) -> String {
    hunks
        .iter()
        .filter_map(|h| if old { h.old_text.clone() } else { h.new_text.clone() })
        .collect::<Vec<_>>()
        .join(" ")
}

#[test]
fn hunks_rejoin_to_both_texts_and_are_shaped() {
    let old = "the quick brown fox jumps over the lazy dog";
    let new = "a quick red fox jumps over lazy dogs today";
    let hunks = text_hunks_from_tokens(&words(old), &words(new));
    assert_eq!(rejoin(&hunks, true), old);
    assert_eq!(rejoin(&hunks, false), new);
    for h in &hunks {
        match h.kind {
            TextHunkKind::Equal => assert!(h.old_text.is_some() && h.old_text == h.new_text),
            TextHunkKind::Inserted => assert!(h.old_text.is_none() && h.new_text.is_some()),
            TextHunkKind::Deleted => assert!(h.old_text.is_some() && h.new_text.is_none()),
            TextHunkKind::Replaced => assert!(h.old_text.is_some() && h.new_text.is_some()),
        }
    }
    for pair in hunks.windows(2) {
        assert_ne!(pair[0].kind, pair[1].kind);
    }
}
