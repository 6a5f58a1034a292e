use semantic_pdf_diff::document::PdfDocument;
use semantic_pdf_diff::semantic::{
    append_text, assign_semantic_anchors, build_anchor, effective_tagged_structure_type, is_bullet_list_marker,
    is_list_candidate, is_numbered_list_marker, normalize_anchor_text, reindexed_node_ids,
    repeated_region_signature, semantic_tagged_elements, structure_mcid_list, tagged_structure_kind,
    weak_signature_text, AnchorSubject, SemanticAnchor, SemanticNodeKind, TaggedStructureElementSummary,
};
use semantic_pdf_diff::types::ParseConfig;

fn element(structure_type: &str, mcids: Vec<usize>, children: Vec<TaggedStructureElementSummary>) -> TaggedStructureElementSummary {
    TaggedStructureElementSummary {
        structure_type: structure_type.to_owned(),
        mapped_structure_type: None,
        mcids,
        children,
    }
}

fn subject(kind: SemanticNodeKind, text: &str) -> AnchorSubject {
    AnchorSubject { kind, text: Some(text.to_owned()), geometry_bucket: "page-0:x-0001:y-0002".to_owned() }
}

#[test]
fn structure_types_map_to_node_kinds() {
    assert_eq!(tagged_structure_kind("H2"), SemanticNodeKind::HeadingCandidate);
    assert_eq!(tagged_structure_kind("H"), SemanticNodeKind::HeadingCandidate);
    assert_eq!(tagged_structure_kind("LI"), SemanticNodeKind::ListCandidate);
    assert_eq!(tagged_structure_kind("TD"), SemanticNodeKind::TableCandidate);
    assert_eq!(tagged_structure_kind("Form"), SemanticNodeKind::FigureCandidate);
    assert_eq!(tagged_structure_kind("Header"), SemanticNodeKind::HeaderCandidate);
    assert_eq!(tagged_structure_kind("Footer"), SemanticNodeKind::FooterCandidate);
    assert_eq!(tagged_structure_kind("Span"), SemanticNodeKind::Paragraph);
    assert_eq!(tagged_structure_kind("Sect"), SemanticNodeKind::UnknownBlock);
    assert_eq!(tagged_structure_kind("h1"), SemanticNodeKind::UnknownBlock);
}

#[test]
fn mapped_types_decide_before_own_types() {
    let mut e = element("Para", vec![], vec![]);
    assert_eq!(effective_tagged_structure_type(&e), "Para");
    e.mapped_structure_type = Some("P".to_owned());
    assert_eq!(effective_tagged_structure_type(&e), "P");
}

#[test]
fn list_markers_are_recognized() {
    assert!(is_numbered_list_marker("1. First item"));
    assert!(is_numbered_list_marker("12) Second"));
    assert!(is_numbered_list_marker("123. Third"));
    assert!(!is_numbered_list_marker("1234. Too long"));
    assert!(!is_numbered_list_marker("1.x"));
    assert!(!is_numbered_list_marker(". x"));
    assert!(is_bullet_list_marker("- Bullet item"));
    assert!(is_bullet_list_marker("*\tStar"));
    assert!(!is_bullet_list_marker("-x"));
    assert!(!is_bullet_list_marker("-"));
    assert!(is_list_candidate("   + indented item"));
    assert!(is_list_candidate("  3) item"));
    assert!(!is_list_candidate("Body paragraph."));
}

#[test]
fn anchor_texts_fold_case_and_whitespace() {
    assert_eq!(normalize_anchor_text("  Payment  IS\tdue "), "payment is due");
    assert_eq!(repeated_region_signature("Page 12 of 30"), "page # of #");
    assert_eq!(repeated_region_signature("2024-05-01"), "#-#-#");
    assert_eq!(weak_signature_text("Payment is due in 30 days"), "payment is due in days");
    assert_eq!(weak_signature_text("12 34"), "12 34");
    assert_eq!(weak_signature_text("a b c d e f g h i j"), "a b c d e f g h");
}

#[test]
fn assigns_stable_semantic_anchors() {
    let nodes = vec![subject(SemanticNodeKind::Paragraph, "Payment is due in 30 days")];
    let first = assign_semantic_anchors(&nodes);
    let second = assign_semantic_anchors(&nodes);
    assert_eq!(first[0], second[0]);
    assert!(first[0].strong_text_hash.starts_with("text:"));
    assert!(first[0].weak_text_signature.starts_with("weak:"));
    assert_eq!(first[0].geometry_bucket, "page-0:x-0001:y-0002");
    assert_eq!(first[0].strong_text_hash.len(), "text:".len() + 16);
}

#[test]
fn text_edit_changes_strong_hash_but_keeps_weak_signature() {
    let old = build_anchor(Some("Payment is due in 30 days"), "b".to_owned(), None);
    let new = build_anchor(Some("Payment is due in 15 days"), "b".to_owned(), None);
    assert_ne!(old.strong_text_hash, new.strong_text_hash);
    assert_eq!(old.weak_text_signature, new.weak_text_signature);
}

#[test]
fn paragraph_anchor_keeps_heading_context() {
    let nodes = vec![
        subject(SemanticNodeKind::HeadingCandidate, "1. Scope"),
        subject(SemanticNodeKind::Paragraph, "Body text"),
    ];
    let anchors = assign_semantic_anchors(&nodes);
    assert_eq!(anchors[0].heading_context, None);
    assert_eq!(anchors[1].heading_context, Some(anchors[0].strong_text_hash.clone()));
}

#[test]
fn unknown_anchor_is_all_zero() {
    let a = SemanticAnchor::unknown();
    assert_eq!(a.strong_text_hash, "text:0000000000000000");
    assert_eq!(a.weak_text_signature, "weak:0000000000000000");
    assert_eq!(a.geometry_bucket, "page-unknown:x-unknown:y-unknown");
    assert_eq!(a.heading_context, None);
}

#[test]
fn marked_content_ids_are_listed_once_in_order() {
    let tree = vec![element("Table", vec![3, 1], vec![element("TD", vec![1, 2], vec![])]), element("P", vec![7], vec![])];
    assert_eq!(structure_mcid_list(&tree), vec![1, 2, 3, 7]);
    assert!(structure_mcid_list(&vec![]).is_empty());
}

#[test]
fn text_runs_are_joined_with_single_spaces() {
    let mut t = String::from("Hello");
    append_text(&mut t, "world");
    assert_eq!(t, "Hello world");
    let mut t = String::from("Hello ");
    append_text(&mut t, "world");
    assert_eq!(t, "Hello world");
    let mut t = String::new();
    append_text(&mut t, "x");
    assert_eq!(t, "x");
    let mut t = String::from("a");
    append_text(&mut t, " b");
    assert_eq!(t, "a b");
}

#[test]
fn nodes_are_renumbered_in_order() {
    assert_eq!(reindexed_node_ids(2), vec!["n0000".to_owned(), "n0001".to_owned()]);
    assert!(reindexed_node_ids(0).is_empty());
}

#[test]
fn tagged_elements_are_summarized_for_the_semantic_layer() {
    let pdf = "%PDF-1.7
1 0 obj
<< /Type /Catalog /Pages 2 0 R /StructTreeRoot 6 0 R >>
endobj
2 0 obj
<< /Type /Pages /Kids [3 0 R] /Count 1 >>
endobj
3 0 obj
<< /Type /Page /Parent 2 0 R /StructParents 0 /Contents 4 0 R >>
endobj
4 0 obj
<< /Length 61 >>
stream
BT /P << /MCID 0 >> BDC /F1 12 Tf 72 720 Td (Tagged) Tj EMC ET
endstream
endobj
6 0 obj
<< /Type /StructTreeRoot /K [7 0 R] >>
endobj
7 0 obj
<< /Type /StructElem /S /P /K 0 /Pg 3 0 R >>
endobj
";
    let document = PdfDocument::parse(pdf.as_bytes()).expect("tagged PDF should parse");
    let structure = document.tagged_structure(ParseConfig::default());
    let summaries = semantic_tagged_elements(&structure.roots);
    assert_eq!(summaries.len(), 1);
    assert_eq!(summaries[0].structure_type, "P");
    assert_eq!(summaries[0].mcids, vec![0]);
    assert_eq!(structure_mcid_list(&summaries), vec![0]);
}
