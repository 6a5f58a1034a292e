use semantic_pdf_diff::content::ContentOp;
use semantic_pdf_diff::document::{default_resource_limits, PdfDocument};
use semantic_pdf_diff::extract::{
    apply_tounicode_maps, font_tounicode_maps, is_vector_graphics_operator, page_programs,
    program_has_vector_graphics, retain_extraction_diagnostics,
};
use semantic_pdf_diff::features::{
    append_font_diagnostics, append_tagged_pdf_diagnostics, append_unsupported_feature_diagnostics,
    document_has_any_token, document_has_token, incremental_update_report, tagged_structure_report,
};
use semantic_pdf_diff::fonts::font_resources_from_document;
use semantic_pdf_diff::types::{Diagnostic, ParseConfig};

fn minimal_pdf(text: &str) -> Vec<u8> {
    format!("%PDF-1.7\n1 0 obj\n<< /Type /Catalog /Pages 2 0 R >>\nendobj\n2 0 obj\n<< /Type /Pages /Kids [3 0 R] /Count 1 >>\nendobj\n3 0 obj\n<< /Type /Page /Parent 2 0 R /Contents 4 0 R >>\nendobj\n4 0 obj\n<< /Length {} >>\nstream\nBT /F1 12 Tf 72 720 Td ({text}) Tj ET\nendstream\nendobj\n", text.len() + 32).into_bytes()
}

fn multi_page_pdf() -> Vec<u8> {
    "%PDF-1.7
1 0 obj
<< /Type /Catalog /Pages 2 0 R >>
endobj
2 0 obj
<< /Type /Pages /Kids [3 0 R 5 0 R] /Count 2 >>
endobj
3 0 obj
<< /Type /Page /Parent 2 0 R /Contents 4 0 R >>
endobj
4 0 obj
<< /Length 43 >>
stream
BT /F1 12 Tf 72 720 Td (First page) Tj ET
endstream
endobj
5 0 obj
<< /Type /Page /Parent 2 0 R /Contents 6 0 R >>
endobj
6 0 obj
<< /Length 44 >>
stream
BT /F1 12 Tf 72 720 Td (Second page) Tj ET
endstream
endobj
"
    .as_bytes()
    .to_vec()
}

fn image_payload_pdf(payload: &[u8]) -> Vec<u8> {
    let payload_text = String::from_utf8_lossy(payload);
    "%PDF-1.7
1 0 obj
<< /Type /Catalog /Pages 2 0 R >>
endobj
2 0 obj
<< /Type /Pages /Kids [3 0 R] /Count 1 >>
endobj
3 0 obj
<< /Type /Page /Parent 2 0 R /Resources << /XObject << /Im1 5 0 R >> >> /Contents 4 0 R >>
endobj
4 0 obj
<< /Length 21 >>
stream
q 10 0 0 10 0 0 cm /Im1 Do Q
endstream
endobj
5 0 obj
<< /Type /XObject /Subtype /Image /Width 1 /Height 1 /ColorSpace /DeviceGray /BitsPerComponent 8 /Length 1 >>
stream
x
endstream
endobj
"
    .replace("stream\nx\nendstream", &format!("stream\n{payload_text}\nendstream"))
    .into_bytes()
}

fn image_only_pdf() -> Vec<u8> {
    image_payload_pdf(b"x")
}

fn vector_graphics_pdf() -> Vec<u8> {
    "%PDF-1.7
1 0 obj
<< /Type /Catalog /Pages 2 0 R >>
endobj
2 0 obj
<< /Type /Pages /Kids [3 0 R] /Count 1 >>
endobj
3 0 obj
<< /Type /Page /Parent 2 0 R /Contents 4 0 R >>
endobj
4 0 obj
<< /Length 44 >>
stream
BT /F1 12 Tf 72 720 Td (Chart) Tj ET 0 0 m 10 10 l S
endstream
endobj
"
    .as_bytes()
    .to_vec()
}

fn cid_font_without_tounicode_pdf() -> Vec<u8> {
    "%PDF-1.7
1 0 obj
<< /Type /Catalog /Pages 2 0 R >>
endobj
2 0 obj
<< /Type /Pages /Kids [3 0 R] /Count 1 >>
endobj
3 0 obj
<< /Type /Page /Parent 2 0 R /Resources << /Font << /F1 5 0 R >> >> /Contents 4 0 R >>
endobj
4 0 obj
<< /Length 38 >>
stream
BT /F1 12 Tf 72 720 Td (Hello) Tj ET
endstream
endobj
5 0 obj
<< /Type /Font /Subtype /Type0 /BaseFont /CIDFont /DescendantFonts [6 0 R] >>
endobj
6 0 obj
<< /Type /Font /Subtype /CIDFontType2 /BaseFont /CIDFont >>
endobj
"
    .as_bytes()
    .to_vec()
}

fn cid_font_with_tounicode_pdf() -> Vec<u8> {
    "%PDF-1.7
1 0 obj
<< /Type /Catalog /Pages 2 0 R >>
endobj
2 0 obj
<< /Type /Pages /Kids [3 0 R] /Count 1 >>
endobj
3 0 obj
<< /Type /Page /Parent 2 0 R /Resources << /Font << /F1 5 0 R >> >> /Contents 4 0 R >>
endobj
4 0 obj
<< /Length 38 >>
stream
BT /F1 12 Tf 72 720 Td <0026> Tj ET
endstream
endobj
5 0 obj
<< /Type /Font /Subtype /Type0 /BaseFont /CIDFont /Encoding /Identity-H /DescendantFonts [6 0 R] /ToUnicode 7 0 R >>
endobj
6 0 obj
<< /Type /Font /Subtype /CIDFontType2 /BaseFont /CIDFont >>
endobj
7 0 obj
<< /Length 39 >>
stream
1 beginbfchar
<0026> <0043>
endbfchar
endstream
endobj
"
    .as_bytes()
    .to_vec()
}

fn tagged_pdf() -> Vec<u8> {
    "%PDF-1.7
1 0 obj
<< /Type /Catalog /Pages 2 0 R /StructTreeRoot 6 0 R >>
endobj
2 0 obj
<< /Type /Pages /Kids [3 0 R] /Count 1 >>
endobj
3 0 obj
<< /Type /Page /Parent 2 0 R /StructParents 0 /Contents 4 0 R >>
endobj
4 0 obj
<< /Length 61 >>
stream
BT /P << /MCID 0 >> BDC /F1 12 Tf 72 720 Td (Tagged) Tj EMC ET
endstream
endobj
6 0 obj
<< /Type /StructTreeRoot /K [7 0 R] >>
endobj
7 0 obj
<< /Type /StructElem /S /P /K 0 /Pg 3 0 R >>
endobj
"
    .as_bytes()
    .to_vec()
}

fn shown_texts(document: &PdfDocument) -> Vec<String> {
    let mut texts = Vec::new();
    for (_, program) in page_programs(document, default_resource_limits()) {
        for op in program.operations {
            if let ContentOp::ShowText { text, .. } = op {
                texts.push(text);
            }
        }
    }
    texts
}

/// The diagnostics the extraction pipeline adds for what it does not compare,
/// with `has_no_text_runs` for a document whose pages show no text.
fn feature_diagnostics(document: &PdfDocument, has_no_text_runs: bool) -> Vec<Diagnostic> {
    let fonts = font_resources_from_document(document);
    let has_vector_graphics = page_programs(document, default_resource_limits())
        .iter()
        .any(|(_, program)| program_has_vector_graphics(program));
    let mut diagnostics = Vec::new();
    append_unsupported_feature_diagnostics(document, &fonts, has_no_text_runs, has_vector_graphics, &mut diagnostics);
    diagnostics
}

#[test]
fn extracts_text_across_multiple_pages() {
    let document = PdfDocument::parse(&multi_page_pdf()).expect("multi-page extraction should succeed");
    let extracted = shown_texts(&document).join("\n");
    assert!(extracted.contains("First page"));
    assert!(extracted.contains("Second page"));
}

#[test]
fn reports_image_only_pdf_as_missing_text_layer() {
    let document = PdfDocument::parse(&image_only_pdf()).expect("image-only extraction should complete");
    assert!(shown_texts(&document).is_empty());
    let diagnostics = feature_diagnostics(&document, true);
    assert!(diagnostics.iter().any(|diagnostic| diagnostic.code == "MISSING_TEXT_LAYER"));
}

#[test]
fn reports_vector_graphics_as_unsupported_diff_surface() {
    let document = PdfDocument::parse(&vector_graphics_pdf()).expect("vector extraction should complete");
    let diagnostics = feature_diagnostics(&document, false);
    assert!(diagnostics.iter().any(|diagnostic| diagnostic.code == "UNSUPPORTED_VECTOR_GRAPHIC_DIFF"));
}

#[test]
fn reports_cid_font_without_tounicode() {
    let document = PdfDocument::parse(&cid_font_without_tounicode_pdf()).expect("CID-font document should parse");
    let diagnostics = feature_diagnostics(&document, false);
    assert!(diagnostics.iter().any(|diagnostic| diagnostic.code == "MISSING_TOUNICODE_CID_FONT"));
}

#[test]
fn does_not_report_cid_descendant_missing_tounicode_when_type0_parent_has_map() {
    let document = PdfDocument::parse(&cid_font_with_tounicode_pdf()).expect("CID-font document should parse");
    let fonts = font_resources_from_document(&document);
    let mut programs = page_programs(&document, default_resource_limits());
    let result = apply_tounicode_maps(&mut programs[0].1, &document, &fonts).expect("the CMap should be readable");
    assert!(result.applied);
    let text: Vec<String> = programs[0]
        .1
        .operations
        .iter()
        .filter_map(|op| match op {
            ContentOp::ShowText { text, .. } => Some(text.clone()),
            _ => None,
        })
        .collect();
    assert_eq!(text.join(" "), "C");
    let diagnostics = feature_diagnostics(&document, false);
    assert!(diagnostics
        .iter()
        .all(|diagnostic| diagnostic.code != "MISSING_TOUNICODE_CID_FONT" && diagnostic.code != "MISSING_TOUNICODE"));
}

#[test]
fn reports_tagged_pdf_structure_markers() {
    let document = PdfDocument::parse(&tagged_pdf()).expect("tagged PDF should parse");
    let mut diagnostics = Vec::new();
    append_tagged_pdf_diagnostics(&document, &mut diagnostics);
    assert!(diagnostics.iter().any(|diagnostic| diagnostic.code == "TAGGED_PDF_STRUCTURE_DETECTED"));
    assert!(diagnostics.iter().any(|diagnostic| diagnostic.code == "TAGGED_MCID_DETECTED"));
    let report = tagged_structure_report(&document.tagged_structure(ParseConfig::default()));
    assert_eq!(report.element_count, 1);
    assert_eq!(report.mcid_count, 1);
    assert_eq!(report.structure_types, vec!["P".to_owned()]);
    assert!(report.detected);
    assert_eq!(report.root_object.as_deref(), Some("6 0 R"));
}

#[test]
fn tagged_notices_state_their_counts() {
    let document = PdfDocument::parse(&tagged_pdf()).expect("tagged PDF should parse");
    let mut diagnostics = Vec::new();
    append_tagged_pdf_diagnostics(&document, &mut diagnostics);
    assert_eq!(
        diagnostics[0].message,
        "parsed tagged PDF structure with 1 elements and 1 MCID references; untagged layout heuristics remain the \
         fallback when MCID mapping is incomplete"
    );
    let last = diagnostics.last().expect("a notice of marked content");
    assert_eq!(last.message, "detected 1 marked-content IDs available for semantic node mapping");
}

#[test]
fn font_notice_counts_composite_fonts_without_maps() {
    let document = PdfDocument::parse(&cid_font_without_tounicode_pdf()).expect("CID-font document should parse");
    let fonts = font_resources_from_document(&document);
    let mut diagnostics = Vec::new();
    append_font_diagnostics(&fonts, &mut diagnostics);
    assert_eq!(diagnostics.len(), 1);
    assert_eq!(
        diagnostics[0].message,
        "1 CID/Type0 font objects have no ToUnicode map; extraction falls back to literal bytes with lower confidence"
    );
}

#[test]
fn tokens_are_found_in_object_text() {
    let document = PdfDocument::parse(&image_only_pdf()).expect("document should parse");
    assert!(document_has_token(&document, "/Subtype /Image"));
    assert!(!document_has_token(&document, "/AcroForm"));
    assert!(document_has_any_token(&document, &["/AcroForm", "/XObject"]));
    assert!(!document_has_any_token(&document, &[]));
}

#[test]
fn vector_operators_are_recognized() {
    assert!(is_vector_graphics_operator("re"));
    assert!(is_vector_graphics_operator("W*"));
    assert!(!is_vector_graphics_operator("Tj"));
    assert!(!is_vector_graphics_operator("Do"));
}

#[test]
fn tounicode_maps_are_read_per_font() {
    let document = PdfDocument::parse(&cid_font_with_tounicode_pdf()).expect("document should parse");
    let fonts = font_resources_from_document(&document);
    let maps = font_tounicode_maps(&document, &fonts).expect("the CMap should be readable");
    assert_eq!(maps.maps.len(), 1);
    assert_eq!(maps.maps[0].0, "F1");
    assert!(maps.diagnostics.is_empty());
}

#[test]
fn missing_tounicode_warnings_are_dropped_once_a_map_applied() {
    let diagnostics = vec![
        Diagnostic::warning("MISSING_TOUNICODE", "a"),
        Diagnostic::info("OTHER", "b"),
    ];
    let kept = retain_extraction_diagnostics(diagnostics.clone(), true);
    assert_eq!(kept.len(), 1);
    assert_eq!(kept[0].code, "OTHER");
    assert_eq!(retain_extraction_diagnostics(diagnostics, false).len(), 2);
}

#[test]
fn incremental_report_defaults_to_one_revision() {
    let report = incremental_update_report(None);
    assert!(!report.detected);
    assert_eq!(report.revision_count, 1);
    assert!(report.prior_startxref_offsets.is_empty());
    let document = PdfDocument::parse(&minimal_pdf("Hello")).expect("document should parse");
    assert_eq!(incremental_update_report(document.incremental_update.as_ref()).detected, document.incremental_update.is_some());
}

#[test]
fn multi_stream_page_joins_its_programs() {
    let pdf = "%PDF-1.7
1 0 obj
<< /Type /Catalog /Pages 2 0 R >>
endobj
2 0 obj
<< /Type /Pages /Kids [3 0 R] /Count 1 >>
endobj
3 0 obj
<< /Type /Page /Parent 2 0 R /Contents [4 0 R 5 0 R] >>
endobj
4 0 obj
<< /Length 33 >>
stream
BT /F1 12 Tf 72 720 Td (Hello) Tj
endstream
endobj
5 0 obj
<< /Length 14 >>
stream
(there) Tj ET
endstream
endobj
";
    let document = PdfDocument::parse(pdf.as_bytes()).expect("document should parse");
    let programs = page_programs(&document, default_resource_limits());
    assert_eq!(programs.len(), 1);
    assert_eq!(programs[0].0, 0);
    assert_eq!(shown_texts(&document), vec!["Hello".to_owned(), "there".to_owned()]);
}
