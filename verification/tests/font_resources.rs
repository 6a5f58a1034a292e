use semantic_pdf_diff::document::PdfDocument;
use semantic_pdf_diff::fonts::{font_resources_from_document, normalize_text};
use semantic_pdf_diff::types::ObjectId;

fn font_resource_pdf() -> Vec<u8> {
    "%PDF-1.7
1 0 obj
<< /Type /Catalog /Pages 2 0 R >>
endobj
2 0 obj
<< /Type /Pages /Kids [3 0 R] /Count 1 >>
endobj
3 0 obj
<< /Type /Page /Parent 2 0 R /Resources << /Font << /F1 5 0 R >> >> /Contents 4 0 R >>
endobj
4 0 obj
<< /Length 38 >>
stream
BT /F1 12 Tf 72 720 Td (Hello) Tj ET
endstream
endobj
5 0 obj
<< /Type /Font /Subtype /Type0 /BaseFont /CIDFont /Encoding /Identity-H /DescendantFonts [6 0 R] /ToUnicode 7 0 R >>
endobj
6 0 obj
<< /Type /Font /Subtype /CIDFontType2 /BaseFont /CIDFont >>
endobj
7 0 obj
<< /Length 0 >>
stream

endstream
endobj
"
    .as_bytes()
    .to_vec()
}

fn indirect_font_resource_pdf() -> Vec<u8> {
    "%PDF-1.7
1 0 obj
<< /Type /Catalog /Pages 2 0 R >>
endobj
2 0 obj
<< /Type /Pages /Kids [3 0 R] /Count 1 >>
endobj
3 0 obj
<< /Type /Page /Parent 2 0 R /Resources 8 0 R /Contents 4 0 R >>
endobj
4 0 obj
<< /Length 38 >>
stream
BT /FIndirect 12 Tf 72 720 Td (Hello) Tj ET
endstream
endobj
5 0 obj
<< /Type /Font /Subtype /Type0 /BaseFont /CIDFont /Encoding /Identity-H /DescendantFonts [6 0 R] /ToUnicode 7 0 R >>
endobj
6 0 obj
<< /Type /Font /Subtype /CIDFontType2 /BaseFont /CIDFont >>
endobj
7 0 obj
<< /Length 0 >>
stream

endstream
endobj
8 0 obj
<< /Font << /FIndirect 5 0 R >> >>
endobj
"
    .as_bytes()
    .to_vec()
}

fn missing_font_resource_pdf() -> Vec<u8> {
    "%PDF-1.7
1 0 obj
<< /Type /Catalog /Pages 2 0 R >>
endobj
2 0 obj
<< /Type /Pages /Kids [3 0 R] /Count 1 >>
endobj
3 0 obj
<< /Type /Page /Parent 2 0 R /Resources << /Font << /Missing 99 0 R >> >> /Contents 4 0 R >>
endobj
4 0 obj
<< /Length 38 >>
stream
BT /Missing 12 Tf 72 720 Td (Hello) Tj ET
endstream
endobj
"
    .as_bytes()
    .to_vec()
}

#[test]
fn builds_font_resource_model_from_page_resources() {
    let document = PdfDocument::parse(font_resource_pdf().as_slice()).expect("font resource fixture should parse");
    let resources = font_resources_from_document(&document);
    let font = resources.fonts.get("F1").expect("F1 should resolve");

    assert!(resources.diagnostics.is_empty());
    assert_eq!(font.resource_name, "F1");
    assert_eq!(
        font.object_id,
        ObjectId {
            number: 5,
            generation: 0
        }
    );
    assert_eq!(font.subtype.as_deref(), Some("Type0"));
    assert_eq!(font.base_font.as_deref(), Some("CIDFont"));
    assert_eq!(font.encoding.as_deref(), Some("/Identity-H"));
    assert_eq!(
        font.to_unicode,
        Some(ObjectId {
            number: 7,
            generation: 0
        })
    );
    assert_eq!(
        font.descendant_font_object_ids,
        vec![ObjectId {
            number: 6,
            generation: 0
        }]
    );
    assert_eq!(font.descendant_subtypes, vec!["CIDFontType2".to_owned()]);
    assert!(font.is_cid_or_type0());
}

#[test]
fn builds_font_resource_model_from_indirect_resource_dictionary() {
    let document = PdfDocument::parse(indirect_font_resource_pdf().as_slice())
        .expect("indirect font resource fixture should parse");
    let resources = font_resources_from_document(&document);

    assert!(resources.diagnostics.is_empty());
    assert_eq!(
        resources.fonts.get("FIndirect").expect("FIndirect should resolve").to_unicode,
        Some(ObjectId {
            number: 7,
            generation: 0
        })
    );
}

#[test]
fn font_resource_model_reports_missing_font_objects() {
    let document = PdfDocument::parse(missing_font_resource_pdf().as_slice()).expect("missing-font fixture should parse");
    let resources = font_resources_from_document(&document);

    assert!(resources.fonts.is_empty());
    assert!(resources.diagnostics.iter().any(|diagnostic| diagnostic.code == "MISSING_FONT_RESOURCE"));
}

#[test]
fn missing_font_reference_is_reported_once_with_its_name_and_number() {
    let document = PdfDocument::parse(missing_font_resource_pdf().as_slice()).expect("missing-font fixture should parse");
    let resources = font_resources_from_document(&document);
    assert_eq!(resources.diagnostics.len(), 1);
    assert_eq!(resources.diagnostics[0].message, "font resource /Missing points to missing object 99");
    assert_eq!(resources.fonts.len(), 0);
}

#[test]
fn font_reference_to_non_font_object_is_reported() {
    let text = "%PDF-1.7
1 0 obj
<< /Type /Catalog /Pages 2 0 R >>
endobj
2 0 obj
<< /Type /Pages /Kids [3 0 R] /Count 1 >>
endobj
3 0 obj
<< /Type /Page /Parent 2 0 R /Resources << /Font << /F2 4 0 R /F2 4 0 R >> >> /Contents 4 0 R >>
endobj
4 0 obj
<< /Length 5 >>
stream
Hello
endstream
endobj
";
    let document = PdfDocument::parse(text.as_bytes()).expect("fixture should parse");
    let resources = font_resources_from_document(&document);
    assert!(resources.fonts.is_empty());
    assert_eq!(resources.diagnostics.len(), 1);
    assert_eq!(resources.diagnostics[0].code, "FONT_RESOURCE_NOT_FONT");
    assert_eq!(resources.diagnostics[0].message, "font resource /F2 points to non-font object 4");
}

#[test]
fn simple_font_is_not_composite() {
    let text = "%PDF-1.7
1 0 obj
<< /Type /Catalog /Pages 2 0 R >>
endobj
2 0 obj
<< /Type /Pages /Kids [3 0 R] /Count 1 >>
endobj
3 0 obj
<< /Type /Page /Parent 2 0 R /Resources << /Font << /F1 5 0 R >> >> >>
endobj
5 0 obj
<< /Type /Font /Subtype /Type1 /BaseFont /Helvetica /Encoding /WinAnsiEncoding >>
endobj
";
    let document = PdfDocument::parse(text.as_bytes()).expect("fixture should parse");
    let resources = font_resources_from_document(&document);
    let font = resources.fonts.get("F1").expect("F1 should resolve");
    assert_eq!(font.subtype.as_deref(), Some("Type1"));
    assert_eq!(font.base_font.as_deref(), Some("Helvetica"));
    assert_eq!(font.encoding.as_deref(), Some("/WinAnsiEncoding"));
    assert_eq!(font.to_unicode, None);
    assert!(font.descendant_font_object_ids.is_empty());
    assert!(!font.is_cid_or_type0());
}

#[test]
fn normalize_text_collapses_whitespace() {
    assert_eq!(normalize_text("  Hello \t\n  world  "), "Hello world");
    assert_eq!(normalize_text(""), "");
    assert_eq!(normalize_text("a\u{00A0}b\u{3000}c"), "a b c");
}
