use semantic_pdf_diff::bytes::find_last_keyword;
use semantic_pdf_diff::document::{PdfDocument, PdfVersion};
use semantic_pdf_diff::pages::{PdfNumber, PdfRect};
use semantic_pdf_diff::types::{DiagnosticSeverity, ObjectId, ParseConfig, PdfDiffError, ResourceLimits};
use semantic_pdf_diff::xref::locate_startxref;

fn minimal_pdf() -> &'static [u8] {
    b"%PDF-1.7
1 0 obj
<< /Type /Catalog /Pages 2 0 R >>
endobj
2 0 obj
<< /Type /Pages /Kids [3 0 R] /Count 1 >>
endobj
3 0 obj
<< /Type /Page /Parent 2 0 R /Contents 4 0 R >>
endobj
4 0 obj
<< /Length 38 >>
stream
BT /F1 12 Tf 72 720 Td (Hello) Tj ET
endstream
endobj
"
}

fn multi_content_stream_pdf() -> &'static [u8] {
    b"%PDF-1.7
1 0 obj
<< /Type /Catalog /Pages 2 0 R >>
endobj
2 0 obj
<< /Type /Pages /Kids [3 0 R] /Count 1 >>
endobj
3 0 obj
<< /Type /Page /Parent 2 0 R /Contents [4 0 R 5 0 R] >>
endobj
4 0 obj
<< /Length 35 >>
stream
BT /F1 12 Tf 72 720 Td (Hello) Tj
endstream
endobj
5 0 obj
<< /Length 13 >>
stream
( world) Tj ET
endstream
endobj
"
}

fn multi_page_pdf() -> &'static [u8] {
    b"%PDF-1.7
1 0 obj
<< /Type /Catalog /Pages 2 0 R >>
endobj
2 0 obj
<< /Type /Pages /Kids [3 0 R 5 0 R] /Count 2 >>
endobj
3 0 obj
<< /Type /Page /Parent 2 0 R /Contents 4 0 R >>
endobj
4 0 obj
<< /Length 43 >>
stream
BT /F1 12 Tf 72 720 Td (First page) Tj ET
endstream
endobj
5 0 obj
<< /Type /Page /Parent 2 0 R /Contents 6 0 R >>
endobj
6 0 obj
<< /Length 44 >>
stream
BT /F1 12 Tf 72 720 Td (Second page) Tj ET
endstream
endobj
"
}

fn nested_page_tree_pdf() -> &'static [u8] {
    b"%PDF-1.7
1 0 obj
<< /Type /Catalog /Pages 2 0 R >>
endobj
2 0 obj
<< /Type /Pages /Kids [7 0 R] /Count 2 /MediaBox [0 0 612 792] /Resources 8 0 R /Rotate 90 >>
endobj
3 0 obj
<< /Type /Page /Parent 7 0 R /Contents 4 0 R /Rotate 180 >>
endobj
4 0 obj
<< /Length 44 >>
stream
BT /F1 12 Tf 72 720 Td (Second page) Tj ET
endstream
endobj
5 0 obj
<< /Type /Page /Parent 7 0 R /Contents 6 0 R >>
endobj
6 0 obj
<< /Length 43 >>
stream
BT /F1 12 Tf 72 720 Td (First page) Tj ET
endstream
endobj
7 0 obj
<< /Type /Pages /Parent 2 0 R /Kids [5 0 R 3 0 R] /Count 2 /CropBox [10 20 300 400] >>
endobj
8 0 obj
<< /Font << /F1 9 0 R >> >>
endobj
9 0 obj
<< /Type /Font /Subtype /Type1 /BaseFont /Helvetica >>
endobj
"
}

struct ClassicXrefFixture {
    bytes: Vec<u8>,
    object_offsets: Vec<usize>,
    xref_offset: usize,
}

fn classic_xref_pdf() -> ClassicXrefFixture {
    classic_xref_pdf_with_objects(&[
        b"1 0 obj\n<< /Type /Catalog >>\nendobj\n".as_slice(),
        b"2 0 obj\n<< /Length 5 >>\nstream\nHello\nendstream\nendobj\n".as_slice(),
    ])
}

fn classic_xref_pdf_with_objects(objects: &[&[u8]]) -> ClassicXrefFixture {
    let mut bytes = b"%PDF-1.7\n".to_vec();
    let mut object_offsets = Vec::new();

    for object in objects {
        object_offsets.push(bytes.len());
        bytes.extend_from_slice(object);
    }

    let xref_offset = bytes.len();
    bytes.extend_from_slice(format!("xref\n0 {}\n", objects.len() + 1).as_bytes());
    bytes.extend_from_slice(b"0000000000 65535 f \n");
    for offset in &object_offsets {
        bytes.extend_from_slice(format!("{offset:010} 00000 n \n").as_bytes());
    }
    bytes.extend_from_slice(
        format!(
            "trailer\n<< /Size {} /Root 1 0 R >>\nstartxref\n{}\n%%EOF\n",
            objects.len() + 1,
            xref_offset
        )
        .as_bytes(),
    );

    ClassicXrefFixture {
        bytes,
        object_offsets,
        xref_offset,
    }
}

#[test]
fn parses_pdf_header() {
    let document = PdfDocument::parse(b"%PDF-1.7\n").expect("header should parse");
    assert_eq!(document.version, PdfVersion { major: 1, minor: 7 });
}

#[test]
fn rejects_non_pdf_header() {
    let error = PdfDocument::parse(b"not a pdf").expect_err("header should be rejected");
    assert!(matches!(error, PdfDiffError::UnsupportedPdf(_)));
}

#[test]
fn enforces_file_size_limit() {
    let config = ParseConfig {
        limits: ResourceLimits {
            max_file_bytes: 4,
            ..ResourceLimits::default()
        },
    };
    let error = PdfDocument::parse_with_config(b"%PDF-1.7\n", config).expect_err("limit should fail");
    assert!(matches!(error, PdfDiffError::ResourceLimitExceeded(_)));
}

#[test]
fn rejects_encrypted_pdf_with_stable_code() {
    let error = PdfDocument::parse(b"%PDF-1.7\n1 0 obj\n<< /Type /Catalog /Encrypt 2 0 R >>\nendobj\n")
        .expect_err("encrypted PDF should not be parsed");

    assert!(matches!(
        error,
        PdfDiffError::UnsupportedPdf(message) if message.contains("UNSUPPORTED_ENCRYPTION")
    ));
}

#[test]
fn xref_stream_object_is_not_reported_as_unsupported() {
    let pdf = b"%PDF-1.7
1 0 obj
<< /Type /XRef /Length 0 >>
stream

endstream
endobj
";
    let document = PdfDocument::parse(pdf).expect("xref stream fixture should parse partially");

    assert_eq!(document.diagnostics.len(), 0);
}

#[test]
fn reports_incremental_update_markers_and_selects_latest_startxref() {
    let mut bytes = classic_xref_pdf().bytes;
    let previous_xref_offset = locate_startxref(&bytes).expect("first xref should exist");
    let second_xref_offset = bytes.len();
    bytes.extend_from_slice(
        format!(
            "xref\n0 1\n0000000000 65535 f \ntrailer\n<< /Size 1 /Prev {previous_xref_offset} >>\nstartxref\n{second_xref_offset}\n%%EOF\n"
        )
        .as_bytes(),
    );

    let document = PdfDocument::parse(&bytes).expect("incremental fixture should recover by scanning objects");
    let incremental_update = document
        .incremental_update
        .as_ref()
        .expect("incremental metadata should be exposed");

    assert!(document.diagnostics.iter().any(|diagnostic| {
        diagnostic.code == "INCREMENTAL_UPDATE_DETECTED" && diagnostic.message.contains("latest revision")
    }));
    assert!(document
        .diagnostics
        .iter()
        .any(|diagnostic| diagnostic.code == "PRIOR_REVISION_PRESENT"));
    assert_eq!(incremental_update.revision_count, 2);
    assert_eq!(incremental_update.selected_startxref_offset, Some(second_xref_offset));
    assert_eq!(incremental_update.prior_startxref_offsets, vec![previous_xref_offset]);
    assert_eq!(incremental_update.trailer_prev_offsets, vec![previous_xref_offset]);
}

#[test]
fn reports_recovery_when_xref_is_damaged() {
    let mut bytes = classic_xref_pdf().bytes;
    let marker = find_last_keyword(&bytes, b"startxref").expect("startxref should exist");
    bytes[marker + b"startxref".len() + 1] = b'x';

    let document = PdfDocument::parse(&bytes).expect("object scan should recover fixture");

    assert!(document
        .diagnostics
        .iter()
        .any(|diagnostic| diagnostic.code == "XREF_RECOVERY_USED"));
    assert!(!document.objects.is_empty());
}

#[test]
fn resolves_first_page_content_stream() {
    let document = PdfDocument::parse(minimal_pdf()).expect("fixture should parse");
    let content = document.first_page_content().expect("page content should resolve");

    assert_eq!(content.page_index, 0);
    assert_eq!(
        content.stream_object_id,
        ObjectId {
            number: 4,
            generation: 0
        }
    );
    assert_eq!(content.bytes, b"BT /F1 12 Tf 72 720 Td (Hello) Tj ET");
}

#[test]
fn resolves_first_page_content_stream_array_in_order() {
    let document = PdfDocument::parse(multi_content_stream_pdf()).expect("fixture should parse");
    let contents = document.first_page_contents().expect("page content streams should resolve");

    assert_eq!(
        document.pages[0].content_object_ids,
        vec![
            ObjectId {
                number: 4,
                generation: 0
            },
            ObjectId {
                number: 5,
                generation: 0
            }
        ]
    );
    assert_eq!(contents.len(), 2);
    assert_eq!(contents[0].bytes, b"BT /F1 12 Tf 72 720 Td (Hello) Tj");
    assert_eq!(contents[1].bytes, b"( world) Tj ET");
}

#[test]
fn resolves_page_content_streams_across_all_pages() {
    let document = PdfDocument::parse(multi_page_pdf()).expect("fixture should parse");
    let contents = document.page_contents();

    assert_eq!(contents.len(), 2);
    assert_eq!(contents[0].page_index, 0);
    assert_eq!(contents[0].bytes, b"BT /F1 12 Tf 72 720 Td (First page) Tj ET");
    assert_eq!(contents[1].page_index, 1);
    assert_eq!(contents[1].bytes, b"BT /F1 12 Tf 72 720 Td (Second page) Tj ET");
}

#[test]
fn resolves_page_tree_order_and_inherited_page_attributes() {
    let document = PdfDocument::parse(nested_page_tree_pdf()).expect("fixture should parse");

    assert_eq!(document.pages.len(), 2);
    assert_eq!(
        document.pages[0].object_id,
        ObjectId {
            number: 5,
            generation: 0
        }
    );
    assert_eq!(
        document.pages[1].object_id,
        ObjectId {
            number: 3,
            generation: 0
        }
    );
    assert_eq!(
        document.pages[0].media_box,
        Some(PdfRect {
            x0: PdfNumber::Integer(0),
            y0: PdfNumber::Integer(0),
            x1: PdfNumber::Integer(612),
            y1: PdfNumber::Integer(792),
        })
    );
    assert_eq!(
        document.pages[0].crop_box,
        Some(PdfRect {
            x0: PdfNumber::Integer(10),
            y0: PdfNumber::Integer(20),
            x1: PdfNumber::Integer(300),
            y1: PdfNumber::Integer(400),
        })
    );
    assert_eq!(document.pages[0].rotation, 90);
    assert_eq!(document.pages[1].rotation, 180);
    assert_eq!(
        document.pages[0].resources_object_id,
        Some(ObjectId {
            number: 8,
            generation: 0
        })
    );
    assert!(document.pages[0].has_resources);
    assert_eq!(document.page_contents()[0].stream_object_id.number, 6);
    assert_eq!(document.page_contents()[1].stream_object_id.number, 4);
}

#[test]
fn emits_diagnostic_for_page_without_contents() {
    let pdf = b"%PDF-1.7
1 0 obj
<< /Type /Page >>
endobj
";
    let document = PdfDocument::parse(pdf).expect("fixture should parse partially");
    assert_eq!(document.pages, Vec::new());
    assert_eq!(document.diagnostics.len(), 1);
    assert_eq!(document.diagnostics[0].code, "MISSING_CONTENT_STREAM");
    assert_eq!(document.diagnostics[0].severity, DiagnosticSeverity::Warning);
}

#[test]
fn emits_diagnostic_for_unsupported_stream_filter() {
    let pdf = b"%PDF-1.7
1 0 obj
<< /Type /Page /Contents 2 0 R >>
endobj
2 0 obj
<< /Length 5 /Filter /DCTDecode >>
stream
abcde
endstream
endobj
";
    let document = PdfDocument::parse(pdf).expect("fixture should parse partially");

    assert!(document.diagnostics.iter().any(|diagnostic| diagnostic.code == "UNSUPPORTED_STREAM_FILTER"
        && diagnostic.object
            == Some(ObjectId {
                number: 2,
                generation: 0
            })));
}

#[test]
fn emits_diagnostic_when_flate_decode_fails() {
    let pdf = b"%PDF-1.7
1 0 obj
<< /Type /Page /Contents 2 0 R >>
endobj
2 0 obj
<< /Length 12 /Filter /FlateDecode >>
stream
not deflated
endstream
endobj
";
    let document = PdfDocument::parse(pdf).expect("fixture should parse partially");

    assert!(document.diagnostics.iter().any(|diagnostic| diagnostic.code == "STREAM_DECODE_FAILED"
        && diagnostic.object
            == Some(ObjectId {
                number: 2,
                generation: 0
            })));
}

#[test]
fn parses_binary_stream_bytes_without_text_offset_panic() {
    let mut pdf = b"%PDF-1.7
1 0 obj
<< /Type /Catalog /Pages 2 0 R >>
endobj
2 0 obj
<< /Type /Pages /Kids [3 0 R] /Count 1 >>
endobj
3 0 obj
<< /Type /Page /Parent 2 0 R /Contents 4 0 R >>
endobj
4 0 obj
<< /Length 5 >>
stream
"
    .to_vec();
    pdf.extend_from_slice(&[0xff, 0xfe, b'A', b'\r', b'\n']);
    pdf.extend_from_slice(
        b"
endstream
endobj
",
    );

    let document = PdfDocument::parse(&pdf).expect("binary stream fixture should parse without panic");
    let stream = document
        .objects
        .iter()
        .find(|object| {
            object.id
                == ObjectId {
                    number: 4,
                    generation: 0,
                }
        })
        .and_then(|object| object.stream.as_ref())
        .expect("content stream should be parsed");

    assert_eq!(stream.bytes, vec![0xff, 0xfe, b'A']);
    assert!(stream.byte_range.end <= pdf.len());
}

#[test]
fn classic_xref_file_parses_without_recovery() {
    let fixture = classic_xref_pdf();
    let document = PdfDocument::parse(&fixture.bytes).expect("classic xref file should parse");
    assert_eq!(document.objects.len(), 2);
    assert_eq!(document.objects[0].body, "<< /Type /Catalog >>");
    assert_eq!(document.objects[0].byte_range.start, fixture.object_offsets[0]);
    assert!(document.diagnostics.iter().all(|d| d.code != "XREF_RECOVERY_USED"));
    assert_eq!(locate_startxref(&fixture.bytes).ok(), Some(fixture.xref_offset));
}
