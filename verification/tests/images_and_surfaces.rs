use semantic_pdf_diff::document::PdfDocument;
use semantic_pdf_diff::image::{
    decode_image_samples, image_payloads, ocr_image_from_object, ocr_images, ocr_step, paeth_predictor,
    soft_mask_object_ids, stable_hash, OcrAction, OcrOutcome,
};
use semantic_pdf_diff::surfaces::{
    document_surfaces, image_payload_changes, pad4, summarize_surface, surface_changes, surface_matches_category,
    SurfaceCategory,
};
use semantic_pdf_diff::types::{ChangeKind, DiagnosticSeverity, FileRole, ObjectId};

fn image_payload_pdf(payload: &[u8]) -> Vec<u8> {
    let payload_text = String::from_utf8_lossy(payload);
    "%PDF-1.7
1 0 obj
<< /Type /Catalog /Pages 2 0 R >>
endobj
2 0 obj
<< /Type /Pages /Kids [3 0 R] /Count 1 >>
endobj
3 0 obj
<< /Type /Page /Parent 2 0 R /Resources << /XObject << /Im1 5 0 R >> >> /Contents 4 0 R >>
endobj
4 0 obj
<< /Length 21 >>
stream
q 10 0 0 10 0 0 cm /Im1 Do Q
endstream
endobj
5 0 obj
<< /Type /XObject /Subtype /Image /Width 1 /Height 1 /ColorSpace /DeviceGray /BitsPerComponent 8 /Length 1 >>
stream
x
endstream
endobj
"
    .replace("stream\nx\nendstream", &format!("stream\n{payload_text}\nendstream"))
    .into_bytes()
}

fn annotated_pdf(uri: &str) -> Vec<u8> {
    format!(
        "%PDF-1.7
1 0 obj
<< /Type /Catalog /Pages 2 0 R >>
endobj
2 0 obj
<< /Type /Pages /Kids [3 0 R] /Count 1 >>
endobj
3 0 obj
<< /Type /Page /Parent 2 0 R /Annots [5 0 R] >>
endobj
5 0 obj
<< /Type /Annot /Subtype /Link /URI ({uri}) >>
endobj
"
    )
    .into_bytes()
}

fn chars(text: &str) -> Vec<char> {
    text.chars().collect()
}

#[test]
fn reports_image_payload_changes() {
    let old = PdfDocument::parse(&image_payload_pdf(b"x")).expect("old document should parse");
    let new = PdfDocument::parse(&image_payload_pdf(b"y")).expect("new document should parse");
    let changes = image_payload_changes(&old, &new);
    assert!(changes
        .iter()
        .any(|change| change.kind == ChangeKind::ObjectChanged && change.reason.contains("image payload differs")));
    assert!(image_payload_changes(&old, &old).is_empty());
}

#[test]
fn fnv_fingerprints_are_sixteen_hex_digits() {
    assert_eq!(stable_hash(b""), "cbf29ce484222325");
    assert_eq!(stable_hash(b"a"), "af63dc4c8601ec8c");
}

#[test]
fn paeth_picks_the_nearest_neighbour() {
    assert_eq!(paeth_predictor(10, 20, 5), 20);
    assert_eq!(paeth_predictor(1, 2, 3), 1);
    assert_eq!(paeth_predictor(5, 5, 5), 5);
    assert_eq!(paeth_predictor(0, 100, 90), 0);
}

#[test]
fn raw_samples_are_cut_to_the_image_size() {
    assert_eq!(decode_image_samples(&[1, 2, 3, 4], 2, 1, 1, 1), Ok(vec![1, 2]));
    assert_eq!(
        decode_image_samples(&[1, 2, 3], 2, 2, 1, 1),
        Err("decoded stream has 3 bytes but expected at least 4".to_owned())
    );
}

#[test]
fn png_rows_are_unfiltered() {
    assert_eq!(decode_image_samples(&[1, 10, 5, 5], 3, 1, 1, 10), Ok(vec![10, 15, 20]));
    assert_eq!(decode_image_samples(&[0, 1, 2, 2, 3, 4], 2, 2, 1, 12), Ok(vec![1, 2, 4, 6]));
    assert_eq!(decode_image_samples(&[0, 4, 8, 3, 2, 2], 2, 2, 1, 15), Ok(vec![4, 8, 4, 8]));
    assert_eq!(decode_image_samples(&[0, 10, 20, 4, 0, 0], 2, 2, 1, 15), Ok(vec![10, 20, 10, 20]));
    assert_eq!(decode_image_samples(&[0, 250, 2, 10], 3, 1, 1, 10), Ok(vec![250, 2, 10]));
    assert_eq!(decode_image_samples(&[1, 250, 10], 2, 1, 1, 11), Ok(vec![250, 4]));
}

#[test]
fn unreadable_images_name_the_reason() {
    assert_eq!(decode_image_samples(&[0, 0], 1, 1, 1, 2), Err("Predictor 2 is not supported".to_owned()));
    assert_eq!(
        decode_image_samples(&[7, 1, 7, 1], 1, 2, 1, 10),
        Err("PNG row filter 7 is not supported".to_owned())
    );
    assert_eq!(
        decode_image_samples(&[0, 1], 1, 2, 1, 10),
        Err("decoded stream has 2 bytes but expected at least 4".to_owned())
    );
    assert_eq!(decode_image_samples(&[], usize::MAX, 2, 2, 1), Err("image row size overflowed".to_owned()));
    assert_eq!(decode_image_samples(&[], usize::MAX, 2, 1, 1), Err("image size overflowed".to_owned()));
}

#[test]
fn gray_images_are_read_for_ocr_as_rgb() {
    let document = PdfDocument::parse(&image_payload_pdf(b"x")).expect("document should parse");
    let image_object = document
        .objects
        .iter()
        .find(|object| object.id == ObjectId { number: 5, generation: 0 })
        .expect("image object");
    let image = ocr_image_from_object(0, image_object).expect("readable").expect("an image");
    assert_eq!(image.width, 1);
    assert_eq!(image.height, 1);
    assert_eq!(image.pixels_rgb, vec![b'x', b'x', b'x']);
    assert_eq!(image.hash, stable_hash(&[b'x', b'x', b'x']));
    let mut diagnostics = Vec::new();
    let images = ocr_images(&document, &mut diagnostics);
    assert_eq!(images.len(), 1);
    assert!(diagnostics.is_empty());
    assert!(soft_mask_object_ids(&document).is_empty());
}

#[test]
fn unsupported_color_spaces_are_reported() {
    let pdf = String::from_utf8(image_payload_pdf(b"x")).unwrap().replace("/DeviceGray", "/DeviceCMYK");
    let document = PdfDocument::parse(pdf.as_bytes()).expect("document should parse");
    let mut diagnostics = Vec::new();
    let images = ocr_images(&document, &mut diagnostics);
    assert!(images.is_empty());
    assert_eq!(diagnostics.len(), 1);
    assert_eq!(diagnostics[0].code, "OCR_IMAGE_UNSUPPORTED");
    assert_eq!(
        diagnostics[0].message,
        "image XObject 5 0 R is not supported for OCR extraction: ColorSpace /DeviceCMYK is not supported"
    );
}

#[test]
fn image_payloads_list_images_in_order() {
    let document = PdfDocument::parse(&image_payload_pdf(b"x")).expect("document should parse");
    let payloads = image_payloads(&document);
    assert_eq!(payloads.len(), 1);
    assert_eq!(payloads[0].index, 0);
    assert_eq!(payloads[0].object_id, ObjectId { number: 5, generation: 0 });
    assert_eq!(payloads[0].byte_len, 1);
    assert_eq!(payloads[0].hash, stable_hash(b"x"));
}

#[test]
fn ocr_outcomes_lead_to_runs_stops_and_warnings() {
    let id = ObjectId { number: 9, generation: 0 };
    match ocr_step(id, &OcrOutcome::Text("  Scanned \n text ".to_owned())) {
        OcrAction::Accept { text, diagnostic } => {
            assert_eq!(text, "Scanned text");
            assert_eq!(diagnostic.code, "OCR_TEXT_EXTRACTED");
            assert_eq!(diagnostic.message, "extracted OCR text from image XObject 9 0 R");
            assert_eq!(diagnostic.severity, DiagnosticSeverity::Info);
        }
        other => panic!("unexpected {other:?}"),
    }
    assert_eq!(ocr_step(id, &OcrOutcome::Text(" \n".to_owned())), OcrAction::Skip);
    assert_eq!(ocr_step(id, &OcrOutcome::EngineMissing), OcrAction::Stop);
    match ocr_step(id, &OcrOutcome::Failed("boom".to_owned())) {
        OcrAction::Warn(d) => {
            assert_eq!(d.code, "OCR_ENGINE_FAILED");
            assert_eq!(d.message, "OCR engine failed for image XObject 9 0 R: boom");
        }
        other => panic!("unexpected {other:?}"),
    }
}

#[test]
fn surfaces_are_found_and_summarized() {
    let body = chars("<< /Type /Annot /Subtype /Link /URI (http://a.example) >>");
    assert!(surface_matches_category(&body, SurfaceCategory::Annotation));
    assert!(!surface_matches_category(&body, SurfaceCategory::FormField));
    assert_eq!(
        summarize_surface(&body, SurfaceCategory::Annotation),
        "annotation/link surface Subtype=Link URI=http://a.example T=ype"
    );
    let widget = chars("<< /Type /Annot /Subtype /Widget /T (name) /V (x) >>");
    assert!(!surface_matches_category(&widget, SurfaceCategory::Annotation));
    assert!(surface_matches_category(&widget, SurfaceCategory::FormField));
    assert_eq!(summarize_surface(&widget, SurfaceCategory::FormField), "form field surface Subtype=Widget T=ype V=x");
}

#[test]
fn surface_changes_compare_position_by_position() {
    let old = PdfDocument::parse(&annotated_pdf("http://a.example")).expect("old document should parse");
    let new = PdfDocument::parse(&annotated_pdf("http://b.example")).expect("new document should parse");
    let surfaces = document_surfaces(&old, SurfaceCategory::Annotation);
    assert_eq!(surfaces.len(), 1);
    assert_eq!(surfaces[0].object_id, ObjectId { number: 5, generation: 0 });
    let changes = surface_changes(&old, &new);
    assert_eq!(changes.len(), 1);
    let change = &changes[0];
    assert_eq!(change.kind, ChangeKind::AnnotationChanged);
    assert_eq!(change.reason, "annotation/link surface differs at index 0");
    let old_node = change.old_node.as_ref().expect("old evidence");
    assert_eq!(old_node.node_id, "annotation-0000");
    assert_eq!(old_node.source[0].file_role, Some(FileRole::Old));
    assert!(old_node.text.as_deref().unwrap().starts_with("annotation/link surface object 5 0 R hash="));
    assert!(surface_changes(&old, &old).is_empty());
}

#[test]
fn indexes_are_padded_to_four_digits() {
    assert_eq!(pad4(0), "0000");
    assert_eq!(pad4(42), "0042");
    assert_eq!(pad4(12345), "12345");
}
