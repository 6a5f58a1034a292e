use semantic_pdf_diff::document::PdfDocument;
use semantic_pdf_diff::inspect::{inspect_counts, render_inspect_html, render_inspect_markdown, InspectCounts};

fn minimal_pdf() -> Vec<u8> {
    b"%PDF-1.7\n1 0 obj\n<< /Type /Catalog /Pages 2 0 R >>\nendobj\n2 0 obj\n<< /Type /Pages /Kids [3 0 R] /Count 1 >>\nendobj\n3 0 obj\n<< /Type /Page /Parent 2 0 R /Contents 4 0 R >>\nendobj\n4 0 obj\n<< /Length 37 >>\nstream\nBT /F1 12 Tf 72 720 Td (Hello) Tj ET\nendstream\nendobj\n".to_vec()
}

#[test]
fn inspect_markdown_reports_counts() {
    let document = PdfDocument::parse(&minimal_pdf()).expect("parses");
    let counts = inspect_counts(&document);
    assert_eq!(counts.object_count, 4);
    assert_eq!(counts.first_page_streams, 1);
    assert_eq!(counts.revision_count, 1);
    assert_eq!(counts.element_count, 0);
    let md = render_inspect_markdown("sample.pdf", counts);
    assert!(md.starts_with("# PDF Inspect\n\n- File: `sample.pdf`\n- Objects: 4\n"));
    assert!(md.contains("- First-page streams: 1\n- Incremental update: 1 revisions\n"));
    assert!(md.ends_with("- Tagged structure: 0 elements, 0 MCIDs\n"));
}

#[test]
fn inspect_html_escapes_file_name() {
    let counts = InspectCounts {
        object_count: 2,
        diagnostic_count: 1,
        first_page_streams: 0,
        revision_count: 3,
        element_count: 5,
        mcid_count: 6,
    };
    let html = render_inspect_html("a<b>&c.pdf", counts);
    assert!(html.starts_with("<!doctype html><meta charset=\"utf-8\"><pre># PDF Inspect"));
    assert!(html.contains("- File: `a&lt;b&gt;&amp;c.pdf`"));
    assert!(html.contains("- Incremental update: 3 revisions\n- Tagged structure: 5 elements, 6 MCIDs\n</pre>"));
}
