use semantic_pdf_diff::content::parse_content_stream;
use semantic_pdf_diff::runs::plan_text_runs;
use semantic_pdf_diff::types::DiagnosticSeverity;

#[test]
fn plans_one_run_per_text_operation() {
    let program = parse_content_stream(b"BT /F1 12 Tf 72 720 Td (Hello) Tj [(Wor) -20 (ld)] TJ ET");
    // The parsed operations name page 0 as their source, which wins over
    // the page passed in.
    let plan = plan_text_runs(&program, 3);
    assert_eq!(plan.runs.len(), 2);
    assert_eq!(plan.runs[0].id, "p0.r0000");
    assert_eq!(plan.runs[0].glyph_id, "p0.g0000");
    assert_eq!(plan.runs[0].text, "Hello");
    assert_eq!(plan.runs[0].raw_bytes, b"Hello");
    assert_eq!(plan.runs[1].id, "p0.r0001");
    assert_eq!(plan.runs[1].text, "World");
    assert!(plan.runs.iter().all(|r| r.marked_content.is_none() && r.page_index == 0));
    let missing: Vec<_> = plan.diagnostics.iter().filter(|d| d.code == "MISSING_TOUNICODE").collect();
    assert_eq!(missing.len(), 1);
    assert_eq!(missing[0].severity, DiagnosticSeverity::Warning);
    assert_eq!(missing[0].page_index, Some(0));
}

#[test]
fn page_without_text_plans_no_runs() {
    let program = parse_content_stream(b"q 10 20 30 40 re f Q");
    let plan = plan_text_runs(&program, 0);
    assert!(plan.runs.is_empty());
    assert!(plan.diagnostics.iter().all(|d| d.code != "MISSING_TOUNICODE"));
    assert_eq!(plan.diagnostics.len(), program.diagnostics.len());
}
