use semantic_pdf_diff::corpus::{
    build_corpus_gate_report, corpus_file_status, corpus_tally, exit_code_for_error,
    CorpusDiffPairStatus, CorpusFileStatus, CorpusThresholds,
};
use semantic_pdf_diff::synthetic::synthetic_text_pdf;
use semantic_pdf_diff::types::PdfDiffError;

fn strings(items: &[&str]) -> Vec<String> {
    items.iter().map(|s| s.to_string()).collect()
}

#[test]
fn exit_codes_follow_error_kind() {
    assert_eq!(
        exit_code_for_error(&PdfDiffError::UnsupportedPdf("UNSUPPORTED_ENCRYPTION: /Encrypt".into())),
        3
    );
    assert_eq!(exit_code_for_error(&PdfDiffError::UnsupportedPdf("other".into())), 2);
    assert_eq!(exit_code_for_error(&PdfDiffError::InternalInvariant("x".into())), 4);
    assert_eq!(exit_code_for_error(&PdfDiffError::InvalidInput("x".into())), 2);
    assert_eq!(exit_code_for_error(&PdfDiffError::ResourceLimitExceeded("x".into())), 2);
}

#[test]
fn file_status_and_tally() {
    assert_eq!(corpus_file_status(false, 0), CorpusFileStatus::Failed);
    assert_eq!(corpus_file_status(true, 0), CorpusFileStatus::Parsed);
    assert_eq!(corpus_file_status(true, 2), CorpusFileStatus::Partial);
    let t = corpus_tally(&[
        CorpusFileStatus::Parsed,
        CorpusFileStatus::Partial,
        CorpusFileStatus::Failed,
        CorpusFileStatus::Partial,
    ]);
    assert_eq!(t.total, 4);
    assert_eq!(t.parsed, 3);
    assert_eq!(t.partial, 2);
    assert_eq!(t.failed, 1);
}

#[test]
fn gate_passes_within_limits() {
    let thresholds = CorpusThresholds {
        min_parsed_files: Some(1),
        max_missing_required_files: 0,
        max_failed_files: 0,
        max_failed_diff_pairs: 0,
    };
    let report = build_corpus_gate_report(
        &"1".to_string(),
        &strings(&["a.pdf"]),
        thresholds,
        &strings(&["a.pdf", "b.pdf"]),
        2,
        0,
        &[CorpusDiffPairStatus::Diffed],
    );
    assert!(report.passed);
    assert!(report.failures.is_empty());
    assert!(report.missing_required_files.is_empty());
    assert_eq!(report.manifest_schema_version, "1");
}

#[test]
fn gate_reports_each_broken_limit_and_sorts_missing_files() {
    let thresholds = CorpusThresholds {
        min_parsed_files: Some(3),
        max_missing_required_files: 1,
        max_failed_files: 0,
        max_failed_diff_pairs: 0,
    };
    let report = build_corpus_gate_report(
        &"1".to_string(),
        &strings(&["z.pdf", "a.pdf", "m.pdf", "b.pdf"]),
        thresholds,
        &strings(&["m.pdf"]),
        1,
        2,
        &[CorpusDiffPairStatus::Failed, CorpusDiffPairStatus::Diffed],
    );
    assert!(!report.passed);
    assert_eq!(report.missing_required_files, strings(&["a.pdf", "b.pdf", "z.pdf"]));
    assert_eq!(
        report.failures,
        strings(&[
            "parsed file count 1 is below minimum 3",
            "missing required file count 3 exceeds maximum 1",
            "failed file count 2 exceeds maximum 0",
            "failed diff pair count 1 exceeds maximum 0",
        ])
    );
}

#[test]
fn synthetic_pdf_has_one_page_per_request() {
    let pdf = synthetic_text_pdf(2, Some((1, "changed")));
    let text = String::from_utf8(pdf).unwrap();
    assert!(text.starts_with("%PDF-1.7\n"));
    assert!(text.contains("/Kids [3 0 R 5 0 R] /Count 2"));
    assert!(text.contains("(Benchmark page 0 stable paragraph) Tj"));
    assert!(text.contains("(Benchmark page 1 stable paragraph changed) Tj"));
    assert!(text.contains("4 0 obj\n<< /Length 64 >>"));
    let single = String::from_utf8(synthetic_text_pdf(0, None)).unwrap();
    assert!(single.contains("/Count 1"));
}
