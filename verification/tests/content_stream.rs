use semantic_pdf_diff::content::{parse_content_stream, parse_content_stream_with_limits, tokenize, ContentOp, Token};
use semantic_pdf_diff::document::default_resource_limits;
use semantic_pdf_diff::types::DiagnosticSeverity;

fn number(text: &str) -> f32 {
    text.parse::<f32>().expect("numeric operand should parse")
}

#[test]
fn parses_basic_text_operators() {
    let program = parse_content_stream(b"BT /F1 12 Tf 72 720 Td (Hello) Tj ET");

    assert_eq!(program.diagnostics, Vec::new());
    assert_eq!(program.operations.len(), 5);
    assert!(matches!(program.operations[0], ContentOp::BeginText { .. }));
    assert!(matches!(
        program.operations[1],
        ContentOp::SetFont { ref name, ref size, .. } if name == "F1" && number(size) == 12.0
    ));
    assert!(matches!(
        program.operations[2],
        ContentOp::MoveTextPosition { ref tx, ref ty, sets_leading: false, .. }
            if number(tx) == 72.0 && number(ty) == 720.0
    ));
    assert!(matches!(
        program.operations[3],
        ContentOp::ShowText { ref text, ref raw_bytes, .. }
            if text == "Hello" && raw_bytes == b"Hello"
    ));
}

#[test]
fn parses_tj_array_text_and_adjustments() {
    let program = parse_content_stream(b"BT [(Hel) -120 <6c6f>] TJ ET");

    assert_eq!(program.diagnostics, Vec::new());
    assert!(matches!(
        program.operations[1],
        ContentOp::ShowAdjustedText {
            ref text,
            ref raw_bytes,
            ref adjustments,
            ..
        } if text == "Hello"
            && raw_bytes == b"Hello"
            && adjustments.iter().map(|a| number(a)).collect::<Vec<f32>>() == vec![-120.0]
    ));
}

#[test]
fn parses_text_state_and_graphics_state_operators() {
    let program = parse_content_stream(b"q 1 0 0 1 10 20 cm BT 14 TL T* 2 Tc 3 Tw 90 Tz ET Q");

    assert_eq!(program.diagnostics, Vec::new());
    assert!(matches!(program.operations[0], ContentOp::SaveGraphicsState { .. }));
    assert!(matches!(
        program.operations[1],
        ContentOp::ConcatMatrix { ref matrix, .. }
            if matrix.len() == 6 && number(&matrix[4]) == 10.0 && number(&matrix[5]) == 20.0
    ));
    assert!(matches!(
        program.operations[3],
        ContentOp::SetTextLeading { ref leading, .. } if number(leading) == 14.0
    ));
    assert!(matches!(program.operations[4], ContentOp::MoveToNextLine { .. }));
    assert!(matches!(
        program.operations[5],
        ContentOp::SetCharacterSpacing { ref spacing, .. } if number(spacing) == 2.0
    ));
    assert!(matches!(
        program.operations[6],
        ContentOp::SetWordSpacing { ref spacing, .. } if number(spacing) == 3.0
    ));
    assert!(matches!(
        program.operations[7],
        ContentOp::SetHorizontalScaling { ref scale, .. } if number(scale) == 90.0
    ));
    assert!(matches!(program.operations[9], ContentOp::RestoreGraphicsState { .. }));
}

#[test]
fn recognizes_common_non_text_drawing_operators_without_diagnostics() {
    let program = parse_content_stream(b"0.1 0.2 0.3 rg 10 20 30 40 re f /Im1 Do");

    assert_eq!(program.diagnostics, Vec::new());
    assert_eq!(program.operations.len(), 4);
    assert!(matches!(
        program.operations[0],
        ContentOp::RecognizedNonText { ref operator, .. } if operator == "rg"
    ));
    assert!(matches!(
        program.operations[1],
        ContentOp::RecognizedNonText { ref operator, .. } if operator == "re"
    ));
    assert!(matches!(
        program.operations[2],
        ContentOp::RecognizedNonText { ref operator, .. } if operator == "f"
    ));
    assert!(matches!(
        program.operations[3],
        ContentOp::RecognizedNonText { ref operator, .. } if operator == "Do"
    ));
}

#[test]
fn emits_diagnostic_for_unknown_operator() {
    let program = parse_content_stream(b"BT 1 2 XX ET");

    assert_eq!(program.diagnostics.len(), 1);
    assert_eq!(program.diagnostics[0].code, "CONTENT_OPERATOR_UNKNOWN");
    assert_eq!(program.diagnostics[0].severity, DiagnosticSeverity::Warning);
}

#[test]
fn tokenizer_advances_over_unmatched_delimiters() {
    let program = parse_content_stream(b") > ]");

    assert_eq!(program.operations.len(), 3);
    assert_eq!(program.diagnostics.len(), 3);
    assert!(matches!(
        program.operations[0],
        ContentOp::Unknown { ref operator, .. } if operator == ")"
    ));
    assert!(matches!(
        program.operations[1],
        ContentOp::Unknown { ref operator, .. } if operator == ">"
    ));
    assert!(matches!(
        program.operations[2],
        ContentOp::Unknown { ref operator, .. } if operator == "]"
    ));
}

#[test]
fn operations_carry_their_position_and_page() {
    let limits = default_resource_limits();
    let program = parse_content_stream_with_limits(b"BT ET", 3, None, limits);
    assert_eq!(program.operations.len(), 2);
    match &program.operations[1] {
        ContentOp::EndText { source } => {
            assert_eq!(source.page_index, Some(3));
            assert_eq!(source.content_op_index, Some(1));
        }
        other => panic!("unexpected operation {other:?}"),
    }
}

#[test]
fn operator_limit_stops_reading_with_an_error() {
    let mut limits = default_resource_limits();
    limits.max_content_ops_per_page = 2;
    let program = parse_content_stream_with_limits(b"q Q q Q", 0, None, limits);
    assert_eq!(program.operations.len(), 2);
    assert_eq!(program.diagnostics.len(), 1);
    assert_eq!(program.diagnostics[0].code, "RESOURCE_LIMIT_CONTENT_OPERATORS");
    assert_eq!(program.diagnostics[0].message, "content stream exceeds operator limit of 2");
    assert_eq!(program.diagnostics[0].severity, DiagnosticSeverity::Error);
}

#[test]
fn oversized_stream_is_not_read() {
    let mut limits = default_resource_limits();
    limits.max_stream_bytes = 4;
    let program = parse_content_stream_with_limits(b"BT ET", 0, None, limits);
    assert!(program.operations.is_empty());
    assert_eq!(program.diagnostics.len(), 1);
    assert_eq!(program.diagnostics[0].code, "RESOURCE_LIMIT_STREAM_BYTES");
    assert_eq!(program.diagnostics[0].message, "content stream has 5 bytes, limit is 4");
}

#[test]
fn operand_mismatch_is_kept_as_unknown() {
    let program = parse_content_stream(b"(x) Tf");
    assert_eq!(program.operations.len(), 1);
    assert!(matches!(
        program.operations[0],
        ContentOp::Unknown { ref operator, .. } if operator == "Tf"
    ));
    assert_eq!(program.diagnostics[0].message, "unsupported content operator Tf");
}

#[test]
fn tokenizer_reads_strings_names_and_numbers() {
    let tokens = tokenize(b"(a\\)b) <41 42> /N1 -1.5 Tj");
    assert_eq!(tokens.len(), 5);
    assert!(matches!(tokens[0], Token::LiteralString(ref b) if b == b"a)b"));
    assert!(matches!(tokens[1], Token::HexString(ref b) if b == b"AB"));
    assert!(matches!(tokens[2], Token::Name(ref n) if n == "N1"));
    assert!(matches!(tokens[4], Token::Operator(ref o) if o == "Tj"));
}
