use semantic_pdf_diff::object::{parse_indirect_object, EmbeddedObjectSource};
use semantic_pdf_diff::primitive::{parse_primitive, PdfPrimitive};
use semantic_pdf_diff::store::parse_object_store;
use semantic_pdf_diff::types::{ByteRange, ObjectId, ParseConfig, PdfDiffError, ResourceLimits};
use semantic_pdf_diff::xref::{parse_xref_table, XrefEntryKind};
use std::io::Write;

struct ClassicXrefFixture {
    bytes: Vec<u8>,
    object_offsets: Vec<usize>,
    xref_offset: usize,
}

fn classic_xref_pdf() -> ClassicXrefFixture {
    classic_xref_pdf_with_objects(&[
        b"1 0 obj\n<< /Type /Catalog >>\nendobj\n".as_slice(),
        b"2 0 obj\n<< /Length 5 >>\nstream\nHello\nendstream\nendobj\n".as_slice(),
    ])
}

fn recursive_reference_pdf() -> Vec<u8> {
    classic_xref_pdf_with_objects(&[
        b"1 0 obj\n2 0 R\nendobj\n".as_slice(),
        b"2 0 obj\n1 0 R\nendobj\n".as_slice(),
    ])
    .bytes
}

fn reference_chain_pdf() -> Vec<u8> {
    classic_xref_pdf_with_objects(&[
        b"1 0 obj\n2 0 R\nendobj\n".as_slice(),
        b"2 0 obj\n3 0 R\nendobj\n".as_slice(),
        b"3 0 obj\n<< /Type /Catalog >>\nendobj\n".as_slice(),
    ])
    .bytes
}

fn classic_xref_pdf_with_objects(objects: &[&[u8]]) -> ClassicXrefFixture {
    let mut bytes = b"%PDF-1.7\n".to_vec();
    let mut object_offsets = Vec::new();
    for object in objects {
        object_offsets.push(bytes.len());
        bytes.extend_from_slice(object);
    }
    let xref_offset = bytes.len();
    bytes.extend_from_slice(format!("xref\n0 {}\n", objects.len() + 1).as_bytes());
    bytes.extend_from_slice(b"0000000000 65535 f \n");
    for offset in &object_offsets {
        bytes.extend_from_slice(format!("{offset:010} 00000 n \n").as_bytes());
    }
    bytes.extend_from_slice(
        format!(
            "trailer\n<< /Size {} /Root 1 0 R >>\nstartxref\n{}\n%%EOF\n",
            objects.len() + 1,
            xref_offset
        )
        .as_bytes(),
    );
    ClassicXrefFixture { bytes, object_offsets, xref_offset }
}

fn push_xref_stream_entry(entries: &mut Vec<u8>, kind: u8, field_2: usize, field_3: usize) {
    entries.push(kind);
    entries.extend_from_slice(&(field_2 as u32).to_be_bytes());
    entries.extend_from_slice(&(field_3 as u16).to_be_bytes());
}

fn flate_bytes(bytes: &[u8]) -> Vec<u8> {
    let mut encoder = flate2::write::ZlibEncoder::new(Vec::new(), flate2::Compression::default());
    encoder.write_all(bytes).expect("fixture should compress");
    encoder.finish().expect("fixture should finish")
}

fn ascii_hex_bytes(bytes: &[u8]) -> Vec<u8> {
    let mut out = String::new();
    for byte in bytes {
        out.push_str(&format!("{byte:02X}"));
    }
    out.push('>');
    out.into_bytes()
}

fn stream_object_with_filter(stream_bytes: &[u8], filter: &str) -> Vec<u8> {
    let mut object =
        format!("9 0 obj\n<< /Length {} /Filter {filter} >>\nstream\n", stream_bytes.len()).into_bytes();
    object.extend_from_slice(stream_bytes);
    object.extend_from_slice(b"\nendstream\nendobj");
    object
}

fn xref_stream_pdf(include_compressed_entry: bool) -> ClassicXrefFixture {
    let mut bytes = b"%PDF-1.7\n".to_vec();
    let mut object_offsets = Vec::new();
    object_offsets.push(bytes.len());
    bytes.extend_from_slice(b"1 0 obj\n<< /Type /Catalog >>\nendobj\n");
    object_offsets.push(bytes.len());
    bytes.extend_from_slice(b"2 0 obj\n<< /Length 5 >>\nstream\nHello\nendstream\nendobj\n");
    let mut xref_data = Vec::new();
    push_xref_stream_entry(&mut xref_data, 0, 0, 65_535);
    push_xref_stream_entry(&mut xref_data, 1, object_offsets[0], 0);
    push_xref_stream_entry(&mut xref_data, 1, object_offsets[1], 0);
    if include_compressed_entry {
        push_xref_stream_entry(&mut xref_data, 2, 2, 7);
    } else {
        push_xref_stream_entry(&mut xref_data, 0, 0, 0);
    }
    let compressed = flate_bytes(&xref_data);
    let xref_offset = bytes.len();
    bytes.extend_from_slice(
        format!(
            "4 0 obj\n<< /Type /XRef /Size 4 /Root 1 0 R /W [1 4 2] /Index [0 4] /Length {} /Filter /FlateDecode >>\nstream\n",
            compressed.len()
        )
        .as_bytes(),
    );
    bytes.extend_from_slice(&compressed);
    bytes.extend_from_slice(format!("\nendstream\nendobj\nstartxref\n{xref_offset}\n%%EOF\n").as_bytes());
    ClassicXrefFixture { bytes, object_offsets, xref_offset }
}

fn object_stream_pdf(malformed: bool) -> ClassicXrefFixture {
    let mut bytes = b"%PDF-1.7\n".to_vec();
    let mut object_offsets = Vec::new();
    object_offsets.push(bytes.len());
    bytes.extend_from_slice(b"1 0 obj\n<< /Type /Catalog /Page 5 0 R >>\nendobj\n");
    let embedded_body = b"<< /Type /Page >>";
    let object_stream_header = if malformed { "5 0" } else { "5 0 " };
    let object_count = if malformed { 2 } else { 1 };
    let first = object_stream_header.len();
    object_offsets.push(bytes.len());
    bytes.extend_from_slice(
        format!(
            "2 0 obj\n<< /Type /ObjStm /N {object_count} /First {first} /Length {} >>\nstream\n",
            first + embedded_body.len()
        )
        .as_bytes(),
    );
    bytes.extend_from_slice(object_stream_header.as_bytes());
    bytes.extend_from_slice(embedded_body);
    bytes.extend_from_slice(b"\nendstream\nendobj\n");
    let xref_offset = bytes.len();
    let mut xref_data = Vec::new();
    push_xref_stream_entry(&mut xref_data, 0, 0, 65_535);
    push_xref_stream_entry(&mut xref_data, 1, object_offsets[0], 0);
    push_xref_stream_entry(&mut xref_data, 1, object_offsets[1], 0);
    push_xref_stream_entry(&mut xref_data, 0, 0, 0);
    push_xref_stream_entry(&mut xref_data, 1, xref_offset, 0);
    push_xref_stream_entry(&mut xref_data, 2, 2, 0);
    let compressed = flate_bytes(&xref_data);
    bytes.extend_from_slice(
        format!(
            "4 0 obj\n<< /Type /XRef /Size 6 /Root 1 0 R /W [1 4 2] /Index [0 6] /Length {} /Filter /FlateDecode >>\nstream\n",
            compressed.len()
        )
        .as_bytes(),
    );
    bytes.extend_from_slice(&compressed);
    bytes.extend_from_slice(format!("\nendstream\nendobj\nstartxref\n{xref_offset}\n%%EOF\n").as_bytes());
    ClassicXrefFixture { bytes, object_offsets, xref_offset }
}

fn malformed_xref_stream_pdf() -> Vec<u8> {
    let mut bytes = b"%PDF-1.7\n".to_vec();
    let xref_offset = bytes.len();
    bytes.extend_from_slice(
        format!(
            "1 0 obj\n<< /Type /XRef /Size 1 /Length 0 >>\nstream\n\nendstream\nendobj\nstartxref\n{xref_offset}\n%%EOF\n"
        )
        .as_bytes(),
    );
    bytes
}

fn dictionary_entry<'a>(value: &'a PdfPrimitive, key: &str) -> Option<&'a PdfPrimitive> {
    let PdfPrimitive::Dictionary(entries) = value else {
        return None;
    };
    entries.iter().find(|(entry_key, _)| entry_key.as_slice() == key.as_bytes()).map(|(_, v)| v)
}

fn is_name(value: &PdfPrimitive, name: &str) -> bool {
    matches!(value, PdfPrimitive::Name(n) if n.as_slice() == name.as_bytes())
}

fn id(number: u32) -> ObjectId {
    ObjectId { number, generation: 0 }
}

fn limits_with(f: impl FnOnce(&mut ResourceLimits)) -> ParseConfig {
    let mut limits = ResourceLimits::default();
    f(&mut limits);
    ParseConfig { limits }
}

#[test]
fn object_count_limit_error_has_stable_code() {
    let fixture = classic_xref_pdf();
    let config = limits_with(|l| l.max_objects = 1);
    let error = parse_xref_table(&fixture.bytes, config).expect_err("limit should fail");
    assert!(matches!(
        error,
        PdfDiffError::ResourceLimitExceeded(message) if message.contains("RESOURCE_LIMIT_OBJECT_COUNT")
    ));
}

#[test]
fn parses_primitive_scalars() {
    assert!(matches!(
        parse_primitive(b" true ", ParseConfig::default()).expect("boolean should parse").value,
        PdfPrimitive::Boolean(true)
    ));
    assert!(matches!(
        parse_primitive(b"null", ParseConfig::default()).expect("null should parse").value,
        PdfPrimitive::Null
    ));
    assert!(matches!(
        parse_primitive(b"-42", ParseConfig::default()).expect("integer should parse").value,
        PdfPrimitive::Integer(-42)
    ));
    let real = parse_primitive(b"3.25", ParseConfig::default()).expect("real should parse").value;
    let PdfPrimitive::Real(token) = real else { panic!("expected real") };
    let value: f64 = std::str::from_utf8(&token).unwrap().parse().unwrap();
    assert!(value == 3.25);
}

#[test]
fn skips_comments_and_preserves_primitive_byte_range() {
    let parsed = parse_primitive(b"  % comment\n/Name", ParseConfig::default()).expect("name should parse");
    assert!(is_name(&parsed.value, "Name"));
    assert_eq!(parsed.byte_range, ByteRange::new(12, 17));
}

#[test]
fn parses_names_with_hex_escapes() {
    let parsed = parse_primitive(b"/A#20Name", ParseConfig::default()).expect("name should parse");
    assert!(is_name(&parsed.value, "A Name"));
}

#[test]
fn parses_literal_and_hex_strings() {
    let literal = parse_primitive(br"(Hello \(PDF\)\n)", ParseConfig::default())
        .expect("literal string should parse")
        .value;
    assert!(matches!(literal, PdfPrimitive::LiteralString(b) if b == b"Hello (PDF)\n".to_vec()));
    let hex = parse_primitive(b"<48656c6c6f2>", ParseConfig::default()).expect("hex string should parse").value;
    assert!(matches!(hex, PdfPrimitive::HexString(b) if b == vec![b'H', b'e', b'l', b'l', b'o', 0x20]));
}

#[test]
fn parses_arrays_dictionaries_and_references() {
    let parsed = parse_primitive(b"<< /Type /Page /Count 1 /Kids [3 0 R] >>", ParseConfig::default())
        .expect("dictionary should parse");
    let PdfPrimitive::Dictionary(entries) = parsed.value else {
        panic!("expected dictionary");
    };
    assert_eq!(entries[0].0, b"Type".to_vec());
    assert!(is_name(&entries[0].1, "Page"));
    assert_eq!(entries[1].0, b"Count".to_vec());
    assert!(matches!(entries[1].1, PdfPrimitive::Integer(1)));
    assert_eq!(entries[2].0, b"Kids".to_vec());
    let PdfPrimitive::Array(items) = &entries[2].1 else { panic!("expected array") };
    assert_eq!(items.len(), 1);
    assert!(matches!(items[0], PdfPrimitive::Reference(r) if r == id(3)));
}

#[test]
fn rejects_malformed_primitives_without_panic() {
    assert!(matches!(parse_primitive(b"(unterminated", ParseConfig::default()), Err(PdfDiffError::InvalidInput(_))));
    assert!(matches!(parse_primitive(b"<< /Name >>", ParseConfig::default()), Err(PdfDiffError::InvalidInput(_))));
    assert!(matches!(parse_primitive(b"<zz>", ParseConfig::default()), Err(PdfDiffError::InvalidInput(_))));
}

#[test]
fn enforces_primitive_nesting_limit() {
    let config = limits_with(|l| l.max_indirect_depth = 1);
    assert!(matches!(
        parse_primitive(b"[[1]]", config),
        Err(PdfDiffError::ResourceLimitExceeded(message)) if message.contains("RESOURCE_LIMIT_RECURSION_DEPTH")
    ));
}

#[test]
fn parses_indirect_object_with_dictionary() {
    let parsed = parse_indirect_object(b"7 0 obj\n<< /Type /Page /Contents 8 0 R >>\nendobj\n", ParseConfig::default())
        .expect("indirect object should parse");
    assert_eq!(parsed.id, id(7));
    assert_eq!(parsed.byte_range, ByteRange::new(0, 48));
    assert_eq!(parsed.value_byte_range, ByteRange::new(8, 41));
    let PdfPrimitive::Dictionary(entries) = &parsed.value else {
        panic!("expected dictionary object");
    };
    assert_eq!(entries[1].0, b"Contents".to_vec());
    assert!(matches!(entries[1].1, PdfPrimitive::Reference(r) if r == id(8)));
    assert!(parsed.stream.is_none());
}

#[test]
fn parses_indirect_stream_object() {
    let parsed = parse_indirect_object(
        b"8 0 obj\n<< /Length 5 >>\nstream\nHello\nendstream\nendobj",
        ParseConfig::default(),
    )
    .expect("stream object should parse");
    assert_eq!(parsed.id, id(8));
    let PdfPrimitive::Dictionary(entries) = &parsed.value else { panic!("expected dictionary") };
    assert_eq!(entries.len(), 1);
    assert_eq!(entries[0].0, b"Length".to_vec());
    assert!(matches!(entries[0].1, PdfPrimitive::Integer(5)));
    let stream = parsed.stream.expect("stream should be present");
    assert_eq!(stream.bytes, b"Hello");
    assert_eq!(stream.raw_bytes, b"Hello");
    assert_eq!(stream.declared_length, Some(5));
    assert!(stream.filters.is_empty());
    assert!(stream.decoded);
    assert_eq!(stream.byte_range, ByteRange::new(31, 36));
}

#[test]
fn decodes_flate_stream_object() {
    let compressed = flate_bytes(b"BT (Hello) Tj ET");
    let object = stream_object_with_filter(&compressed, "/FlateDecode");
    let parsed = parse_indirect_object(&object, ParseConfig::default()).expect("flate stream object should parse");
    let stream = parsed.stream.expect("stream should be present");
    assert_eq!(stream.bytes, b"BT (Hello) Tj ET");
    assert_eq!(stream.raw_bytes, compressed);
    assert_eq!(stream.filters, vec!["FlateDecode"]);
    assert!(stream.decoded);
}

#[test]
fn preserves_raw_bytes_when_flate_decode_fails() {
    let object = stream_object_with_filter(b"not deflated", "/FlateDecode");
    let parsed = parse_indirect_object(&object, ParseConfig::default())
        .expect("failed decode should keep partial stream object");
    let stream = parsed.stream.expect("stream should be present");
    assert_eq!(stream.bytes, b"not deflated");
    assert_eq!(stream.raw_bytes, b"not deflated");
    assert_eq!(stream.filters, vec!["FlateDecode"]);
    assert!(!stream.decoded);
}

#[test]
fn decodes_ascii_hex_stream_object() {
    let object = stream_object_with_filter(b"4254202848656c6c6f2920546a204554>", "/ASCIIHexDecode");
    let parsed = parse_indirect_object(&object, ParseConfig::default()).expect("ASCIIHex stream object should parse");
    let stream = parsed.stream.expect("stream should be present");
    assert_eq!(stream.bytes, b"BT (Hello) Tj ET");
    assert_eq!(stream.filters, vec!["ASCIIHexDecode"]);
    assert!(stream.decoded);
}

#[test]
fn decodes_run_length_stream_object() {
    let object = stream_object_with_filter(b"\x02ABC\xFD!\x80", "/RunLengthDecode");
    let parsed = parse_indirect_object(&object, ParseConfig::default()).expect("RunLength stream object should parse");
    let stream = parsed.stream.expect("stream should be present");
    assert_eq!(stream.bytes, b"ABC!!!!");
    assert_eq!(stream.filters, vec!["RunLengthDecode"]);
    assert!(stream.decoded);
}

#[test]
fn decodes_filter_chain_and_preserves_decode_params() {
    let compressed = flate_bytes(b"BT (Hello chain) Tj ET");
    let ascii_hex = ascii_hex_bytes(&compressed);
    let object = stream_object_with_filter(
        &ascii_hex,
        "[/ASCIIHexDecode /FlateDecode] /DecodeParms [null << /Predictor 1 >>]",
    );
    let parsed = parse_indirect_object(&object, ParseConfig::default()).expect("filter-chain stream object should parse");
    let stream = parsed.stream.expect("stream should be present");
    assert_eq!(stream.bytes, b"BT (Hello chain) Tj ET");
    assert_eq!(stream.filters, vec!["ASCIIHexDecode", "FlateDecode"]);
    assert_eq!(stream.decode_params.len(), 2);
    assert_eq!(stream.decode_params[0], None);
    assert!(stream.decode_params[1].as_deref().is_some_and(|value| value.contains("/Predictor 1")));
    assert!(stream.decoded);
}

#[test]
fn rejects_unterminated_indirect_object_gracefully() {
    assert!(matches!(
        parse_indirect_object(b"1 0 obj\n<< /Type /Page >>", ParseConfig::default()),
        Err(PdfDiffError::InvalidInput(_))
    ));
}

#[test]
fn rejects_unterminated_stream_object_gracefully() {
    assert!(matches!(
        parse_indirect_object(b"1 0 obj\n<< /Length 5 >>\nstream\nHello\nendobj", ParseConfig::default()),
        Err(PdfDiffError::InvalidInput(_))
    ));
}

#[test]
fn parses_classic_xref_table_and_trailer() {
    let fixture = classic_xref_pdf();
    let xref = parse_xref_table(&fixture.bytes, ParseConfig::default()).expect("classic xref should parse");
    assert_eq!(xref.start_offset, fixture.xref_offset);
    assert_eq!(xref.entries.len(), 3);
    assert_eq!(xref.entries[1].byte_offset, fixture.object_offsets[0]);
    assert!(xref.entries[1].in_use);
    assert!(matches!(dictionary_entry(&xref.trailer, "Root"), Some(PdfPrimitive::Reference(r)) if *r == id(1)));
}

#[test]
fn builds_object_store_with_lookup() {
    let fixture = classic_xref_pdf();
    let store = parse_object_store(&fixture.bytes, ParseConfig::default()).expect("object store should parse");
    assert_eq!(store.objects.len(), 2);
    let catalog = store.get(id(1)).expect("catalog should be available");
    assert_eq!(catalog.byte_range.start, fixture.object_offsets[0]);
    assert!(matches!(catalog.value, PdfPrimitive::Dictionary(_)));
    let stream = store
        .get(id(2))
        .and_then(|object| object.stream.as_ref())
        .expect("stream object should be available");
    assert_eq!(stream.bytes, b"Hello");
}

#[test]
fn detects_recursive_reference_chain_safely() {
    let fixture = recursive_reference_pdf();
    let store = parse_object_store(&fixture, ParseConfig::default()).expect("recursive object store should parse");
    let error = store
        .resolve_reference_chain(id(1), ResourceLimits::default())
        .expect_err("cycle should be rejected");
    assert!(matches!(
        error,
        PdfDiffError::ResourceLimitExceeded(message) if message.contains("RESOURCE_LIMIT_REFERENCE_CYCLE")
    ));
}

#[test]
fn enforces_reference_chain_depth_limit() {
    let fixture = reference_chain_pdf();
    let store = parse_object_store(&fixture, ParseConfig::default()).expect("reference chain store should parse");
    let mut limits = ResourceLimits::default();
    limits.max_indirect_depth = 1;
    let error = store.resolve_reference_chain(id(1), limits).expect_err("depth should be rejected");
    assert!(matches!(
        error,
        PdfDiffError::ResourceLimitExceeded(message) if message.contains("RESOURCE_LIMIT_REFERENCE_DEPTH")
    ));
}

#[test]
fn parses_controlled_xref_stream() {
    let fixture = xref_stream_pdf(false);
    let xref = parse_xref_table(&fixture.bytes, ParseConfig::default()).expect("xref stream should parse");
    assert_eq!(xref.start_offset, fixture.xref_offset);
    assert_eq!(xref.entries.len(), 4);
    assert_eq!(xref.entries[1].kind, XrefEntryKind::InUse);
    assert_eq!(xref.entries[1].byte_offset, fixture.object_offsets[0]);
    assert!(dictionary_entry(&xref.trailer, "Type").is_some_and(|v| is_name(v, "XRef")));
    let store = parse_object_store(&fixture.bytes, ParseConfig::default()).expect("xref stream object store should parse");
    assert!(store.get(id(1)).is_some());
}

#[test]
fn parses_compressed_xref_stream_entry() {
    let fixture = xref_stream_pdf(true);
    let xref = parse_xref_table(&fixture.bytes, ParseConfig::default()).expect("xref stream should parse");
    assert!(xref.entries.iter().any(|entry| entry.kind
        == XrefEntryKind::Compressed { object_stream: id(2), object_index: 7 }));
}

#[test]
fn resolves_object_stored_inside_object_stream() {
    let fixture = object_stream_pdf(false);
    let store = parse_object_store(&fixture.bytes, ParseConfig::default()).expect("object stream store should parse");
    let embedded = store.get(id(5)).expect("embedded object should resolve");
    let PdfPrimitive::Dictionary(entries) = &embedded.value else { panic!("expected dictionary") };
    assert_eq!(entries.len(), 1);
    assert_eq!(entries[0].0, b"Type".to_vec());
    assert!(is_name(&entries[0].1, "Page"));
    assert_eq!(
        embedded.embedded_source,
        Some(EmbeddedObjectSource { object_stream_id: id(2), object_index: 0 })
    );
}

#[test]
fn malformed_object_stream_fails_softly() {
    let fixture = object_stream_pdf(true);
    let error = parse_object_store(&fixture.bytes, ParseConfig::default()).expect_err("malformed object stream should fail");
    assert!(matches!(error, PdfDiffError::InvalidInput(message) if message.contains("object stream")));
}

#[test]
fn malformed_xref_stream_reports_exact_error() {
    let fixture = malformed_xref_stream_pdf();
    let error = parse_xref_table(&fixture, ParseConfig::default()).expect_err("xref should fail");
    assert!(matches!(error, PdfDiffError::InvalidInput(message) if message.contains("/W")));
}

#[test]
fn enforces_decoded_stream_size_limit() {
    let compressed = flate_bytes(b"decoded text");
    let object = stream_object_with_filter(&compressed, "/FlateDecode");
    let config = limits_with(|l| l.max_decoded_stream_bytes = 4);
    assert!(matches!(
        parse_indirect_object(&object, config),
        Err(PdfDiffError::ResourceLimitExceeded(message)) if message.contains("RESOURCE_LIMIT_DECODED_STREAM_BYTES")
    ));
}

#[test]
fn parser_fuzz_target_handles_malformed_inputs_without_panic() {
    let cases: &[&[u8]] = &[
        b"",
        b"%PDF-1.7\nxref",
        b"%PDF-1.7\n1 0 obj\n<< /Length 999999999 >>\nstream\nx",
        b"%PDF-1.7\n1 0 obj\n[ /Name (unterminated",
        b"%PDF-1.7\nstartxref\n999999\n%%EOF",
    ];
    for case in cases {
        let _ = semantic_pdf_diff::document::PdfDocument::parse(case);
        let _ = parse_primitive(case, ParseConfig::default());
    }
}

#[test]
fn flate_failure_carries_decoder_detail() {
    let error = semantic_pdf_diff::filters::flate_decode_limited(b"not deflated", 1024).expect_err("not zlib");
    assert!(matches!(error, PdfDiffError::InvalidInput(m) if m.starts_with("FlateDecode failed: ") && m.len() > 20));
}

#[test]
fn flate_decodes_without_limit() {
    let compressed = flate_bytes(b"decoded text");
    let out = semantic_pdf_diff::filters::flate_decode_limited(&compressed, usize::MAX).expect("decodes");
    assert_eq!(out, b"decoded text");
    let mut limits = ResourceLimits::default();
    limits.max_decoded_stream_bytes = usize::MAX;
    let object = stream_object_with_filter(&compressed, "/FlateDecode");
    let parsed = parse_indirect_object(&object, ParseConfig { limits }).expect("parses");
    assert_eq!(parsed.stream.expect("stream").bytes, b"decoded text");
}

#[test]
fn encrypted_refusal_holds_without_decode_limit() {
    let mut limits = ResourceLimits::default();
    limits.max_decoded_stream_bytes = usize::MAX;
    let error = semantic_pdf_diff::document::PdfDocument::parse_with_config(
        b"%PDF-1.7\n1 0 obj\n<< /Type /Catalog /Encrypt 2 0 R >>\nendobj\n",
        ParseConfig { limits },
    )
    .err()
    .expect("encrypted PDF should not be parsed");
    assert!(matches!(error, PdfDiffError::UnsupportedPdf(m) if m.starts_with("UNSUPPORTED_ENCRYPTION")));
}
