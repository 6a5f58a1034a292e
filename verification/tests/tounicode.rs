use semantic_pdf_diff::cmap::{
    bytes_to_u32, decode_with_tounicode, hex_tokens_in_line, int_to_be_bytes, parse_tounicode_cmap_with_diagnostics,
    try_parse_tounicode_cmap, unicode_hex_to_string,
};

#[test]
fn parses_and_applies_tounicode_cmap() {
    let cmap = parse_tounicode_cmap_with_diagnostics(b"2 beginbfchar\n<0026> <0043>\n<004f> <006c>\nendbfchar\n");

    assert_eq!(decode_with_tounicode(&[0x00, 0x26, 0x00, 0x4f], &cmap.map).as_deref(), Some("Cl"));
}

#[test]
fn parses_tounicode_bfrange_and_reports_unsupported_syntax() {
    let cmap = parse_tounicode_cmap_with_diagnostics(
        b"1 beginbfrange\n<0001> <0003> <0041>\n<0004> <0005> [<0058> <0059>]\n<0006> <0008> [<005a>]\nendbfrange\n",
    );

    assert_eq!(decode_with_tounicode(&[0, 1, 0, 2, 0, 3], &cmap.map).as_deref(), Some("ABC"));
    assert_eq!(decode_with_tounicode(&[0, 4, 0, 5], &cmap.map).as_deref(), Some("XY"));
    assert!(cmap.diagnostics.iter().any(|diagnostic| diagnostic.code == "CMAP_UNSUPPORTED_RANGE"));
}

#[test]
fn short_range_array_is_reported_with_its_reason() {
    let cmap = parse_tounicode_cmap_with_diagnostics(b"beginbfrange\n<0006> <0008> [<005a>]\nendbfrange\n");
    assert_eq!(cmap.diagnostics.len(), 1);
    assert_eq!(cmap.diagnostics[0].message, "bfrange destination array is shorter than source range");
    assert!(cmap.map.is_empty());
}

#[test]
fn decoding_prefers_the_widest_code_and_fails_on_unknown_bytes() {
    let cmap = parse_tounicode_cmap_with_diagnostics(b"beginbfchar\n<01> <0061>\n<0102> <0062>\nendbfchar\n");
    assert_eq!(cmap.map.len(), 2);
    assert_eq!(decode_with_tounicode(&[1, 2, 1], &cmap.map).as_deref(), Some("ba"));
    assert_eq!(decode_with_tounicode(&[], &cmap.map).as_deref(), Some(""));
    assert_eq!(decode_with_tounicode(&[7], &cmap.map), None);
}

#[test]
fn later_mapping_replaces_earlier_one() {
    let cmap = parse_tounicode_cmap_with_diagnostics(b"<41> <0061>\n<41> <0062>\n");
    assert_eq!(cmap.map.len(), 1);
    assert_eq!(cmap.map.get(&[0x41]).map(|s| s.as_str()), Some("b"));
}

#[test]
fn range_errors_carry_their_messages() {
    let cmap = parse_tounicode_cmap_with_diagnostics(
        b"beginbfrange\n<0005> <0001> <0041>\n<0102030405> <01> <0041>\n<01> <0102030405> <0041>\n<01> <02> <0102030405>\n<01> <02> <d800>\n<01> <01> [<d800>]\nendbfrange\n",
    );
    let messages: Vec<&str> = cmap.diagnostics.iter().map(|d| d.message.as_str()).collect();
    assert_eq!(
        messages,
        vec![
            "bfrange end is before start",
            "bfrange start is too wide",
            "bfrange end is too wide",
            "bfrange destination is too wide",
            "bfrange destination is not valid UTF-16BE",
            "bfrange array destination is not valid UTF-16BE",
        ]
    );
}

#[test]
fn crlf_lines_and_plus_signed_hex_pairs_are_read() {
    let cmap = parse_tounicode_cmap_with_diagnostics(b"beginbfchar\r\n<+1> <0041>\r\nendbfchar\r\n");
    assert_eq!(decode_with_tounicode(&[1], &cmap.map).as_deref(), Some("A"));
}

#[test]
fn hex_tokens_skip_dictionary_openers_and_invalid_tokens() {
    assert_eq!(hex_tokens_in_line(b"<0A> <zz> <1> <FF>"), Some(vec![vec![0x0a], vec![0xff]]));
    assert_eq!(hex_tokens_in_line(b"<<0A> <ff>"), Some(vec![vec![0x0a], vec![0xff]]));
    assert_eq!(hex_tokens_in_line(b"<< <0A> <ff>"), Some(vec![vec![0xff]]));
    assert_eq!(hex_tokens_in_line(b"<01 no close"), Some(vec![]));
    assert_eq!(hex_tokens_in_line("<a\u{e9}b>".as_bytes()), None);
}

#[test]
fn cut_characters_make_the_cmap_unreadable() {
    assert!(try_parse_tounicode_cmap("<a\u{e9}b> <0041>\n".as_bytes()).is_none());
    assert!(try_parse_tounicode_cmap(b"<41> <0041>\n").is_some());
}

#[test]
fn big_endian_helpers() {
    assert_eq!(bytes_to_u32(&[0x01, 0x02]), Some(0x0102));
    assert_eq!(bytes_to_u32(&[1, 2, 3, 4, 5]), None);
    assert_eq!(int_to_be_bytes(0x0102_0304, 2), vec![3, 4]);
    assert_eq!(int_to_be_bytes(0x0102_0304, 9), vec![1, 2, 3, 4]);
    assert_eq!(unicode_hex_to_string(&[0x00, 0x41, 0x00, 0xe9]).as_deref(), Some("A\u{e9}"));
    assert_eq!(unicode_hex_to_string(&[0xd8, 0x00]), None);
    assert_eq!(unicode_hex_to_string(&[0x00]), None);
}
