//! Indirect objects: `N G obj <value> [stream ... endstream] endobj`.
use vstd::prelude::*;
use crate::types::{ObjectId, ByteRange, ParseConfig, ResourceLimits, PdfDiffError, is_limit_error,
    invalid_input, limit_error};
use crate::bytes::{find_from, find_keyword, trim_end_index, trim_trailing_end, slice_range, matches_at,
    lemma_find_from_props, skip_ws_from, skip_ascii_whitespace_bytes, lemma_skip_ws_bounds,
    lemma_trim_end_bounds, is_ws};
use crate::lexer::{skip_wc, word_end, lemma_skip_wc_bounds, lemma_word_end, number_token, NumericView,
    Numeric, parse_number_token, skip_whitespace_and_comments, read_word};
use crate::primitive::{PdfPrimitive, PrimitiveView, ParseFail, primitive_spec, parse_primitive,
    bytes_equal, fail_is};
use crate::stream::{PdfStream, ChainOutcome, chain_spec, decode_stream};
use crate::signature::{filters_spec, decode_params_spec, length_spec, texts, opt_text,
    stream_filters_from_primitive, decode_params_from_primitive, stream_length_from_primitive};
use crate::filters::DECODED_LIMIT_CODE;
use crate::utf8text::utf8;

verus! {

/// Where an object that sits inside an object stream came from.
#[derive(Debug, Clone, Copy, PartialEq, Eq, Structural)]
pub struct EmbeddedObjectSource {
    pub object_stream_id: ObjectId,
    pub object_index: usize,
}

/// An indirect object with its parsed value, its stream if it has one, and
/// the byte ranges of the whole object and of its value.
#[derive(Debug)]
pub struct ParsedIndirectObject {
    pub id: ObjectId,
    pub value: PdfPrimitive,
    pub stream: Option<PdfStream>,
    pub byte_range: ByteRange,
    pub value_byte_range: ByteRange,
    pub embedded_source: Option<EmbeddedObjectSource>,
}

/// An unsigned integer word at `i` that is at most `max`, and where it ends.
pub open spec fn unsigned_word(s: Seq<u8>, i: int, max: int) -> Option<(int, int)> {
    let e = word_end(s, i);
    match number_token(s.subrange(i, e)) {
        Some(NumericView::Integer(v)) => if 0 <= v <= max {
            Some((v as int, e))
        } else {
            None
        },
        _ => None,
    }
}

/// The word at `i` is `kw`; the offset after it.
pub open spec fn keyword_at(s: Seq<u8>, i: int, kw: Seq<u8>) -> Option<int> {
    let e = word_end(s, i);
    if s.subrange(i, e) == kw {
        Some(e)
    } else {
        None
    }
}

/// The header `N G obj`: object number, generation, where the object starts
/// and where its value starts.
pub open spec fn object_header(s: Seq<u8>) -> Option<(int, int, int, int)> {
    let start = skip_wc(s, 0);
    match unsigned_word(s, start, u32::MAX as int) {
        None => None,
        Some((number, e1)) => match unsigned_word(s, skip_wc(s, e1), u16::MAX as int) {
            None => None,
            Some((generation, e2)) => match keyword_at(s, skip_wc(s, e2), utf8("obj")) {
                None => None,
                Some(e3) => Some((number, generation, start, skip_wc(s, e3))),
            },
        },
    }
}

/// Where stream data starts after the `stream` keyword at `marker`: past a
/// CR LF or LF end of line, if there is one.
pub open spec fn stream_data_start(s: Seq<u8>, marker: int) -> int {
    let k = marker + 6;
    if k + 1 < s.len() && s[k] == 0x0du8 && s[k + 1] == 0x0au8 {
        k + 2
    } else if k < s.len() && s[k] == 0x0au8 {
        k + 1
    } else {
        k
    }
}

/// The `stream` keyword inside the body `[value_start, body_end)`.
pub open spec fn stream_marker(s: Seq<u8>, value_start: int, body_end: int) -> Option<int> {
    match find_from(s, value_start, utf8("stream")) {
        Some(m) => if m < body_end {
            Some(m)
        } else {
            None
        },
        None => None,
    }
}

/// What an indirect object is made of, before its value is parsed.
pub struct ObjectLayout {
    pub number: int,
    pub generation: int,
    pub object_start: int,
    pub value_start: int,
    /// Offset of the `endobj` keyword.
    pub body_end: int,
    /// The value's bytes (trimmed).
    pub value_lo: int,
    pub value_hi: int,
    /// Stream data, trailing whitespace dropped.
    pub stream: Option<(int, int)>,
}

/// Why an indirect object was refused, before its value is parsed.
pub enum LayoutFail {
    Invalid,
    StreamTooLarge,
}

/// The layout of an indirect object, checked against the stream-size limit.
pub open spec fn object_layout(s: Seq<u8>, max_stream: int) -> Result<ObjectLayout, LayoutFail> {
    match object_header(s) {
        None => Err(LayoutFail::Invalid),
        Some((number, generation, object_start, value_start)) => match find_from(
            s,
            value_start,
            utf8("endobj"),
        ) {
            None => Err(LayoutFail::Invalid),
            Some(body_end) => match stream_marker(s, value_start, body_end) {
                None => {
                    let lo = skip_ws_from(s, value_start);
                    let hi = trim_end_index(s, lo, body_end);
                    Ok(
                        ObjectLayout {
                            number,
                            generation,
                            object_start,
                            value_start,
                            body_end,
                            value_lo: lo,
                            value_hi: hi,
                            stream: None,
                        },
                    )
                },
                Some(marker) => {
                    let lo = skip_ws_from(s, value_start);
                    let hi = trim_end_index(s, lo, marker);
                    let data_start = stream_data_start(s, marker);
                    match find_from(s, data_start, utf8("endstream")) {
                        Some(end_marker) => if end_marker < body_end {
                            let data_end = trim_end_index(s, data_start, end_marker);
                            if data_end - data_start > max_stream {
                                Err(LayoutFail::StreamTooLarge)
                            } else {
                                Ok(
                                    ObjectLayout {
                                        number,
                                        generation,
                                        object_start,
                                        value_start,
                                        body_end,
                                        value_lo: lo,
                                        value_hi: hi,
                                        stream: Some((data_start, data_end)),
                                    },
                                )
                            }
                        } else {
                            Err(LayoutFail::Invalid)
                        },
                        None => Err(LayoutFail::Invalid),
                    }
                },
            },
        },
    }
}

/// After the body: `endobj`, then nothing but whitespace and comments.
/// Returns where the object ends (just after `endobj`).
pub open spec fn object_trailer(s: Seq<u8>, body_end: int) -> Option<int> {
    match keyword_at(s, skip_wc(s, body_end), utf8("endobj")) {
        Some(e) => if skip_wc(s, e) < s.len() {
            None
        } else {
            Some(e)
        },
        None => None,
    }
}

proof fn lemma_unsigned_word(s: Seq<u8>, i: int, max: int)
    requires
        0 <= i <= s.len(),
    ensures
        unsigned_word(s, i, max) matches Some((v, e)) ==> i <= e <= s.len(),
{
    lemma_word_end(s, i);
}

proof fn lemma_object_header(s: Seq<u8>)
    ensures
        object_header(s) matches Some((n, g, st, vs)) ==> 0 <= st <= vs <= s.len() && 0 <= n <= u32::MAX
            && 0 <= g <= u16::MAX,
{
    lemma_skip_wc_bounds(s, 0);
    let start = skip_wc(s, 0);
    lemma_unsigned_word(s, start, u32::MAX as int);
    if let Some((number, e1)) = unsigned_word(s, start, u32::MAX as int) {
        lemma_skip_wc_bounds(s, e1);
        lemma_unsigned_word(s, skip_wc(s, e1), u16::MAX as int);
        if let Some((generation, e2)) = unsigned_word(s, skip_wc(s, e1), u16::MAX as int) {
            lemma_skip_wc_bounds(s, e2);
            lemma_word_end(s, skip_wc(s, e2));
            if let Some(e3) = keyword_at(s, skip_wc(s, e2), utf8("obj")) {
                lemma_skip_wc_bounds(s, e3);
            }
        }
    }
}

/// Offsets of a layout are in order and inside the input.
pub proof fn lemma_layout_bounds(s: Seq<u8>, max_stream: int)
    ensures
        object_layout(s, max_stream) matches Ok(l) ==> {
            &&& 0 <= l.object_start <= l.value_start <= l.value_lo <= l.value_hi <= l.body_end
            &&& l.body_end + 6 <= s.len()
            &&& 0 <= l.number <= u32::MAX
            &&& 0 <= l.generation <= u16::MAX
            &&& l.stream matches Some((ds, de)) ==> l.value_hi <= ds <= de <= l.body_end
        },
{
    lemma_object_header(s);
    reveal_strlit("endobj");
    reveal_strlit("stream");
    reveal_strlit("endstream");
    crate::utf8text::lemma_ascii_utf8("endobj");
    crate::utf8text::lemma_ascii_utf8("stream");
    if let Some((number, generation, object_start, value_start)) = object_header(s) {
        lemma_find_from_props(s, value_start, utf8("endobj"));
        lemma_find_from_props(s, value_start, utf8("stream"));
        lemma_skip_ws_bounds(s, value_start);
        if let Some(body_end) = find_from(s, value_start, utf8("endobj")) {
            assert(!is_ws(s[body_end])) by {
                assert(s.subrange(body_end, body_end + 6)[0] == s[body_end]);
            }
            let lo = skip_ws_from(s, value_start);
            match stream_marker(s, value_start, body_end) {
                None => {
                    lemma_trim_end_bounds(s, lo, body_end);
                },
                Some(marker) => {
                    assert(!is_ws(s[marker])) by {
                        assert(s.subrange(marker, marker + 6)[0] == s[marker]);
                    }
                    lemma_trim_end_bounds(s, lo, marker);
                    let data_start = stream_data_start(s, marker);
                    lemma_find_from_props(s, data_start, utf8("endstream"));
                    if let Some(end_marker) = find_from(s, data_start, utf8("endstream")) {
                        if end_marker < body_end {
                            lemma_trim_end_bounds(s, data_start, end_marker);
                        }
                    }
                },
            }
        }
    }
}

/// Reads an unsigned integer word at `i` that is at most `max`.
fn read_unsigned(bytes: &[u8], i: usize, max: u64) -> (r: Option<(u64, usize)>)
    requires
        i <= bytes.len(),
    ensures
        match unsigned_word(bytes@, i as int, max as int) {
            Some((v, e)) => r matches Some((x, f)) && x == v && f == e,
            None => r is None,
        },
        r matches Some((x, f)) ==> i <= f <= bytes.len(),
{
    let (word, end) = read_word(bytes, i);
    match parse_number_token(word.as_slice()) {
        Some(Numeric::Integer(v)) => {
            if v >= 0 && (v as u64) <= max {
                Some((v as u64, end))
            } else {
                None
            }
        },
        _ => None,
    }
}

/// The word at `i` is `kw`: where it ends.
fn keyword_end(bytes: &[u8], i: usize, kw: &[u8]) -> (r: Option<usize>)
    requires
        i <= bytes.len(),
    ensures
        r is Some <==> keyword_at(bytes@, i as int, kw@) is Some,
        r matches Some(e) ==> keyword_at(bytes@, i as int, kw@) == Some(e as int),
        r matches Some(e) ==> i <= e <= bytes.len(),
{
    let (word, end) = read_word(bytes, i);
    if bytes_equal(word.as_slice(), kw) {
        Some(end)
    } else {
        None
    }
}

/// Reads the header `N G obj`: number, generation, start of the object and
/// start of its value.
fn read_object_header(bytes: &[u8]) -> (r: Option<(u32, u16, usize, usize)>)
    ensures
        match object_header(bytes@) {
            Some((n, g, st, vs)) => r matches Some((a, b, c, d)) && a == n && b == g && c == st
                && d == vs,
            None => r is None,
        },
        r matches Some((a, b, c, d)) ==> c <= d <= bytes.len(),
{
    let start = skip_whitespace_and_comments(bytes, 0);
    let (number, e1) = match read_unsigned(bytes, start, 0xffff_ffffu64) {
        Some(p) => p,
        None => return None,
    };
    let j = skip_whitespace_and_comments(bytes, e1);
    let (generation, e2) = match read_unsigned(bytes, j, 0xffffu64) {
        Some(p) => p,
        None => return None,
    };
    let k = skip_whitespace_and_comments(bytes, e2);
    let obj_kw = "obj".as_bytes();
    let e3 = match keyword_end(bytes, k, obj_kw) {
        Some(e) => e,
        None => return None,
    };
    let value_start = skip_whitespace_and_comments(bytes, e3);
    assert(unsigned_word(bytes@, start as int, u32::MAX as int) == Some((number as int, e1 as int)));
    assert(unsigned_word(bytes@, j as int, u16::MAX as int) == Some((generation as int, e2 as int)));
    assert(obj_kw@ == utf8("obj"));
    assert(keyword_at(bytes@, k as int, utf8("obj")) == Some(e3 as int));
    Some((number as u32, generation as u16, start, value_start))
}

/// The value bytes of an indirect object, where they sit, where the body
/// ends, and the raw stream if the object has one.
pub struct IndirectValueParts {
    pub value_bytes: Vec<u8>,
    pub value_offset: usize,
    pub value_end: usize,
    pub stream: Option<PdfStream>,
}

/// Splits the body of an indirect object that starts at `value_start` into
/// its value and its raw stream data.
pub fn split_indirect_object_value_and_stream(
    bytes: &[u8],
    value_start: usize,
    config: ParseConfig,
) -> (r: Result<IndirectValueParts, PdfDiffError>)
    requires
        value_start <= bytes.len(),
    ensures
        ({
            let s = bytes@;
            match find_from(s, value_start as int, utf8("endobj")) {
                None => r matches Err(e) && e is InvalidInput,
                Some(body_end) => {
                    let lo = skip_ws_from(s, value_start as int);
                    match stream_marker(s, value_start as int, body_end) {
                        None => r matches Ok(p) && p.value_offset == lo && p.value_end == body_end
                            && p.value_bytes@ == s.subrange(lo, trim_end_index(s, lo, body_end))
                            && p.stream is None,
                        Some(marker) => {
                            let data_start = stream_data_start(s, marker);
                            match find_from(s, data_start, utf8("endstream")) {
                                Some(end_marker) => if end_marker < body_end {
                                    let data_end = trim_end_index(s, data_start, end_marker);
                                    if data_end - data_start > config.limits.max_stream_bytes {
                                        r matches Err(e) && is_limit_error(e, "RESOURCE_LIMIT_STREAM_BYTES"@)
                                    } else {
                                        r matches Ok(p) && p.value_offset == lo && p.value_end == body_end
                                            && p.value_bytes@ == s.subrange(lo, trim_end_index(s, lo, marker))
                                            && (p.stream matches Some(st) && st.raw_bytes@ == s.subrange(
                                            data_start,
                                            data_end,
                                        ) && st.bytes@ == st.raw_bytes@ && st.byte_range.start == data_start
                                            && st.byte_range.end == data_end
                                            && st.declared_length is None && st.filters@.len() == 0
                                            && st.decode_params@.len() == 0 && st.decoded)
                                    }
                                } else {
                                    r matches Err(e) && e is InvalidInput
                                },
                                None => r matches Err(e) && e is InvalidInput,
                            }
                        },
                    }
                },
            }
        }),
{
    let ghost s = bytes@;
    let _len = bytes.len();
    proof {
        reveal_strlit("endobj");
        reveal_strlit("stream");
        reveal_strlit("endstream");
        lemma_find_from_props(s, value_start as int, utf8("endobj"));
        lemma_find_from_props(s, value_start as int, utf8("stream"));
    }
    let body_end = match find_keyword(bytes, value_start, "endobj".as_bytes()) {
        Some(e) => e,
        None => return Err(invalid_input("indirect object is missing endobj")),
    };
    let lo = skip_ascii_whitespace_bytes(bytes, value_start);
    let marker = match find_keyword(bytes, value_start, "stream".as_bytes()) {
        Some(m) => if m < body_end {
            Some(m)
        } else {
            None
        },
        None => None,
    };
    proof {
        lemma_skip_ws_bounds(s, value_start as int);
        reveal_strlit("endobj");
        reveal_strlit("stream");
        crate::utf8text::lemma_ascii_utf8("endobj");
        crate::utf8text::lemma_ascii_utf8("stream");
        assert(!is_ws(s[body_end as int])) by {
            assert(s.subrange(body_end as int, body_end + 6)[0] == s[body_end as int]);
        }
        if let Some(m) = marker {
            assert(!is_ws(s[m as int])) by {
                assert(s.subrange(m as int, m + 6)[0] == s[m as int]);
            }
        }
    }
    match marker {
        None => {
            let hi = trim_trailing_end(bytes, lo, body_end);
            Ok(IndirectValueParts {
                value_bytes: slice_range(bytes, lo, hi),
                value_offset: lo,
                value_end: body_end,
                stream: None,
            })
        },
        Some(marker) => {
            let hi = trim_trailing_end(bytes, lo, marker);
            let k = marker + 6;
            let data_start = if k + 1 < bytes.len() && bytes[k] == 0x0du8 && bytes[k + 1] == 0x0au8 {
                k + 2
            } else if k < bytes.len() && bytes[k] == 0x0au8 {
                k + 1
            } else {
                k
            };
            assert(data_start == stream_data_start(s, marker as int));
            assert(stream_marker(s, value_start as int, body_end as int) == Some(marker as int));
            assert(find_from(s, value_start as int, utf8("endobj")) == Some(body_end as int));
            let end_kw = "endstream".as_bytes();
            assert(end_kw@ == utf8("endstream"));
            proof {
                lemma_find_from_props(s, data_start as int, utf8("endstream"));
            }
            let end_marker = match find_keyword(bytes, data_start, end_kw) {
                Some(e) => if e < body_end {
                    e
                } else {
                    return Err(invalid_input("stream object is missing endstream"));
                },
                None => return Err(invalid_input("stream object is missing endstream")),
            };
            let data_end = trim_trailing_end(bytes, data_start, end_marker);
            if data_end - data_start > config.limits.max_stream_bytes {
                return Err(stream_limit_error(data_end - data_start, config.limits.max_stream_bytes));
            }
            let data = slice_range(bytes, data_start, data_end);
            let raw = slice_range(bytes, data_start, data_end);
            Ok(IndirectValueParts {
                value_bytes: slice_range(bytes, lo, hi),
                value_offset: lo,
                value_end: body_end,
                stream: Some(PdfStream {
                    bytes: data,
                    raw_bytes: raw,
                    byte_range: ByteRange::new(data_start, data_end),
                    declared_length: None,
                    filters: Vec::new(),
                    decode_params: Vec::new(),
                    decoded: true,
                }),
            })
        },
    }
}

fn stream_limit_error(size: usize, limit: usize) -> (e: PdfDiffError)
    ensures
        is_limit_error(e, "RESOURCE_LIMIT_STREAM_BYTES"@),
{
    let a = crate::fmt::usize_to_string(size);
    let b = crate::fmt::usize_to_string(limit);
    let detail = crate::fmt::concat(&["stream has ", a.as_str(), " bytes, limit is ", b.as_str()]);
    limit_error("RESOURCE_LIMIT_STREAM_BYTES", detail.as_str())
}

/// Why input was refused: not well formed, or over a resource limit (with
/// the limit's stable code).
pub enum Failure {
    Invalid,
    Limit(Seq<char>),
    /// Bytes to parse as one primitive exceed the file-size limit.
    FileSize,
    /// The input is not a PDF this library supports.
    Unsupported,
    /// The input is encrypted or otherwise protected.
    Encrypted,
}

/// `e` is the error that `f` stands for.
pub open spec fn failure_is(f: Failure, e: PdfDiffError) -> bool {
    match f {
        Failure::Invalid => e is InvalidInput,
        Failure::Limit(code) => is_limit_error(e, code),
        Failure::FileSize => e is ResourceLimitExceeded,
        Failure::Unsupported => e is UnsupportedPdf,
        Failure::Encrypted => e matches PdfDiffError::UnsupportedPdf(m) && "UNSUPPORTED_ENCRYPTION"@.is_prefix_of(
            m@,
        ),
    }
}

/// The failure a primitive parse stands for.
pub open spec fn from_parse_fail(f: ParseFail) -> Failure {
    match f {
        ParseFail::Depth => Failure::Limit("RESOURCE_LIMIT_RECURSION_DEPTH"@),
        ParseFail::Invalid => Failure::Invalid,
    }
}

/// Model of a stream.
pub struct StreamView {
    pub bytes: Seq<u8>,
    pub raw: Seq<u8>,
    pub start: int,
    pub end: int,
    pub declared_length: Option<usize>,
    pub filters: Seq<Seq<char>>,
    pub params: Seq<Option<Seq<char>>>,
    pub decoded: bool,
}

/// Model of an indirect object.
pub struct ObjectView {
    pub id: ObjectId,
    pub value: PrimitiveView,
    pub stream: Option<StreamView>,
    pub start: int,
    pub end: int,
    pub value_start: int,
    pub value_end: int,
    pub embedded: Option<EmbeddedObjectSource>,
}

pub open spec fn stream_view(x: PdfStream) -> StreamView {
    StreamView {
        bytes: x.bytes@,
        raw: x.raw_bytes@,
        start: x.byte_range.start as int,
        end: x.byte_range.end as int,
        declared_length: x.declared_length,
        filters: texts(x.filters@),
        params: x.decode_params@.map_values(|o: Option<String>| opt_text(o)),
        decoded: x.decoded,
    }
}

pub open spec fn opt_stream_view(x: Option<PdfStream>) -> Option<StreamView> {
    match x {
        Some(st) => Some(stream_view(st)),
        None => None,
    }
}

impl ParsedIndirectObject {
    pub open spec fn view(self) -> ObjectView {
        ObjectView {
            id: self.id,
            value: self.value.deep(),
            stream: opt_stream_view(self.stream),
            start: self.byte_range.start as int,
            end: self.byte_range.end as int,
            value_start: self.value_byte_range.start as int,
            value_end: self.value_byte_range.end as int,
            embedded: self.embedded_source,
        }
    }
}

/// The stream of an object with dictionary `v`, whose raw data is
/// `s[ds..de]`, after its filter chain ran: `None` when the chain exceeds
/// the decoded-size limit.
pub open spec fn stream_spec(s: Seq<u8>, ds: int, de: int, v: PrimitiveView, limit: nat) -> Option<StreamView> {
    let raw = s.subrange(ds, de);
    let base = StreamView {
        bytes: raw,
        raw,
        start: ds,
        end: de,
        declared_length: length_spec(v),
        filters: filters_spec(v),
        params: decode_params_spec(v),
        decoded: true,
    };
    match chain_spec(filters_spec(v), 0, raw, limit) {
        ChainOutcome::Decoded(d) => Some(StreamView { bytes: d, ..base }),
        ChainOutcome::Raw => Some(StreamView { decoded: false, ..base }),
        ChainOutcome::TooLarge => None,
    }
}

/// What parsing `s` as one indirect object yields (the file-size check
/// aside).
#[verifier::opaque]
pub open spec fn indirect_object_spec(s: Seq<u8>, limits: ResourceLimits) -> Result<ObjectView, Failure> {
    let limit = limits.max_decoded_stream_bytes as nat;
    match object_layout(s, limits.max_stream_bytes as int) {
        Err(LayoutFail::Invalid) => Err(Failure::Invalid),
        Err(LayoutFail::StreamTooLarge) => Err(Failure::Limit("RESOURCE_LIMIT_STREAM_BYTES"@)),
        Ok(l) => match primitive_spec(s.subrange(l.value_lo, l.value_hi), limits.max_indirect_depth as int) {
            Err(f) => Err(from_parse_fail(f)),
            Ok((v, st, en)) => {
                let stream = match l.stream {
                    None => Some(None),
                    Some((ds, de)) => match stream_spec(s, ds, de, v, limit) {
                        Some(x) => Some(Some(x)),
                        None => None,
                    },
                };
                match stream {
                    None => Err(Failure::Limit(DECODED_LIMIT_CODE@)),
                    Some(stream) => match object_trailer(s, l.body_end) {
                        None => Err(Failure::Invalid),
                        Some(end) => Ok(
                            ObjectView {
                                id: ObjectId { number: l.number as u32, generation: l.generation as u16 },
                                value: v,
                                stream,
                                start: l.object_start,
                                end,
                                value_start: l.value_lo + st,
                                value_end: l.value_lo + en,
                                embedded: None,
                            },
                        ),
                    },
                }
            },
        },
    }
}

/// Parses one complete indirect object; nothing but whitespace and comments
/// may follow its `endobj`.
pub fn parse_indirect_object(bytes: &[u8], config: ParseConfig) -> (r: Result<ParsedIndirectObject, PdfDiffError>)
    ensures
        bytes@.len() > config.limits.max_file_bytes ==> (r matches Err(e) && e is ResourceLimitExceeded),
        bytes@.len() <= config.limits.max_file_bytes
            ==> match indirect_object_spec(bytes@, config.limits) {
            Ok(v) => r matches Ok(o) && o.view() == v,
            Err(f) => r matches Err(e) && failure_is(f, e),
        },
        r matches Ok(o) ==> o.byte_range.start <= o.byte_range.end <= bytes@.len() && o.value_byte_range.start
            <= o.value_byte_range.end <= bytes@.len() && (o.stream matches Some(st) ==> st.byte_range.start
            <= st.byte_range.end <= bytes@.len()),
{
    let ghost s = bytes@;
    proof {
        reveal(indirect_object_spec);
    }
    config.limits.check_file_size(bytes.len())?;
    let header = read_object_header(bytes);
    let (number, generation, object_start, value_start) = match header {
        Some(h) => h,
        None => return Err(invalid_input("malformed indirect object header")),
    };
    let parts = split_indirect_object_value_and_stream(bytes, value_start, config)?;
    let ghost lay = object_layout(s, config.limits.max_stream_bytes as int);
    proof {
        lemma_layout_bounds(s, config.limits.max_stream_bytes as int);
        lemma_find_from_props(s, value_start as int, utf8("endobj"));
        assert(object_header(s) == Some((number as int, generation as int, object_start as int, value_start as int)));
        assert(lay is Ok);
        assert(lay->Ok_0.value_lo == parts.value_offset);
        assert(parts.value_bytes@ == s.subrange(lay->Ok_0.value_lo, lay->Ok_0.value_hi));
        assert(lay->Ok_0.body_end == parts.value_end);
    }
    let parsed = parse_primitive(parts.value_bytes.as_slice(), config)?;
    let stream = match parts.stream {
        Some(raw) => {
            let with_meta = raw.with_metadata(
                stream_length_from_primitive(&parsed.value),
                stream_filters_from_primitive(&parsed.value),
                decode_params_from_primitive(&parsed.value),
            );
            Some(decode_stream(with_meta, config)?)
        },
        None => None,
    };
    let k = skip_whitespace_and_comments(bytes, parts.value_end);
    let endobj_kw = "endobj".as_bytes();
    let object_end = match keyword_end(bytes, k, endobj_kw) {
        Some(e) => e,
        None => return Err(invalid_input("expected keyword endobj")),
    };
    let rest = skip_whitespace_and_comments(bytes, object_end);
    if rest < bytes.len() {
        return Err(invalid_input("trailing bytes after indirect object"));
    }
    Ok(ParsedIndirectObject {
        id: ObjectId { number, generation },
        value: parsed.value,
        stream,
        byte_range: ByteRange::new(object_start, object_end),
        value_byte_range: ByteRange::new(
            parts.value_offset + parsed.byte_range.start,
            parts.value_offset + parsed.byte_range.end,
        ),
        embedded_source: None,
    })
}

} // verus!
