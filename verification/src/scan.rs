//! Objects of a document, and recovery by scanning the file for `N G obj`
//! headers when the cross-reference data cannot be used.
use vstd::prelude::*;
use vstd::utf8::valid_utf8;
use crate::types::{ObjectId, ByteRange, ParseConfig, ResourceLimits, PdfDiffError, invalid_input, limit_error,
    is_limit_error};
use crate::bytes::{is_ws, find_from, find_keyword, slice_range, lemma_find_from_props, trim_ascii,
    trim_start_index, trim_end_index, skip_ws_from, skip_ascii_whitespace_bytes, lemma_skip_ws_bounds,
    matches_at, is_digit};
use crate::lexer::{digit_run_end, digits_value, lemma_digit_run_end, digit_run, digits_magnitude};
use crate::primitive::{PdfPrimitive, PrimitiveView, primitive_spec, parse_primitive};
use crate::object::{StreamView, Failure, failure_is, stream_view, opt_stream_view, stream_data_start, ObjectView};
use crate::objstm::{token_end, unsigned_token, offset_pairs};
use crate::stream::{PdfStream, ChainOutcome, chain_spec, decode_stream};
use crate::signature::{filters_spec, decode_params_spec, stream_filters_from_primitive,
    decode_params_from_primitive};
use crate::syntax::{pdf_syntax, primitive_to_pdf_syntax};
use crate::store::id_is_after;
use crate::types::ResourceLimits as Limits;
use crate::utf8text::{utf8, utf8_lossy, lossy_string, lossy_bytes, lossy_utf8_bytes, is_valid_utf8};
use crate::xref::usize_at;

verus! {

/// An indirect object of a document: its dictionary or value written as PDF
/// syntax, its stream, and the bytes it spans.
#[derive(Debug, Clone, PartialEq, Eq)]
pub struct PdfObject {
    pub id: ObjectId,
    pub body: String,
    pub stream: Option<PdfStream>,
    pub byte_range: ByteRange,
}

/// Model of a document object.
pub struct ObjectRecord {
    pub id: ObjectId,
    pub body: Seq<char>,
    pub stream: Option<StreamView>,
    pub start: int,
    pub end: int,
}

impl PdfObject {
    pub open spec fn view(self) -> ObjectRecord {
        ObjectRecord {
            id: self.id,
            body: self.body@,
            stream: opt_stream_view(self.stream),
            start: self.byte_range.start as int,
            end: self.byte_range.end as int,
        }
    }
}

pub open spec fn records(v: Seq<PdfObject>) -> Seq<ObjectRecord> {
    v.map_values(|o: PdfObject| o.view())
}

/// The record of a parsed object: its value written back as syntax.
pub open spec fn record_of(o: ObjectView) -> ObjectRecord {
    ObjectRecord { id: o.id, body: pdf_syntax(o.value), stream: o.stream, start: o.start, end: o.end }
}

/// Converts parsed objects into document objects.
pub fn pdf_objects_from_object_store(objects: Vec<crate::object::ParsedIndirectObject>) -> (r: Vec<PdfObject>)
    ensures
        records(r@) == crate::objstm::views(objects@).map_values(|o: ObjectView| record_of(o)),
{
    let ghost vs = crate::objstm::views(objects@);
    let mut rest = objects;
    let mut out: Vec<PdfObject> = Vec::new();
    let mut done: usize = 0;
    let _n = rest.len();
    proof {
        assert(records(out@) =~= vs.take(0).map_values(|o: ObjectView| record_of(o)));
        assert(crate::objstm::views(rest@) =~= vs.skip(0));
    }
    while rest.len() > 0
        invariant
            vs.len() == done + rest@.len(),
            vs.len() <= usize::MAX,
            records(out@) == vs.take(done as int).map_values(|o: ObjectView| record_of(o)),
            crate::objstm::views(rest@) == vs.skip(done as int),
        decreases rest.len(),
    {
        let ghost old_rest = rest@;
        let object = rest.remove(0);
        proof {
            assert forall|j: int| 0 <= j < rest@.len() implies crate::objstm::views(rest@)[j] == vs.skip(done + 1)[j] by {
                assert(rest@[j] == old_rest[j + 1]);
                assert(crate::objstm::views(old_rest)[j + 1] == vs.skip(done as int)[j + 1]);
            }
            assert(crate::objstm::views(rest@) =~= vs.skip(done + 1));
            assert(object.view() == vs[done as int]) by {
                assert(vs.skip(done as int)[0] == vs[done as int]);
            }
        }
        let body = primitive_to_pdf_syntax(&object.value);
        let record = PdfObject { id: object.id, body, stream: object.stream, byte_range: object.byte_range };
        assert(record.view() == record_of(object.view()));
        let ghost before = records(out@);
        out.push(record);
        proof {
            assert(records(out@) =~= before.push(record.view()));
            assert(vs.take(done + 1) =~= vs.take(done as int).push(vs[done as int]));
            assert(vs.take(done + 1).map_values(|o: ObjectView| record_of(o)) =~= vs.take(done as int).map_values(
                |o: ObjectView| record_of(o),
            ).push(record_of(vs[done as int])));
        }
        done += 1;
    }
    proof {
        assert(vs.take(done as int) =~= vs);
    }
    out
}

/// The `/Length` written in a stream dictionary's text: the first
/// `/Length`, whitespace, then a decimal number.
pub open spec fn length_from_body(h: Seq<u8>) -> Option<usize> {
    match find_from(h, 0, utf8("/Length")) {
        None => None,
        Some(i) => match usize_at(h, skip_ws_from(h, i + 7)) {
            Some((v, _)) => Some(v as usize),
            None => None,
        },
    }
}

pub fn stream_length_from_body(h: &[u8]) -> (r: Option<usize>)
    ensures
        r == length_from_body(h@),
{
    proof {
        reveal_strlit("/Length");
        crate::utf8text::lemma_ascii_utf8("/Length");
        lemma_find_from_props(h@, 0, utf8("/Length"));
    }
    let i = match find_keyword(h, 0, "/Length".as_bytes()) {
        Some(i) => i,
        None => return None,
    };
    let a = skip_ascii_whitespace_bytes(h, i + 7);
    proof {
        lemma_skip_ws_bounds(h@, i + 7);
    }
    match crate::xref::read_usize(h, a) {
        Ok((v, _)) => Some(v),
        Err(_) => None,
    }
}

/// The dictionary written in a stream header, read with the default limits.
pub open spec fn body_value(h: Seq<u8>) -> Option<PrimitiveView> {
    if h.len() > Limits::default_spec().max_file_bytes {
        None
    } else {
        match primitive_spec(h, Limits::default_spec().max_indirect_depth as int) {
            Ok((v, _, _)) => Some(v),
            Err(_) => None,
        }
    }
}

pub open spec fn filters_from_body(h: Seq<u8>) -> Seq<Seq<char>> {
    match body_value(h) {
        Some(v) => filters_spec(v),
        None => Seq::empty(),
    }
}

pub open spec fn params_from_body(h: Seq<u8>) -> Seq<Option<Seq<char>>> {
    match body_value(h) {
        Some(v) => decode_params_spec(v),
        None => Seq::empty(),
    }
}

fn body_filters_and_params(h: &[u8]) -> (r: (Vec<String>, Vec<Option<String>>))
    ensures
        crate::signature::texts(r.0@) == filters_from_body(h@),
        r.1@.map_values(|o: Option<String>| crate::signature::opt_text(o)) == params_from_body(h@),
{
    match parse_primitive(h, crate::types::ParseConfig::default()) {
        Ok(parsed) => (stream_filters_from_primitive(&parsed.value), decode_params_from_primitive(&parsed.value)),
        Err(_) => {
            let a: Vec<String> = Vec::new();
            let b: Vec<Option<String>> = Vec::new();
            proof {
                assert(crate::signature::texts(a@) =~= Seq::<Seq<char>>::empty());
                assert(b@.map_values(|o: Option<String>| crate::signature::opt_text(o)) =~= Seq::<Option<Seq<char>>>::empty());
            }
            (a, b)
        },
    }
}

/// Every byte of `s[a..b]` is whitespace.
pub open spec fn all_ws(s: Seq<u8>, a: int, b: int) -> bool {
    forall|j: int| a <= j < b ==> #[trigger] is_ws(s[j])
}

/// `end` moved back over line ends (CR, LF), not below `start`.
pub open spec fn trim_eol_end(s: Seq<u8>, start: int, end: int) -> int
    decreases end - start,
{
    if end > start && 0 < end <= s.len() && (s[end - 1] == 0x0au8 || s[end - 1] == 0x0du8) {
        trim_eol_end(s, start, end - 1)
    } else {
        end
    }
}

proof fn lemma_trim_eol_end(s: Seq<u8>, start: int, end: int)
    requires
        0 <= start <= end <= s.len(),
    ensures
        start <= trim_eol_end(s, start, end) <= end,
    decreases end - start,
{
    if end > start && (s[end - 1] == 0x0au8 || s[end - 1] == 0x0du8) {
        lemma_trim_eol_end(s, start, end - 1);
    }
}

/// The stream of a scanned object whose body is `s[bs..be]`: `Ok(None)`
/// when the body has no `stream` keyword.
pub open spec fn scanned_stream(s: Seq<u8>, bs: int, be: int, limits: ResourceLimits) -> Result<Option<StreamView>, Failure> {
    match find_from(s, bs, utf8("stream")) {
        None => Ok(None),
        Some(m) => if m >= be {
            Ok(None)
        } else {
            let ds = stream_data_start(s, m);
            match find_from(s, ds, utf8("endstream")) {
                None => Err(Failure::Invalid),
                Some(es) => if es > be {
                    Err(Failure::Invalid)
                } else {
                    let h = lossy_bytes(s.subrange(bs, m));
                    let declared = length_from_body(h);
                    let end0 = match declared {
                        Some(l) => if ds + l <= es && all_ws(s, ds + l, es) {
                            ds + l
                        } else {
                            es
                        },
                        None => es,
                    };
                    let de = trim_eol_end(s, ds, end0);
                    if de - ds > limits.max_stream_bytes {
                        Err(Failure::Limit("RESOURCE_LIMIT_STREAM_BYTES"@))
                    } else {
                        let raw = s.subrange(ds, de);
                        let fs = filters_from_body(h);
                        let base = StreamView {
                            bytes: raw,
                            raw,
                            start: ds,
                            end: de,
                            declared_length: declared,
                            filters: fs,
                            params: params_from_body(h),
                            decoded: true,
                        };
                        match chain_spec(fs, 0, raw, limits.max_decoded_stream_bytes as nat) {
                            ChainOutcome::Decoded(d) => Ok(Some(StreamView { bytes: d, ..base })),
                            ChainOutcome::Raw => Ok(Some(StreamView { decoded: false, ..base })),
                            ChainOutcome::TooLarge => Err(Failure::Limit(crate::filters::DECODED_LIMIT_CODE@)),
                        }
                    }
                },
            }
        },
    }
}

fn stream_limit_error(size: usize, limit: usize) -> (e: PdfDiffError)
    ensures
        is_limit_error(e, "RESOURCE_LIMIT_STREAM_BYTES"@),
{
    let a = crate::fmt::usize_to_string(size);
    let b = crate::fmt::usize_to_string(limit);
    let detail = crate::fmt::concat(&["stream has ", a.as_str(), " bytes, limit is ", b.as_str()]);
    limit_error("RESOURCE_LIMIT_STREAM_BYTES", detail.as_str())
}

/// Reads the stream of a scanned object whose body is `bytes[bs..be]`.
#[verifier::spinoff_prover]
#[verifier::rlimit(40)]
pub fn parse_stream(bytes: &[u8], bs: usize, be: usize, config: ParseConfig) -> (r: Result<Option<PdfStream>, PdfDiffError>)
    requires
        bs <= be <= bytes.len(),
    ensures
        match scanned_stream(bytes@, bs as int, be as int, config.limits) {
            Ok(v) => r matches Ok(st) && opt_stream_view(st) == v,
            Err(f) => r matches Err(e) && failure_is(f, e),
        },
{
    let ghost s = bytes@;
    proof {
        reveal_strlit("stream");
        reveal_strlit("endstream");
        crate::utf8text::lemma_ascii_utf8("stream");
        crate::utf8text::lemma_ascii_utf8("endstream");
        lemma_find_from_props(s, bs as int, utf8("stream"));
    }
    let marker = match find_keyword(bytes, bs, "stream".as_bytes()) {
        Some(m) => m,
        None => return Ok(None),
    };
    if marker >= be {
        return Ok(None);
    }
    let k = marker + 6;
    let ds = if k < bytes.len() && k + 1 < bytes.len() && bytes[k] == 0x0du8 && bytes[k + 1] == 0x0au8 {
        k + 2
    } else if k < bytes.len() && bytes[k] == 0x0au8 {
        k + 1
    } else {
        k
    };
    assert(ds == stream_data_start(s, marker as int));
    proof {
        lemma_find_from_props(s, ds as int, utf8("endstream"));
    }
    let es = match find_keyword(bytes, ds, "endstream".as_bytes()) {
        Some(e) => e,
        None => return Err(invalid_input("stream is missing endstream marker")),
    };
    if es > be {
        return Err(invalid_input("stream is missing endstream marker"));
    }
    let raw_header = slice_range(bytes, bs, marker);
    let h = lossy_utf8_bytes(raw_header.as_slice());
    let declared = stream_length_from_body(h.as_slice());
    let end0 = match declared {
        Some(l) => {
            if l <= es - ds && all_whitespace(bytes, ds + l, es) {
                ds + l
            } else {
                es
            }
        },
        None => es,
    };
    proof {
        lemma_trim_eol_end(s, ds as int, end0 as int);
    }
    let mut de = end0;
    while de > ds && (bytes[de - 1] == 0x0au8 || bytes[de - 1] == 0x0du8)
        invariant
            ds <= de <= end0 <= bytes.len(),
            s == bytes@,
            trim_eol_end(s, ds as int, end0 as int) == trim_eol_end(s, ds as int, de as int),
        decreases de,
    {
        de -= 1;
    }
    if de - ds > config.limits.max_stream_bytes {
        return Err(stream_limit_error(de - ds, config.limits.max_stream_bytes));
    }
    let (filters, decode_params) = body_filters_and_params(h.as_slice());
    let raw = slice_range(bytes, ds, de);
    let data = slice_range(bytes, ds, de);
    let stream = PdfStream {
        bytes: data,
        raw_bytes: raw,
        byte_range: ByteRange::new(ds, de),
        declared_length: declared,
        filters,
        decode_params,
        decoded: true,
    };
    let decoded = decode_stream(stream, config)?;
    Ok(Some(decoded))
}

fn all_whitespace(bytes: &[u8], a: usize, b: usize) -> (r: bool)
    requires
        a <= b <= bytes.len(),
    ensures
        r == all_ws(bytes@, a as int, b as int),
{
    let mut i = a;
    while i < b
        invariant
            a <= i <= b <= bytes.len(),
            forall|j: int| a <= j < i ==> #[trigger] is_ws(bytes@[j]),
        decreases b - i,
    {
        if !crate::bytes::is_ascii_whitespace(bytes[i]) {
            return false;
        }
        i += 1;
    }
    true
}

/// Bytes of `x` without leading and trailing whitespace.
pub open spec fn trim_seq(x: Seq<u8>) -> Seq<u8> {
    x.subrange(trim_start_index(x), trim_end_index(x, trim_start_index(x), x.len() as int))
}

/// `N G` with nothing else: the header of an object, read from trimmed text.
pub open spec fn object_header_spec(h: Seq<u8>) -> Option<(int, int)> {
    let a = skip_ws_from(h, 0);
    let e1 = token_end(h, a);
    let b = skip_ws_from(h, e1);
    let e2 = token_end(h, b);
    if !valid_utf8(h) || a >= h.len() || b >= h.len() || skip_ws_from(h, e2) < h.len() {
        None
    } else {
        match (unsigned_token(h.subrange(a, e1)), unsigned_token(h.subrange(b, e2))) {
            (Some(n), Some(g)) => if n <= u32::MAX && g <= u16::MAX {
                Some((n as int, g as int))
            } else {
                None
            },
            _ => None,
        }
    }
}

proof fn lemma_token_bounds(h: Seq<u8>, i: int)
    requires
        0 <= i <= h.len(),
    ensures
        i <= skip_ws_from(h, i) <= h.len(),
        skip_ws_from(h, i) <= token_end(h, skip_ws_from(h, i)) <= h.len(),
{
    lemma_skip_ws_bounds(h, i);
    crate::objstm::lemma_token_end(h, skip_ws_from(h, i));
}

/// Reads `N G` from the trimmed text before ` obj`.
pub fn parse_object_header(h: &[u8]) -> (r: Option<(u32, u16)>)
    ensures
        match object_header_spec(h@) {
            Some((n, g)) => r == Some((n as u32, g as u16)),
            None => r is None,
        },
{
    if !is_valid_utf8(h) {
        return None;
    }
    proof {
        lemma_token_bounds(h@, 0);
    }
    let a = skip_ascii_whitespace_bytes(h, 0);
    let e1 = crate::objstm::read_token_end(h, a);
    proof {
        lemma_token_bounds(h@, e1 as int);
    }
    let b = skip_ascii_whitespace_bytes(h, e1);
    let e2 = crate::objstm::read_token_end(h, b);
    proof {
        lemma_skip_ws_bounds(h@, e2 as int);
    }
    let c = skip_ascii_whitespace_bytes(h, e2);
    if a >= h.len() || b >= h.len() || c < h.len() {
        return None;
    }
    let t1 = slice_range(h, a, e1);
    let t2 = slice_range(h, b, e2);
    let n = match crate::objstm::parse_unsigned_token(t1.as_slice()) {
        Some(v) => v,
        None => return None,
    };
    let g = match crate::objstm::parse_unsigned_token(t2.as_slice()) {
        Some(v) => v,
        None => return None,
    };
    if n > 0xffff_ffffu64 || g > 0xffffu64 {
        return None;
    }
    Some((n as u32, g as u16))
}

/// Start of the line that holds offset `m`.
pub open spec fn line_start(s: Seq<u8>, m: int) -> int
    decreases m,
{
    if m <= 0 || m > s.len() {
        0
    } else if s[m - 1] == 0x0au8 {
        m
    } else {
        line_start(s, m - 1)
    }
}

proof fn lemma_line_start(s: Seq<u8>, m: int)
    requires
        0 <= m <= s.len(),
    ensures
        0 <= line_start(s, m) <= m,
    decreases m,
{
    if m > 0 && s[m - 1] != 0x0au8 {
        lemma_line_start(s, m - 1);
    }
}

fn find_line_start(bytes: &[u8], m: usize) -> (r: usize)
    requires
        m <= bytes.len(),
    ensures
        r == line_start(bytes@, m as int),
        r <= m,
{
    proof {
        lemma_line_start(bytes@, m as int);
    }
    let mut i = m;
    while i > 0 && bytes[i - 1] != 0x0au8
        invariant
            i <= m <= bytes.len(),
            line_start(bytes@, m as int) == line_start(bytes@, i as int),
        decreases i,
    {
        i -= 1;
    }
    i
}

/// Objects found by scanning from `cursor` for ` obj` markers, after `acc`.
#[verifier::opaque]
pub open spec fn scan_objects_spec(s: Seq<u8>, cursor: int, acc: Seq<ObjectRecord>, limits: ResourceLimits) -> Result<Seq<ObjectRecord>, Failure>
    decreases s.len() - cursor,
{
    match find_from(s, cursor, utf8(" obj")) {
        None => Ok(acc),
        Some(m) => if m < cursor || m + 4 > s.len() {
            Ok(acc)
        } else {
            let ls = line_start(s, m);
            match object_header_spec(trim_seq(s.subrange(ls, m))) {
                None => scan_objects_spec(s, m + 4, acc, limits),
                Some((n, g)) => {
                    let bs = m + 4;
                    match find_from(s, bs, utf8("endobj")) {
                        None => Err(Failure::Invalid),
                        Some(e) => if e < bs || e + 6 > s.len() {
                            Err(Failure::Invalid)
                        } else {
                            match scanned_stream(s, bs, e, limits) {
                                Err(f) => Err(f),
                                Ok(st) => scan_objects_spec(
                                    s,
                                    e + 6,
                                    acc.push(
                                        ObjectRecord {
                                            id: ObjectId { number: n as u32, generation: g as u16 },
                                            body: utf8_lossy(trim_seq(s.subrange(bs, e))),
                                            stream: st,
                                            start: ls,
                                            end: e + 6,
                                        },
                                    ),
                                    limits,
                                ),
                            }
                        },
                    }
                },
            }
        },
    }
}

/// First position in `s` whose id comes after `id` (or the length).
pub open spec fn record_first_after(s: Seq<ObjectRecord>, id: ObjectId, from: int) -> int
    decreases s.len() - from,
{
    if from < 0 || from >= s.len() {
        s.len() as int
    } else if crate::store::id_after(s[from].id, id) {
        from
    } else {
        record_first_after(s, id, from + 1)
    }
}

proof fn lemma_record_first_after(s: Seq<ObjectRecord>, id: ObjectId, from: int)
    requires
        0 <= from <= s.len(),
    ensures
        from <= record_first_after(s, id, from) <= s.len(),
    decreases s.len() - from,
{
    if from < s.len() && !crate::store::id_after(s[from].id, id) {
        lemma_record_first_after(s, id, from + 1);
    }
}

/// Stable sort of records by object id.
pub open spec fn sort_records(s: Seq<ObjectRecord>) -> Seq<ObjectRecord>
    decreases s.len(),
{
    if s.len() == 0 {
        Seq::empty()
    } else {
        let prev = sort_records(s.drop_last());
        prev.insert(record_first_after(prev, s.last().id, 0), s.last())
    }
}

proof fn lemma_sort_records_len(s: Seq<ObjectRecord>)
    ensures
        sort_records(s).len() == s.len(),
    decreases s.len(),
{
    if s.len() > 0 {
        lemma_sort_records_len(s.drop_last());
        lemma_record_first_after(sort_records(s.drop_last()), s.last().id, 0);
    }
}

/// Sorts document objects by id, keeping the order of equal ids.
pub fn sort_pdf_objects(objects: Vec<PdfObject>) -> (r: Vec<PdfObject>)
    ensures
        records(r@) == sort_records(records(objects@)),
{
    let ghost orig = records(objects@);
    let _n = objects.len();
    let mut rest = objects;
    let mut out: Vec<PdfObject> = Vec::new();
    let mut done: usize = 0;
    proof {
        assert(records(out@) =~= sort_records(orig.take(0)));
        assert(records(rest@) =~= orig.skip(0));
    }
    while rest.len() > 0
        invariant
            orig.len() == done + rest@.len(),
            orig.len() <= usize::MAX,
            records(out@) == sort_records(orig.take(done as int)),
            records(rest@) == orig.skip(done as int),
        decreases rest.len(),
    {
        let ghost old_rest = rest@;
        let item = rest.remove(0);
        proof {
            assert forall|j: int| 0 <= j < rest@.len() implies records(rest@)[j] == orig.skip(done + 1)[j] by {
                assert(rest@[j] == old_rest[j + 1]);
                assert(records(old_rest)[j + 1] == orig.skip(done as int)[j + 1]);
            }
            assert(records(rest@) =~= orig.skip(done + 1));
            assert(item.view() == orig[done as int]) by {
                assert(orig.skip(done as int)[0] == orig[done as int]);
            }
            lemma_sort_records_len(orig.take(done as int));
        }
        let mut pos: usize = 0;
        while pos < out.len() && !id_is_after(out[pos].id, item.id)
            invariant
                pos <= out.len(),
                record_first_after(records(out@), item.id, 0) == record_first_after(records(out@), item.id, pos as int),
            decreases out.len() - pos,
        {
            pos += 1;
        }
        let ghost before = records(out@);
        out.insert(pos, item);
        proof {
            assert(records(out@) =~= before.insert(pos as int, item.view()));
            assert(orig.take(done + 1).drop_last() =~= orig.take(done as int));
            assert(orig.take(done + 1).last() == orig[done as int]);
        }
        done += 1;
    }
    proof {
        assert(orig.take(done as int) =~= orig);
    }
    out
}

/// Recovers the objects of a file by scanning for `N G obj` headers, each
/// object ending at the next `endobj`; sorted by id.
pub fn parse_indirect_objects(bytes: &[u8], config: ParseConfig) -> (r: Result<Vec<PdfObject>, PdfDiffError>)
    ensures
        match scan_objects_spec(
            bytes@,
            0,
            Seq::empty(),
            config.limits,
        ) {
            Ok(found) => r matches Ok(v) && records(v@) == sort_records(found),
            Err(f) => r matches Err(e) && failure_is(f, e),
        },
{
    let ghost s = bytes@;
    proof {
        reveal_strlit(" obj");
        reveal_strlit("endobj");
        crate::utf8text::lemma_ascii_utf8(" obj");
        crate::utf8text::lemma_ascii_utf8("endobj");
    }
    let obj_kw = " obj".as_bytes();
    let end_kw = "endobj".as_bytes();
    let mut objects: Vec<PdfObject> = Vec::new();
    let mut cursor: usize = 0;
    proof {
        assert(records(objects@) =~= Seq::<ObjectRecord>::empty());
    }
    loop
        invariant
            cursor <= bytes.len(),
            s == bytes@,
            obj_kw@ == utf8(" obj"),
            end_kw@ == utf8("endobj"),
            utf8(" obj").len() == 4,
            utf8("endobj").len() == 6,
            scan_objects_spec(s, 0, Seq::empty(), config.limits) == scan_objects_spec(
                s,
                cursor as int,
                records(objects@),
                config.limits,
            ),
        ensures
            scan_objects_spec(s, 0, Seq::empty(), config.limits) == Ok::<Seq<ObjectRecord>, Failure>(
                records(objects@),
            ),
        decreases bytes.len() - cursor,
    {
        proof {
            lemma_find_from_props(s, cursor as int, utf8(" obj"));
            reveal(scan_objects_spec);
        }
        let marker = match find_keyword(bytes, cursor, obj_kw) {
            Some(m) => m,
            None => break,
        };
        let ls = find_line_start(bytes, marker);
        let header_region = slice_range(bytes, ls, marker);
        let (header, _) = trim_ascii(header_region.as_slice());
        let parsed_header = parse_object_header(header.as_slice());
        let (number, generation) = match parsed_header {
            Some(p) => p,
            None => {
                cursor = marker + 4;
                continue;
            },
        };
        let bs = marker + 4;
        proof {
            lemma_find_from_props(s, bs as int, utf8("endobj"));
        }
        let e = match find_keyword(bytes, bs, end_kw) {
            Some(e) => e,
            None => return Err(invalid_input("object is missing endobj")),
        };
        let body_region = slice_range(bytes, bs, e);
        let (body_bytes, _) = trim_ascii(body_region.as_slice());
        let body = lossy_string(body_bytes.as_slice());
        let stream = parse_stream(bytes, bs, e, config)?;
        let object = PdfObject {
            id: ObjectId { number, generation },
            body,
            stream,
            byte_range: ByteRange::new(ls, e + 6),
        };
        let ghost before = records(objects@);
        objects.push(object);
        proof {
            assert(records(objects@) =~= before.push(object.view()));
        }
        cursor = e + 6;
    }
    Ok(sort_pdf_objects(objects))
}

} // verus!
