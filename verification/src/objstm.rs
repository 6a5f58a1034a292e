//! Object streams (`/Type /ObjStm`): the offset table and the objects
//! stored inside.
use vstd::prelude::*;
use vstd::utf8::valid_utf8;
use crate::types::{ObjectId, ByteRange, ParseConfig, ResourceLimits, PdfDiffError, is_limit_error,
    invalid_input, limit_error};
use crate::bytes::{is_ws, is_digit, skip_ws_from, skip_ascii_whitespace_bytes, lemma_skip_ws_bounds,
    slice_range, trim_end_index, trim_trailing_end, lemma_trim_end_bounds, is_ascii_whitespace};
use crate::lexer::{digits_value, all_digits, digits_magnitude};
use crate::primitive::{PdfPrimitive, PrimitiveView, dict_lookup, dictionary_value, primitive_spec,
    parse_primitive, has_name, dictionary_has_name};
use crate::object::{ParsedIndirectObject, EmbeddedObjectSource, ObjectView, StreamView, Failure,
    failure_is, from_parse_fail};
use crate::utf8text::{utf8, is_valid_utf8};

verus! {

/// End of the whitespace-free token that starts at `i`.
pub open spec fn token_end(s: Seq<u8>, i: int) -> int
    decreases s.len() - i,
{
    if 0 <= i < s.len() && !is_ws(s[i]) {
        token_end(s, i + 1)
    } else {
        i
    }
}

pub proof fn lemma_token_end(s: Seq<u8>, i: int)
    requires
        0 <= i <= s.len(),
    ensures
        i <= token_end(s, i) <= s.len(),
    decreases s.len() - i,
{
    if i < s.len() && !is_ws(s[i]) {
        lemma_token_end(s, i + 1);
    }
}

pub fn read_token_end(bytes: &[u8], i: usize) -> (r: usize)
    requires
        i <= bytes.len(),
    ensures
        r == token_end(bytes@, i as int),
        i <= r <= bytes.len(),
{
    proof {
        lemma_token_end(bytes@, i as int);
    }
    let mut j = i;
    while j < bytes.len() && !is_ascii_whitespace(bytes[j])
        invariant
            i <= j <= bytes.len(),
            token_end(bytes@, i as int) == token_end(bytes@, j as int),
        decreases bytes.len() - j,
    {
        j += 1;
    }
    j
}

/// The value of an unsigned decimal token as `str::parse` reads it for an
/// unsigned type: an optional `+`, then at least one digit.
pub open spec fn unsigned_token(t: Seq<u8>) -> Option<nat> {
    let d = if t.len() > 0 && t[0] == 0x2bu8 { t.subrange(1, t.len() as int) } else { t };
    if d.len() > 0 && all_digits(d) {
        Some(digits_value(d))
    } else {
        None
    }
}

pub fn parse_unsigned_token(t: &[u8]) -> (r: Option<u64>)
    ensures
        match unsigned_token(t@) {
            Some(v) => if v <= u64::MAX { r == Some(v as u64) } else { r is None },
            None => r is None,
        },
{
    let start: usize = if t.len() > 0 && t[0] == 0x2bu8 { 1 } else { 0 };
    if start >= t.len() {
        proof {
            if start == 0 {
                assert(t@.len() == 0);
            }
        }
        return None;
    }
    let mut i = start;
    while i < t.len()
        invariant
            start <= i <= t.len(),
            start == (if t@.len() > 0 && t@[0] == 0x2bu8 { 1int } else { 0int }),
            forall|j: int| start <= j < i ==> is_digit(#[trigger] t@[j]),
        decreases t.len() - i,
    {
        if !crate::bytes::is_ascii_digit(t[i]) {
            proof {
                let d = if start == 1 { t@.subrange(1, t@.len() as int) } else { t@ };
                assert(d[i - start] == t@[i as int]);
            }
            return None;
        }
        i += 1;
    }
    proof {
        let d = t@.subrange(start as int, t@.len() as int);
        assert forall|j: int| 0 <= j < d.len() implies is_digit(#[trigger] d[j]) by {
            assert(d[j] == t@[start + j]);
        }
        if start == 0 {
            assert(d =~= t@);
        }
    }
    digits_magnitude(t, start)
}

/// `n` pairs `object-number offset` read from `h` at `i`, after `acc`.
pub open spec fn offset_pairs(h: Seq<u8>, i: int, n: int, acc: Seq<(int, int)>) -> Option<Seq<(int, int)>>
    decreases n,
{
    if n <= 0 {
        Some(acc)
    } else {
        let a = skip_ws_from(h, i);
        let e1 = token_end(h, a);
        let b = skip_ws_from(h, e1);
        let e2 = token_end(h, b);
        if a >= h.len() || b >= h.len() {
            None
        } else {
            match (unsigned_token(h.subrange(a, e1)), unsigned_token(h.subrange(b, e2))) {
                (Some(number), Some(offset)) => if number <= u32::MAX && offset <= usize::MAX {
                    offset_pairs(h, e2, n - 1, acc.push((number as int, offset as int)))
                } else {
                    None
                },
                _ => None,
            }
        }
    }
}

/// The offset table of an object stream: it must be UTF-8, and hold `n`
/// pairs of whitespace-separated numbers.
pub open spec fn offsets_spec(h: Seq<u8>, n: int) -> Option<Seq<(int, int)>> {
    if valid_utf8(h) {
        offset_pairs(h, 0, n, Seq::empty())
    } else {
        None
    }
}

/// Pairs of integers, as the exec table holds them.
pub open spec fn offsets_view(v: Seq<(u32, usize)>) -> Seq<(int, int)> {
    v.map_values(|x: (u32, usize)| (x.0 as int, x.1 as int))
}

/// Reads the `n` (object number, offset) pairs of an object stream header.
pub fn parse_object_stream_offsets(bytes: &[u8], object_count: usize) -> (r: Result<Vec<(u32, usize)>, PdfDiffError>)
    ensures
        match offsets_spec(bytes@, object_count as int) {
            Some(p) => r matches Ok(v) && offsets_view(v@) == p,
            None => r matches Err(e) && e is InvalidInput,
        },
{
    if !is_valid_utf8(bytes) {
        return Err(invalid_input("object stream has a non-UTF-8 offset table"));
    }
    let mut offsets: Vec<(u32, usize)> = Vec::new();
    proof {
        assert(offsets_view(offsets@) =~= Seq::empty());
    }
    let mut cursor: usize = 0;
    let mut k: usize = 0;
    while k < object_count
        invariant
            cursor <= bytes.len(),
            k <= object_count,
            valid_utf8(bytes@),
            offset_pairs(bytes@, 0, object_count as int, Seq::empty()) == offset_pairs(
                bytes@,
                cursor as int,
                object_count - k,
                offsets_view(offsets@),
            ),
        decreases object_count - k,
    {
        let a = skip_ascii_whitespace_bytes(bytes, cursor);
        proof {
            lemma_skip_ws_bounds(bytes@, cursor as int);
        }
        let e1 = read_token_end(bytes, a);
        let b = skip_ascii_whitespace_bytes(bytes, e1);
        proof {
            lemma_skip_ws_bounds(bytes@, e1 as int);
        }
        let e2 = read_token_end(bytes, b);
        if a >= bytes.len() || b >= bytes.len() {
            return Err(invalid_input("object stream offset table is truncated"));
        }
        let t1 = slice_range(bytes, a, e1);
        let t2 = slice_range(bytes, b, e2);
        let number = match parse_unsigned_token(t1.as_slice()) {
            Some(v) => if v <= 0xffff_ffffu64 {
                v as u32
            } else {
                return Err(invalid_input("object stream has invalid embedded object number"));
            },
            None => return Err(invalid_input("object stream has invalid embedded object number")),
        };
        let offset = match parse_unsigned_token(t2.as_slice()) {
            Some(v) => if v <= (usize::MAX as u64) {
                v as usize
            } else {
                return Err(invalid_input("object stream has invalid embedded object offset"));
            },
            None => return Err(invalid_input("object stream has invalid embedded object offset")),
        };
        let ghost before = offsets_view(offsets@);
        offsets.push((number, offset));
        proof {
            assert(offsets_view(offsets@) =~= before.push((number as int, offset as int)));
        }
        cursor = e2;
        k += 1;
    }
    Ok(offsets)
}

/// A non-negative integer entry of a dictionary that fits in `usize`.
pub open spec fn required_usize(v: PrimitiveView, key: Seq<u8>) -> Option<int> {
    match dict_lookup(v, key) {
        Some(PrimitiveView::Integer(n)) => if 0 <= n <= usize::MAX {
            Some(n as int)
        } else {
            None
        },
        _ => None,
    }
}

pub fn required_dictionary_usize(value: &PdfPrimitive, key: &str) -> (r: Result<usize, PdfDiffError>)
    ensures
        match required_usize(value.deep(), utf8(key)) {
            Some(n) => r == Ok::<usize, PdfDiffError>(n as usize),
            None => r matches Err(e) && e is InvalidInput,
        },
{
    match dictionary_value(value, key.as_bytes()) {
        Some(PdfPrimitive::Integer(n)) => if *n >= 0 && (*n as u64) <= (usize::MAX as u64) {
            Ok(*n as usize)
        } else {
            Err(invalid_input("dictionary integer is out of range"))
        },
        _ => Err(invalid_input("dictionary is missing a required integer")),
    }
}

/// The object at position `k` of an object stream whose decoded data is
/// `data` and whose objects start at `first`.
#[verifier::opaque]
pub open spec fn embedded_object(
    data: Seq<u8>,
    first: int,
    offsets: Seq<(int, int)>,
    k: int,
    source: ObjectId,
    range: (int, int),
    limits: ResourceLimits,
) -> Result<ObjectView, Failure> {
    let number = offsets[k].0;
    let start = first + offsets[k].1;
    let end = if k + 1 < offsets.len() { first + offsets[k + 1].1 } else { data.len() as int };
    if start > usize::MAX || start > end || end > data.len() {
        Err(Failure::Invalid)
    } else {
        let hi = trim_end_index(data, start, end);
        if hi - start > limits.max_file_bytes {
            Err(Failure::FileSize)
        } else {
            match primitive_spec(data.subrange(start, hi), limits.max_indirect_depth as int) {
                Err(f) => Err(from_parse_fail(f)),
                Ok((v, st, en)) => Ok(
                    ObjectView {
                        id: ObjectId { number: number as u32, generation: 0 },
                        value: v,
                        stream: None,
                        start: range.0,
                        end: range.1,
                        value_start: start + st,
                        value_end: start + en,
                        embedded: Some(EmbeddedObjectSource { object_stream_id: source, object_index: k as usize }),
                    },
                ),
            }
        }
    }
}

/// The first `m` objects of an object stream, or the first failure.
#[verifier::opaque]
pub open spec fn embedded_prefix(
    data: Seq<u8>,
    first: int,
    offsets: Seq<(int, int)>,
    m: int,
    source: ObjectId,
    range: (int, int),
    limits: ResourceLimits,
) -> Result<Seq<ObjectView>, Failure>
    decreases m,
{
    if m <= 0 {
        Ok(Seq::empty())
    } else {
        match embedded_prefix(data, first, offsets, m - 1, source, range, limits) {
            Err(f) => Err(f),
            Ok(prev) => match embedded_object(data, first, offsets, m - 1, source, range, limits) {
                Err(f) => Err(f),
                Ok(x) => Ok(prev.push(x)),
            },
        }
    }
}

/// The objects stored in the object stream `o`.
pub open spec fn embedded_objects_spec(o: ObjectView, limits: ResourceLimits) -> Result<Seq<ObjectView>, Failure> {
    match o.stream {
        None => Err(Failure::Invalid),
        Some(st) => if !st.decoded {
            Err(Failure::Invalid)
        } else {
            match (required_usize(o.value, utf8("N")), required_usize(o.value, utf8("First"))) {
                (Some(n), Some(first)) => if n > limits.max_objects {
                    Err(Failure::Limit("RESOURCE_LIMIT_OBJECT_COUNT"@))
                } else if first > st.bytes.len() {
                    Err(Failure::Invalid)
                } else {
                    match offsets_spec(st.bytes.subrange(0, first), n) {
                        None => Err(Failure::Invalid),
                        Some(offsets) => embedded_prefix(
                            st.bytes,
                            first,
                            offsets,
                            offsets.len() as int,
                            o.id,
                            (st.start, st.end),
                            limits,
                        ),
                    }
                },
                _ => Err(Failure::Invalid),
            }
        },
    }
}

/// Views of a sequence of objects.
pub open spec fn views(v: Seq<ParsedIndirectObject>) -> Seq<ObjectView> {
    v.map_values(|o: ParsedIndirectObject| o.view())
}

fn object_count_error(count: usize, limit: usize) -> (e: PdfDiffError)
    ensures
        is_limit_error(e, "RESOURCE_LIMIT_OBJECT_COUNT"@),
{
    let a = crate::fmt::usize_to_string(count);
    let b = crate::fmt::usize_to_string(limit);
    let detail = crate::fmt::concat(&["object stream contains ", a.as_str(), " objects, limit is ", b.as_str()]);
    limit_error("RESOURCE_LIMIT_OBJECT_COUNT", detail.as_str())
}

proof fn lemma_prefix_err(
    data: Seq<u8>,
    first: int,
    offsets: Seq<(int, int)>,
    k: int,
    m: int,
    source: ObjectId,
    range: (int, int),
    limits: ResourceLimits,
)
    requires
        0 <= k <= m,
        embedded_prefix(data, first, offsets, k, source, range, limits) is Err,
    ensures
        embedded_prefix(data, first, offsets, m, source, range, limits) == embedded_prefix(
            data,
            first,
            offsets,
            k,
            source,
            range,
            limits,
        ),
    decreases m - k,
{
    reveal(embedded_prefix);
    if m > k {
        lemma_prefix_err(data, first, offsets, k, m - 1, source, range, limits);
    }
}

fn read_embedded_object(
    data: &[u8],
    first: usize,
    offsets: &Vec<(u32, usize)>,
    k: usize,
    source: ObjectId,
    range: ByteRange,
    config: ParseConfig,
) -> (r: Result<ParsedIndirectObject, PdfDiffError>)
    requires
        k < offsets.len(),
        first <= data.len(),
    ensures
        match embedded_object(
            data@,
            first as int,
            offsets_view(offsets@),
            k as int,
            source,
            (range.start as int, range.end as int),
            config.limits,
        ) {
            Ok(v) => r matches Ok(o) && o.view() == v,
            Err(f) => r matches Err(e) && failure_is(f, e),
        },
{
    proof {
        reveal(embedded_object);
    }
    let ghost offs = offsets_view(offsets@);
    let (number, relative) = offsets[k];
    assert(offs[k as int] == (number as int, relative as int));
    if relative > usize::MAX - first {
        return Err(invalid_input("object stream offset overflow"));
    }
    let start = first + relative;
    let end = if k + 1 < offsets.len() {
        let next = offsets[k + 1].1;
        assert(offs[k + 1] == (offsets@[k + 1].0 as int, next as int));
        if next > usize::MAX - first {
            return Err(invalid_input("object stream has malformed embedded object offsets"));
        }
        first + next
    } else {
        data.len()
    };
    if start > end || end > data.len() {
        return Err(invalid_input("object stream has malformed embedded object offsets"));
    }
    let hi = trim_trailing_end(data, start, end);
    let object_bytes = slice_range(data, start, hi);
    let parsed = parse_primitive(object_bytes.as_slice(), config)?;
    Ok(ParsedIndirectObject {
        id: ObjectId { number, generation: 0 },
        value: parsed.value,
        stream: None,
        byte_range: range,
        value_byte_range: ByteRange::new(start + parsed.byte_range.start, start + parsed.byte_range.end),
        embedded_source: Some(EmbeddedObjectSource { object_stream_id: source, object_index: k }),
    })
}

/// Reads the objects stored in an object stream.
pub fn extract_object_stream(object: &ParsedIndirectObject, config: ParseConfig) -> (r: Result<Vec<ParsedIndirectObject>, PdfDiffError>)
    ensures
        match embedded_objects_spec(object.view(), config.limits) {
            Ok(es) => r matches Ok(v) && views(v@) == es,
            Err(f) => r matches Err(e) && failure_is(f, e),
        },
{
    let stream = match &object.stream {
        Some(st) => st,
        None => return Err(invalid_input("object stream does not contain a stream")),
    };
    if !stream.decoded {
        return Err(invalid_input("object stream could not be decoded"));
    }
    let object_count = required_dictionary_usize(&object.value, "N")?;
    let first = required_dictionary_usize(&object.value, "First")?;
    if object_count > config.limits.max_objects {
        return Err(object_count_error(object_count, config.limits.max_objects));
    }
    let data = stream.bytes.as_slice();
    if first > data.len() {
        return Err(invalid_input("object stream has /First outside the decoded stream"));
    }
    let header = slice_range(data, 0, first);
    let offsets = parse_object_stream_offsets(header.as_slice(), object_count)?;
    let ghost offs = offsets_view(offsets@);
    let ghost range = (stream.byte_range.start as int, stream.byte_range.end as int);
    let mut embedded: Vec<ParsedIndirectObject> = Vec::new();
    let ghost full = embedded_objects_spec(object.view(), config.limits);
    proof {
        reveal(embedded_prefix);
        assert(views(embedded@) =~= Seq::<ObjectView>::empty());
        assert(object.view().stream == Some(crate::object::stream_view(*stream)));
        assert(full == embedded_prefix(data@, first as int, offs, offs.len() as int, object.id, range, config.limits));
    }
    let mut k: usize = 0;
    while k < offsets.len()
        invariant
            k <= offsets.len(),
            full == embedded_prefix(data@, first as int, offs, offs.len() as int, object.id, range, config.limits),
            full == embedded_objects_spec(object.view(), config.limits),
            offs == offsets_view(offsets@),
            offs.len() == offsets@.len(),
            data@ == stream.bytes@,
            range == (stream.byte_range.start as int, stream.byte_range.end as int),
            first <= data.len(),
            embedded_prefix(data@, first as int, offs, k as int, object.id, range, config.limits) == Ok::<
                Seq<ObjectView>,
                Failure,
            >(views(embedded@)),
        decreases offsets.len() - k,
    {
        let item = match read_embedded_object(data, first, &offsets, k, object.id, stream.byte_range, config) {
            Ok(item) => item,
            Err(e) => {
                proof {
                    reveal(embedded_prefix);
                    let eo = embedded_object(data@, first as int, offs, k as int, object.id, range, config.limits);
                    assert(eo is Err);
                    assert(embedded_prefix(data@, first as int, offs, k + 1, object.id, range, config.limits)
                        == Err::<Seq<ObjectView>, Failure>(eo->Err_0));
                    lemma_prefix_err(data@, first as int, offs, k + 1, offs.len() as int, object.id, range, config.limits);
                }
                return Err(e);
            },
        };
        let ghost before = views(embedded@);
        embedded.push(item);
        proof {
            assert(views(embedded@) =~= before.push(item.view()));
            reveal(embedded_prefix);
        }
        k += 1;
    }
    Ok(embedded)
}

} // verus!
