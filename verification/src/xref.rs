//! Cross-reference data: the `startxref` pointer, classic `xref` tables and
//! `/XRef` streams.
use vstd::prelude::*;
use crate::types::{ObjectId, ParseConfig, ResourceLimits, PdfDiffError, is_limit_error, invalid_input,
    limit_error};
use crate::bytes::{is_ws, is_digit, matches_at, find_from, find_last_before, find_keyword,
    find_last_keyword, skip_ws_from, skip_ascii_whitespace_bytes, lemma_skip_ws_bounds, byte_matches_at,
    lemma_find_from_props};
use crate::lexer::{digit_run_end, digits_value, all_digits, lemma_digit_run_end, digit_run,
    digits_magnitude};
use crate::bytes::slice_range;
use crate::utf8text::utf8;
use crate::object::{Failure, failure_is, from_parse_fail, indirect_object_spec, parse_indirect_object};
use crate::primitive::{PdfPrimitive, PrimitiveView, dict_lookup, dictionary_value, deep_seq, has_name,
    dictionary_has_name, primitive_spec, parse_primitive,
    lemma_deep_seq_index, lemma_deep_seq_len};

verus! {

/// A decimal number of at least one digit at `i` that fits in `usize`, and
/// where its digits end.
pub open spec fn usize_at(s: Seq<u8>, i: int) -> Option<(int, int)> {
    let e = digit_run_end(s, i);
    if e <= i {
        None
    } else {
        let v = digits_value(s.subrange(i, e));
        if v <= usize::MAX {
            Some((v as int, e))
        } else {
            None
        }
    }
}

/// Reads a decimal `usize` at `i`.
pub fn read_usize(bytes: &[u8], i: usize) -> (r: Result<(usize, usize), PdfDiffError>)
    requires
        i <= bytes.len(),
    ensures
        match usize_at(bytes@, i as int) {
            Some((v, e)) => r matches Ok((x, f)) && x == v && f == e,
            None => r matches Err(err) && err is InvalidInput,
        },
        r matches Ok((x, f)) ==> i < f <= bytes.len(),
{
    let end = digit_run(bytes, i);
    if end == i {
        return Err(invalid_input("expected a decimal number"));
    }
    proof {
        lemma_digit_run_end(bytes@, i as int);
        let d = bytes@.subrange(i as int, end as int);
        assert forall|j: int| 0 <= j < d.len() implies is_digit(#[trigger] d[j]) by {
            assert(d[j] == bytes@[i + j]);
        }
    }
    let digits = slice_range(bytes, i, end);
    proof {
        assert(digits@.subrange(0, digits@.len() as int) =~= digits@);
    }
    match digits_magnitude(digits.as_slice(), 0) {
        Some(v) => {
            if v > (usize::MAX as u64) {
                return Err(invalid_input("decimal number is out of range"));
            }
            Ok((v as usize, end))
        },
        None => Err(invalid_input("decimal number is out of range")),
    }
}

pub open spec fn is_inline_ws(b: u8) -> bool {
    b == 0x20u8 || b == 0x09u8
}

/// First offset at or after `i` that is not a space or a tab.
pub open spec fn skip_inline_from(s: Seq<u8>, i: int) -> int
    decreases s.len() - i,
{
    if 0 <= i < s.len() && is_inline_ws(s[i]) {
        skip_inline_from(s, i + 1)
    } else {
        i
    }
}

pub proof fn lemma_skip_inline(s: Seq<u8>, i: int)
    requires
        0 <= i <= s.len(),
    ensures
        i <= skip_inline_from(s, i) <= s.len(),
    decreases s.len() - i,
{
    if i < s.len() && is_inline_ws(s[i]) {
        lemma_skip_inline(s, i + 1);
    }
}

pub fn skip_inline_whitespace(bytes: &[u8], i: usize) -> (r: usize)
    requires
        i <= bytes.len(),
    ensures
        r == skip_inline_from(bytes@, i as int),
        i <= r <= bytes.len(),
{
    proof {
        lemma_skip_inline(bytes@, i as int);
    }
    let mut j = i;
    while j < bytes.len() && (bytes[j] == 0x20u8 || bytes[j] == 0x09u8)
        invariant
            i <= j <= bytes.len(),
            skip_inline_from(bytes@, i as int) == skip_inline_from(bytes@, j as int),
        decreases bytes.len() - j,
    {
        j += 1;
    }
    j
}

/// Spaces and tabs, then at most one end of line (CR LF, CR or LF).
pub open spec fn skip_line_break_from(s: Seq<u8>, i: int) -> int {
    let j = skip_inline_from(s, i);
    if j + 1 < s.len() && s[j] == 0x0du8 && s[j + 1] == 0x0au8 {
        j + 2
    } else if j < s.len() && (s[j] == 0x0du8 || s[j] == 0x0au8) {
        j + 1
    } else {
        j
    }
}

pub fn skip_line_break(bytes: &[u8], i: usize) -> (r: usize)
    requires
        i <= bytes.len(),
    ensures
        r == skip_line_break_from(bytes@, i as int),
        i <= r <= bytes.len(),
{
    let j = skip_inline_whitespace(bytes, i);
    if j < bytes.len() && j + 1 < bytes.len() && bytes[j] == 0x0du8 && bytes[j + 1] == 0x0au8 {
        j + 2
    } else if j < bytes.len() && (bytes[j] == 0x0du8 || bytes[j] == 0x0au8) {
        j + 1
    } else {
        j
    }
}

/// Exactly `width` decimal digits at `i`, with their value.
pub open spec fn fixed_width_at(s: Seq<u8>, i: int, width: int) -> Option<int> {
    if 0 <= i && i + width <= s.len() && all_digits(s.subrange(i, i + width)) {
        Some(digits_value(s.subrange(i, i + width)) as int)
    } else {
        None
    }
}

/// Reads exactly `width` digits at `i`; a value beyond `u64` is an
/// out-of-range error.
pub fn read_fixed_width(bytes: &[u8], i: usize, width: usize) -> (r: Result<u64, PdfDiffError>)
    ensures
        match fixed_width_at(bytes@, i as int, width as int) {
            Some(v) => if v <= u64::MAX {
                r == Ok::<u64, PdfDiffError>(v as u64)
            } else {
                r matches Err(e) && e is InvalidInput
            },
            None => r matches Err(e) && e is InvalidInput,
        },
        width <= 19 ==> (fixed_width_at(bytes@, i as int, width as int) is Some ==> r is Ok),
{
    if i > bytes.len() || width > bytes.len() - i {
        return Err(invalid_input("truncated xref entry field"));
    }
    let mut j: usize = 0;
    while j < width
        invariant
            j <= width,
            i + width <= bytes.len(),
            forall|k: int| i <= k < i + j ==> is_digit(#[trigger] bytes@[k]),
        decreases width - j,
    {
        if !crate::bytes::is_ascii_digit(bytes[i + j]) {
            proof {
                assert(!is_digit(bytes@.subrange(i as int, i + width)[j as int]));
            }
            return Err(invalid_input("xref entry field is invalid"));
        }
        j += 1;
    }
    let field = slice_range(bytes, i, i + width);
    proof {
        assert forall|k: int| 0 <= k < field@.len() implies is_digit(#[trigger] field@[k]) by {
            assert(field@[k] == bytes@[i + k]);
        }
        assert(field@ == bytes@.subrange(i as int, i + width));
        assert(field@.subrange(0, field@.len() as int) =~= field@);
        if width <= 19 {
            lemma_small_digits(field@);
        }
    }
    match digits_magnitude(field.as_slice(), 0) {
        Some(v) => Ok(v),
        None => Err(invalid_input("xref entry field is out of range")),
    }
}

/// A run of at most 19 digits is below `10^19`, so it fits in a `u64`.
proof fn lemma_small_digits(t: Seq<u8>)
    requires
        t.len() <= 19,
        all_digits(t),
    ensures
        digits_value(t) < pow10(t.len()),
        digits_value(t) <= u64::MAX,
    decreases t.len(),
{
    if t.len() > 0 {
        let p = t.drop_last();
        assert(all_digits(p)) by {
            assert forall|k: int| 0 <= k < p.len() implies is_digit(#[trigger] p[k]) by {
                assert(p[k] == t[k]);
            }
        }
        lemma_small_digits(p);
        assert(is_digit(t[t.len() - 1]));
        assert(pow10(t.len()) == pow10(p.len()) * 10);
        assert(digits_value(t) == digits_value(p) * 10 + (t.last() - 0x30u8) as nat);
        assert(digits_value(t) < pow10(t.len())) by (nonlinear_arith)
            requires
                digits_value(t) == digits_value(p) * 10 + (t.last() - 0x30u8) as nat,
                digits_value(p) < pow10(p.len()),
                (t.last() - 0x30u8) as nat <= 9,
                pow10(t.len()) == pow10(p.len()) * 10,
        ;
    }
    lemma_pow10_bound(t.len());
}

pub open spec fn pow10(n: nat) -> nat
    decreases n,
{
    if n == 0 {
        1
    } else {
        pow10((n - 1) as nat) * 10
    }
}

proof fn lemma_pow10_bound(n: nat)
    requires
        n <= 19,
    ensures
        pow10(n) <= 10000000000000000000,
    decreases 19 - n,
{
    if n < 19 {
        lemma_pow10_bound(n + 1);
        assert(pow10(n + 1) == pow10(n) * 10);
    } else {
        reveal_with_fuel(pow10, 20);
        assert(pow10(19) == 10000000000000000000);
    }
}

/// How an xref entry locates its object.
#[derive(Debug, Clone, Copy, PartialEq, Eq, Structural)]
pub enum XrefEntryKind {
    Free,
    InUse,
    Compressed { object_stream: ObjectId, object_index: usize },
}

/// One cross-reference entry.
#[derive(Debug, Clone, Copy, PartialEq, Eq, Structural)]
pub struct XrefEntry {
    pub object_id: ObjectId,
    pub byte_offset: usize,
    pub in_use: bool,
    pub kind: XrefEntryKind,
}

/// The cross-reference data found at `startxref`, with its trailer
/// dictionary (for an `/XRef` stream, the stream's dictionary).
#[derive(Debug)]
pub struct XrefTable {
    pub start_offset: usize,
    pub entries: Vec<XrefEntry>,
    pub trailer: PdfPrimitive,
}

/// One 20-byte entry line at `i`: a 10-digit offset, a 5-digit generation,
/// the flag `n` or `f`, then the end of line. Returns offset, generation,
/// whether the entry is in use, and where the next line starts.
pub open spec fn entry_line(s: Seq<u8>, i: int) -> Option<(int, int, bool, int)> {
    match fixed_width_at(s, i, 10) {
        None => None,
        Some(offset) => {
            let j = skip_inline_from(s, i + 10);
            match fixed_width_at(s, j, 5) {
                None => None,
                Some(generation) => {
                    let k = skip_inline_from(s, j + 5);
                    if offset <= usize::MAX && generation <= u16::MAX && k < s.len() && (s[k] == 0x6eu8
                        || s[k] == 0x66u8) {
                        Some((offset, generation, s[k] == 0x6eu8, skip_line_break_from(s, k + 1)))
                    } else {
                        None
                    }
                },
            }
        },
    }
}

/// The entry for object `number`.
pub open spec fn classic_entry(number: int, offset: int, generation: int, in_use: bool) -> XrefEntry {
    XrefEntry {
        object_id: ObjectId { number: number as u32, generation: generation as u16 },
        byte_offset: offset as usize,
        in_use,
        kind: if in_use { XrefEntryKind::InUse } else { XrefEntryKind::Free },
    }
}

/// Reads entries `idx..count` of a subsection whose first object is `first`,
/// starting at `i`, after the entries in `acc`.
pub open spec fn subsection_spec(s: Seq<u8>, i: int, first: int, idx: int, count: int, acc: Seq<XrefEntry>) -> Option<(Seq<XrefEntry>, int)>
    decreases count - idx,
{
    if idx >= count {
        Some((acc, i))
    } else {
        match entry_line(s, i) {
            None => None,
            Some((offset, generation, in_use, next)) => if first + idx > u32::MAX {
                None
            } else {
                subsection_spec(s, next, first, idx + 1, count, acc.push(classic_entry(first + idx, offset, generation, in_use)))
            },
        }
    }
}

/// Reads subsections (`first count` then entry lines) from `i` until the
/// `trailer` keyword; returns the entries and the offset after `trailer`.
pub open spec fn sections_spec(s: Seq<u8>, i: int, acc: Seq<XrefEntry>) -> Option<(Seq<XrefEntry>, int)>
    decreases s.len() - i,
{
    let j = skip_ws_from(s, i);
    if matches_at(s, j, utf8("trailer")) {
        Some((acc, j + 7))
    } else {
        match usize_at(s, j) {
            None => None,
            Some((first, e1)) => match usize_at(s, skip_inline_from(s, e1)) {
                None => None,
                Some((count, e2)) => match subsection_spec(s, skip_line_break_from(s, e2), first, 0, count, acc) {
                    None => None,
                    Some((entries, next)) => if i < next <= s.len() {
                        sections_spec(s, next, entries)
                    } else {
                        None
                    },
                },
            },
        }
    }
}

fn read_entry_line(bytes: &[u8], i: usize) -> (r: Result<(usize, u16, bool, usize), PdfDiffError>)
    requires
        i <= bytes.len(),
    ensures
        match entry_line(bytes@, i as int) {
            Some((o, g, n, next)) => r matches Ok((a, b, c, d)) && a == o && b == g && c == n && d == next,
            None => r matches Err(e) && e is InvalidInput,
        },
        r matches Ok((a, b, c, d)) ==> i < d <= bytes.len(),
{
    let offset = read_fixed_width(bytes, i, 10)?;
    let j = skip_inline_whitespace(bytes, i + 10);
    let generation = read_fixed_width(bytes, j, 5)?;
    let k = skip_inline_whitespace(bytes, j + 5);
    if offset > (usize::MAX as u64) || generation > 0xffffu64 {
        return Err(invalid_input("xref entry field is out of range"));
    }
    if k >= bytes.len() {
        return Err(invalid_input("truncated xref entry flag"));
    }
    let flag = bytes[k];
    if flag != 0x6eu8 && flag != 0x66u8 {
        return Err(invalid_input("invalid xref entry flag"));
    }
    let next = skip_line_break(bytes, k + 1);
    Ok((offset as usize, generation as u16, flag == 0x6eu8, next))
}

/// Reads `count` entry lines of a subsection at `i`, appending them.
fn read_subsection(bytes: &[u8], i: usize, first: usize, count: usize, entries: &mut Vec<XrefEntry>) -> (r: Result<usize, PdfDiffError>)
    requires
        i <= bytes.len(),
    ensures
        match subsection_spec(bytes@, i as int, first as int, 0, count as int, old(entries)@) {
            Some((acc, next)) => r matches Ok(n) && n == next && final(entries)@ == acc,
            None => r matches Err(e) && e is InvalidInput,
        },
        r matches Ok(n) ==> i <= n <= bytes.len(),
{
    let mut cursor = i;
    let mut idx: usize = 0;
    while idx < count
        invariant
            i <= cursor <= bytes.len(),
            idx <= count,
            subsection_spec(bytes@, i as int, first as int, 0, count as int, old(entries)@)
                == subsection_spec(bytes@, cursor as int, first as int, idx as int, count as int, entries@),
        decreases count - idx,
    {
        let (offset, generation, in_use, next) = read_entry_line(bytes, cursor)?;
        if first > 0xffff_ffffusize || idx > 0xffff_ffffusize - first {
            return Err(invalid_input("xref object number is out of range"));
        }
        let number = (first + idx) as u32;
        entries.push(XrefEntry {
            object_id: ObjectId { number, generation },
            byte_offset: offset,
            in_use,
            kind: if in_use { XrefEntryKind::InUse } else { XrefEntryKind::Free },
        });
        cursor = next;
        idx += 1;
    }
    Ok(cursor)
}

/// Reads the subsections of a classic table from `i` up to `trailer`.
fn read_sections(bytes: &[u8], i: usize) -> (r: Result<(Vec<XrefEntry>, usize), PdfDiffError>)
    requires
        i <= bytes.len(),
    ensures
        match sections_spec(bytes@, i as int, Seq::empty()) {
            Some((acc, after)) => r matches Ok((v, a)) && v@ == acc && a == after,
            None => r matches Err(e) && e is InvalidInput,
        },
        r matches Ok((v, a)) ==> a <= bytes.len(),
{
    let mut entries: Vec<XrefEntry> = Vec::new();
    let mut cursor = i;
    let trailer_kw = "trailer".as_bytes();
    proof {
        reveal_strlit("trailer");
        crate::utf8text::lemma_ascii_utf8("trailer");
    }
    loop
        invariant
            cursor <= bytes.len(),
            trailer_kw@ == utf8("trailer"),
            utf8("trailer").len() == 7,
            sections_spec(bytes@, i as int, Seq::empty()) == sections_spec(bytes@, cursor as int, entries@),
        decreases bytes.len() - cursor,
    {
        let j = skip_ascii_whitespace_bytes(bytes, cursor);
        proof {
            lemma_skip_ws_bounds(bytes@, cursor as int);
        }
        if byte_matches_at(bytes, j, trailer_kw) {
            return Ok((entries, j + 7));
        }
        let (first, e1) = read_usize(bytes, j)?;
        let k = skip_inline_whitespace(bytes, e1);
        let (count, e2) = read_usize(bytes, k)?;
        let l = skip_line_break(bytes, e2);
        let next = read_subsection(bytes, l, first, count, &mut entries)?;
        if next <= cursor {
            return Err(invalid_input("xref table does not advance"));
        }
        cursor = next;
    }
}

/// A non-negative integer primitive that fits in `usize`.
pub open spec fn nonneg(p: PrimitiveView) -> Option<int> {
    match p {
        PrimitiveView::Integer(i) => if 0 <= i <= usize::MAX {
            Some(i as int)
        } else {
            None
        },
        _ => None,
    }
}

fn nonneg_exec(p: &PdfPrimitive) -> (r: Option<usize>)
    ensures
        match nonneg(p.deep()) {
            Some(v) => r == Some(v as usize),
            None => r is None,
        },
{
    match p {
        PdfPrimitive::Integer(i) => if *i >= 0 && (*i as u64) <= (usize::MAX as u64) {
            Some(*i as usize)
        } else {
            None
        },
        _ => None,
    }
}

/// The `/W` field widths of an xref stream: three non-negative integers,
/// not all zero.
pub open spec fn widths_spec(v: PrimitiveView) -> Option<(int, int, int)> {
    match dict_lookup(v, utf8("W")) {
        Some(PrimitiveView::Array(items)) => if items.len() == 3 {
            match (nonneg(items[0]), nonneg(items[1]), nonneg(items[2])) {
                (Some(a), Some(b), Some(c)) => if a == 0 && b == 0 && c == 0 {
                    None
                } else {
                    Some((a, b, c))
                },
                _ => None,
            }
        } else {
            None
        },
        _ => None,
    }
}

pub fn xref_stream_widths(value: &PdfPrimitive) -> (r: Result<(usize, usize, usize), PdfDiffError>)
    ensures
        match widths_spec(value.deep()) {
            Some((a, b, c)) => r matches Ok((x, y, z)) && x == a && y == b && z == c,
            None => r matches Err(e) && e is InvalidInput,
        },
{
    let items = match dictionary_value(value, "W".as_bytes()) {
        Some(PdfPrimitive::Array(items)) => items,
        _ => return Err(invalid_input("xref stream is missing /W array")),
    };
    proof {
        lemma_deep_seq_len(items@);
    }
    if items.len() != 3 {
        return Err(invalid_input("xref stream /W array must have three entries"));
    }
    proof {
        lemma_deep_seq_index(items@, 0);
        lemma_deep_seq_index(items@, 1);
        lemma_deep_seq_index(items@, 2);
    }
    let a = match nonneg_exec(&items[0]) {
        Some(v) => v,
        None => return Err(invalid_input("xref stream /W entries must be non-negative integers")),
    };
    let b = match nonneg_exec(&items[1]) {
        Some(v) => v,
        None => return Err(invalid_input("xref stream /W entries must be non-negative integers")),
    };
    let c = match nonneg_exec(&items[2]) {
        Some(v) => v,
        None => return Err(invalid_input("xref stream /W entries must be non-negative integers")),
    };
    if a == 0 && b == 0 && c == 0 {
        return Err(invalid_input("xref stream /W array cannot be all zero"));
    }
    Ok((a, b, c))
}

/// Object/count pairs of an `/Index` array, when every entry fits.
pub open spec fn pairs_spec(items: Seq<PrimitiveView>) -> Option<Seq<(int, int)>> {
    if items.len() % 2 == 0 && forall|j: int| 0 <= j < items.len() ==> #[trigger] nonneg(items[j]) is Some {
        Some(Seq::new((items.len() / 2) as nat, |j: int| (nonneg(items[2 * j]).unwrap(), nonneg(items[2 * j + 1]).unwrap())))
    } else {
        None
    }
}

/// The subsections of an xref stream: `/Index` pairs, or `0 /Size` when
/// `/Index` is not an array.
pub open spec fn indices_spec(v: PrimitiveView) -> Option<Seq<(int, int)>> {
    match dict_lookup(v, utf8("Index")) {
        Some(PrimitiveView::Array(items)) => pairs_spec(items),
        _ => match dict_lookup(v, utf8("Size")) {
            Some(size) => match nonneg(size) {
                Some(n) => Some(seq![(0int, n)]),
                None => None,
            },
            None => None,
        },
    }
}

pub fn xref_stream_indices(value: &PdfPrimitive) -> (r: Result<Vec<(usize, usize)>, PdfDiffError>)
    ensures
        match indices_spec(value.deep()) {
            Some(p) => r matches Ok(v) && pairs_view(v@) == p,
            None => r matches Err(e) && e is InvalidInput,
        },
{
    if let Some(PdfPrimitive::Array(items)) = dictionary_value(value, "Index".as_bytes()) {
        let ghost view = deep_seq(items@);
        proof {
            lemma_deep_seq_len(items@);
        }
        if items.len() % 2 != 0 {
            return Err(invalid_input("xref stream /Index array must contain object/count pairs"));
        }
        let mut pairs: Vec<(usize, usize)> = Vec::new();
        let mut k: usize = 0;
        while k < items.len()
            invariant
                view == deep_seq(items@),
                view.len() == items.len(),
                dict_lookup(value.deep(), utf8("Index")) == Some(PrimitiveView::Array(view)),
                items.len() % 2 == 0,
                k % 2 == 0,
                k <= items.len(),
                pairs@.len() == k / 2,
                forall|j: int| 0 <= j < k ==> #[trigger] nonneg(view[j]) is Some,
                forall|j: int| 0 <= j < k / 2 ==> (#[trigger] pairs@[j]).0 == nonneg(view[2 * j]).unwrap()
                    && pairs@[j].1 == nonneg(view[2 * j + 1]).unwrap(),
            decreases items.len() - k,
        {
            proof {
                lemma_deep_seq_index(items@, k as int);
                lemma_deep_seq_index(items@, k + 1);
            }
            let first = match nonneg_exec(&items[k]) {
                Some(v) => v,
                None => {
                    assert(nonneg(view[k as int]) is None);
                    return Err(invalid_input("xref stream /Index entries must be non-negative integers"));
                },
            };
            let count = match nonneg_exec(&items[k + 1]) {
                Some(v) => v,
                None => {
                    assert(nonneg(view[k + 1]) is None);
                    return Err(invalid_input("xref stream /Index entries must be non-negative integers"));
                },
            };
            pairs.push((first, count));
            proof {
                assert(2 * (k / 2) == k);
            }
            k += 2;
        }
        proof {
            let p = pairs_spec(view);
            assert(p is Some);
            assert(pairs_view(pairs@) =~= p->Some_0);
        }
        return Ok(pairs);
    }
    match dictionary_value(value, "Size".as_bytes()) {
        Some(size) => match nonneg_exec(size) {
            Some(n) => {
                let mut pairs = Vec::new();
                pairs.push((0usize, n));
                proof {
                    assert(pairs_view(pairs@) =~= seq![(0int, n as int)]);
                }
                Ok(pairs)
            },
            None => Err(invalid_input("xref stream /Size is out of range")),
        },
        None => Err(invalid_input("xref stream requires /Size when /Index is absent")),
    }
}

/// Pairs of `usize` as pairs of integers.
pub open spec fn pairs_view(v: Seq<(usize, usize)>) -> Seq<(int, int)> {
    v.map_values(|x: (usize, usize)| (x.0 as int, x.1 as int))
}

/// Big-endian value of a byte string.
pub open spec fn be_value(b: Seq<u8>) -> nat
    decreases b.len(),
{
    if b.len() == 0 {
        0
    } else {
        be_value(b.drop_last()) * 256 + b.last() as nat
    }
}

proof fn lemma_be_mono(b: Seq<u8>, k: int)
    requires
        0 <= k <= b.len(),
    ensures
        be_value(b.take(k)) <= be_value(b),
    decreases b.len() - k,
{
    if k < b.len() {
        lemma_be_mono(b, k + 1);
        assert(b.take(k + 1).drop_last() =~= b.take(k));
    } else {
        assert(b.take(k) =~= b);
    }
}

/// A field of `width` bytes at `pos`, big-endian; `dflt` when the width is
/// zero. `None` when the value does not fit in `usize`.
pub open spec fn field_at(s: Seq<u8>, pos: int, width: int, dflt: int) -> Option<int> {
    if width == 0 {
        Some(dflt)
    } else {
        let v = be_value(s.subrange(pos, pos + width));
        if v <= usize::MAX {
            Some(v as int)
        } else {
            None
        }
    }
}

fn read_xref_stream_field(bytes: &[u8], pos: usize, width: usize, dflt: usize) -> (r: Result<usize, PdfDiffError>)
    requires
        pos + width <= bytes.len(),
    ensures
        match field_at(bytes@, pos as int, width as int, dflt as int) {
            Some(v) => r == Ok::<usize, PdfDiffError>(v as usize),
            None => r matches Err(e) && e is InvalidInput,
        },
{
    if width == 0 {
        return Ok(dflt);
    }
    let ghost f = bytes@.subrange(pos as int, pos + width);
    let mut value: usize = 0;
    let mut i: usize = 0;
    while i < width
        invariant
            pos + width <= bytes.len(),
            f == bytes@.subrange(pos as int, pos + width),
            i <= width,
            value == be_value(f.take(i as int)),
        decreases width - i,
    {
        proof {
            assert(f.take(i + 1).drop_last() =~= f.take(i as int));
            assert(f.take(i + 1).last() == bytes@[pos + i]);
        }
        let byte = bytes[pos + i];
        match value.checked_mul(256) {
            Some(m) => match m.checked_add(byte as usize) {
                Some(n) => {
                    value = n;
                },
                None => {
                    proof {
                        lemma_be_mono(f, i + 1);
                    }
                    return Err(invalid_input("xref stream field overflow"));
                },
            },
            None => {
                proof {
                    lemma_be_mono(f, i + 1);
                }
                return Err(invalid_input("xref stream field overflow"));
            },
        }
        i += 1;
    }
    proof {
        assert(f.take(width as int) =~= f);
    }
    Ok(value)
}

/// The entry at `pos` for object `number` under field widths `w`.
pub open spec fn stream_entry(s: Seq<u8>, pos: int, w: (int, int, int), number: int) -> Option<XrefEntry> {
    match (field_at(s, pos, w.0, 1), field_at(s, pos + w.0, w.1, 0), field_at(s, pos + w.0 + w.1, w.2, 0)) {
        (Some(t), Some(f2), Some(f3)) => if number > u32::MAX {
            None
        } else if t == 0 {
            if f3 <= u16::MAX {
                Some(XrefEntry {
                    object_id: ObjectId { number: number as u32, generation: f3 as u16 },
                    byte_offset: 0,
                    in_use: false,
                    kind: XrefEntryKind::Free,
                })
            } else {
                None
            }
        } else if t == 1 {
            if f3 <= u16::MAX {
                Some(XrefEntry {
                    object_id: ObjectId { number: number as u32, generation: f3 as u16 },
                    byte_offset: f2 as usize,
                    in_use: true,
                    kind: XrefEntryKind::InUse,
                })
            } else {
                None
            }
        } else if t == 2 {
            if f2 <= u32::MAX {
                Some(XrefEntry {
                    object_id: ObjectId { number: number as u32, generation: 0 },
                    byte_offset: 0,
                    in_use: true,
                    kind: XrefEntryKind::Compressed {
                        object_stream: ObjectId { number: f2 as u32, generation: 0 },
                        object_index: f3 as usize,
                    },
                })
            } else {
                None
            }
        } else {
            None
        },
        _ => None,
    }
}

/// The object numbers that the subsections cover, in order.
pub open spec fn object_numbers(indices: Seq<(int, int)>) -> Seq<int>
    decreases indices.len(),
{
    if indices.len() == 0 {
        Seq::empty()
    } else {
        let last = indices.last();
        object_numbers(indices.drop_last()) + Seq::new(
            (if last.1 >= 0 { last.1 } else { 0 }) as nat,
            |t: int| last.0 + t,
        )
    }
}

/// Total number of objects the subsections cover.
pub open spec fn count_sum(indices: Seq<(int, int)>) -> int
    decreases indices.len(),
{
    if indices.len() == 0 {
        0
    } else {
        count_sum(indices.drop_last()) + (if indices.last().1 >= 0 { indices.last().1 } else { 0 })
    }
}

proof fn lemma_numbers_len(indices: Seq<(int, int)>)
    ensures
        object_numbers(indices).len() == count_sum(indices),
        count_sum(indices) >= 0,
    decreases indices.len(),
{
    if indices.len() > 0 {
        lemma_numbers_len(indices.drop_last());
    }
}

proof fn lemma_numbers_index(indices: Seq<(int, int)>, k: int, local: int)
    requires
        0 <= k < indices.len(),
        0 <= local < indices[k].1,
    ensures
        0 <= count_sum(indices.take(k)) + local < object_numbers(indices).len(),
        object_numbers(indices)[count_sum(indices.take(k)) + local] == indices[k].0 + local,
    decreases indices.len(),
{
    let p = indices.drop_last();
    lemma_numbers_len(indices);
    lemma_numbers_len(p);
    if k == indices.len() - 1 {
        assert(indices.take(k) =~= p);
    } else {
        lemma_numbers_index(p, k, local);
        assert(p.take(k) =~= indices.take(k));
    }
}

proof fn lemma_count_sum_step(indices: Seq<(int, int)>, k: int)
    requires
        0 <= k < indices.len(),
    ensures
        count_sum(indices.take(k + 1)) == count_sum(indices.take(k)) + (if indices[k].1 >= 0 {
            indices[k].1
        } else {
            0
        }),
{
    assert(indices.take(k + 1).drop_last() =~= indices.take(k));
}

/// The entries of an xref stream's data `s` under widths `w` and
/// subsections `indices`.
pub open spec fn stream_entries_spec(s: Seq<u8>, w: (int, int, int), indices: Seq<(int, int)>, max_objects: int) -> Result<Seq<XrefEntry>, Failure> {
    let width = w.0 + w.1 + w.2;
    let nums = object_numbers(indices);
    let n = count_sum(indices);
    if width == 0 || width > usize::MAX || n > usize::MAX {
        Err(Failure::Invalid)
    } else if n > max_objects {
        Err(Failure::Limit("RESOURCE_LIMIT_OBJECT_COUNT"@))
    } else if n * width > usize::MAX || s.len() < n * width {
        Err(Failure::Invalid)
    } else if forall|j: int| 0 <= j < n ==> #[trigger] stream_entry(s, j * width, w, nums[j]) is Some {
        Ok(Seq::new(n as nat, |j: int| stream_entry(s, j * width, w, nums[j]).unwrap()))
    } else {
        Err(Failure::Invalid)
    }
}

fn object_count_error(count: usize, limit: usize) -> (e: PdfDiffError)
    ensures
        is_limit_error(e, "RESOURCE_LIMIT_OBJECT_COUNT"@),
{
    let a = crate::fmt::usize_to_string(count);
    let b = crate::fmt::usize_to_string(limit);
    let detail = crate::fmt::concat(&["xref has ", a.as_str(), " entries, limit is ", b.as_str()]);
    limit_error("RESOURCE_LIMIT_OBJECT_COUNT", detail.as_str())
}

fn read_stream_entry(bytes: &[u8], pos: usize, widths: (usize, usize, usize), first: usize, local: usize) -> (r: Result<XrefEntry, PdfDiffError>)
    requires
        pos + widths.0 + widths.1 + widths.2 <= bytes.len(),
    ensures
        match stream_entry(bytes@, pos as int, (widths.0 as int, widths.1 as int, widths.2 as int), first + local) {
            Some(e) => r == Ok::<XrefEntry, PdfDiffError>(e),
            None => r matches Err(e) && e is InvalidInput,
        },
{
    let kind = read_xref_stream_field(bytes, pos, widths.0, 1)?;
    let field_2 = read_xref_stream_field(bytes, pos + widths.0, widths.1, 0)?;
    let field_3 = read_xref_stream_field(bytes, pos + widths.0 + widths.1, widths.2, 0)?;
    if first > 0xffff_ffffusize || local > 0xffff_ffffusize - first {
        return Err(invalid_input("xref stream object number is out of range"));
    }
    let number = (first + local) as u32;
    if kind == 0 {
        if field_3 > 0xffffusize {
            return Err(invalid_input("xref stream generation is out of range"));
        }
        Ok(XrefEntry {
            object_id: ObjectId { number, generation: field_3 as u16 },
            byte_offset: 0,
            in_use: false,
            kind: XrefEntryKind::Free,
        })
    } else if kind == 1 {
        if field_3 > 0xffffusize {
            return Err(invalid_input("xref stream generation is out of range"));
        }
        Ok(XrefEntry {
            object_id: ObjectId { number, generation: field_3 as u16 },
            byte_offset: field_2,
            in_use: true,
            kind: XrefEntryKind::InUse,
        })
    } else if kind == 2 {
        if field_2 > 0xffff_ffffusize {
            return Err(invalid_input("xref stream object-stream number is out of range"));
        }
        Ok(XrefEntry {
            object_id: ObjectId { number, generation: 0 },
            byte_offset: 0,
            in_use: true,
            kind: XrefEntryKind::Compressed {
                object_stream: ObjectId { number: field_2 as u32, generation: 0 },
                object_index: field_3,
            },
        })
    } else {
        Err(invalid_input("unsupported xref stream entry type"))
    }
}

/// Decodes the entries of an xref stream.
pub fn parse_xref_stream_entries(
    bytes: &[u8],
    widths: (usize, usize, usize),
    indices: &Vec<(usize, usize)>,
    limits: ResourceLimits,
) -> (r: Result<Vec<XrefEntry>, PdfDiffError>)
    ensures
        match stream_entries_spec(
            bytes@,
            (widths.0 as int, widths.1 as int, widths.2 as int),
            pairs_view(indices@),
            limits.max_objects as int,
        ) {
            Ok(es) => r matches Ok(v) && v@ == es,
            Err(f) => r matches Err(e) && failure_is(f, e),
        },
{
    let ghost ind = pairs_view(indices@);
    let ghost w = (widths.0 as int, widths.1 as int, widths.2 as int);
    let ghost nums = object_numbers(ind);
    proof {
        lemma_numbers_len(ind);
    }
    if widths.0 > usize::MAX - widths.1 || widths.0 + widths.1 > usize::MAX - widths.2 {
        return Err(invalid_input("xref stream entry width is too large"));
    }
    let width = widths.0 + widths.1 + widths.2;
    if width == 0 {
        return Err(invalid_input("xref stream entry width is zero"));
    }
    let mut total: usize = 0;
    let mut k: usize = 0;
    while k < indices.len()
        invariant
            k <= indices.len(),
            ind == pairs_view(indices@),
            total == count_sum(ind.take(k as int)),
        decreases indices.len() - k,
    {
        proof {
            lemma_count_sum_step(ind, k as int);
        }
        let count = indices[k].1;
        if total > usize::MAX - count {
            proof {
                lemma_count_sum_mono(ind, k + 1);
            }
            return Err(invalid_input("xref stream entry count overflow"));
        }
        total = total + count;
        k += 1;
    }
    proof {
        assert(ind.take(indices.len() as int) =~= ind);
    }
    if total > limits.max_objects {
        return Err(object_count_error(total, limits.max_objects));
    }
    if total > 0 && width > usize::MAX / total {
        proof {
            assert(total * width > usize::MAX) by (nonlinear_arith)
                requires
                    total > 0,
                    width > usize::MAX / total,
            ;
        }
        return Err(invalid_input("xref stream byte count overflow"));
    }
    proof {
        assert(total * width <= usize::MAX) by (nonlinear_arith)
            requires
                total == 0 || width <= usize::MAX / total,
        ;
    }
    if bytes.len() < total * width {
        return Err(invalid_input("xref stream is shorter than /W and /Index require"));
    }
    let mut entries: Vec<XrefEntry> = Vec::new();
    let mut done: usize = 0;
    let mut k: usize = 0;
    while k < indices.len()
        invariant
            k <= indices.len(),
            ind == pairs_view(indices@),
            nums == object_numbers(ind),
            nums.len() == total,
            total == count_sum(ind),
            total <= limits.max_objects,
            w == (widths.0 as int, widths.1 as int, widths.2 as int),
            width == widths.0 + widths.1 + widths.2,
            width > 0,
            total * width <= bytes.len(),
            done == count_sum(ind.take(k as int)),
            done <= total,
            entries@.len() == done,
            forall|j: int| 0 <= j < done ==> #[trigger] stream_entry(bytes@, j * width, w, nums[j]) is Some
                && entries@[j] == stream_entry(bytes@, j * width, w, nums[j]).unwrap(),
        decreases indices.len() - k,
    {
        let (first, count) = indices[k];
        let mut local: usize = 0;
        proof {
            lemma_count_sum_step(ind, k as int);
            lemma_count_sum_mono(ind, k + 1);
            assert(ind.take(indices.len() as int) =~= ind);
        }
        while local < count
            invariant
                k < indices.len(),
                ind == pairs_view(indices@),
                (first, count) == indices@[k as int],
                nums == object_numbers(ind),
                nums.len() == total,
                total == count_sum(ind),
                total <= limits.max_objects,
                w == (widths.0 as int, widths.1 as int, widths.2 as int),
                width == widths.0 + widths.1 + widths.2,
                width > 0,
                total * width <= bytes.len(),
                local <= count,
                count_sum(ind.take(k as int)) + count <= total,
                done == count_sum(ind.take(k as int)) + local,
                entries@.len() == done,
                forall|j: int| 0 <= j < done ==> #[trigger] stream_entry(bytes@, j * width, w, nums[j]) is Some
                    && entries@[j] == stream_entry(bytes@, j * width, w, nums[j]).unwrap(),
            decreases count - local,
        {
            proof {
                lemma_numbers_index(ind, k as int, local as int);
                assert((done + 1) * width <= total * width) by (nonlinear_arith)
                    requires
                        done + 1 <= total,
                        width > 0,
                ;
                assert((done + 1) * width == done * width + width) by (nonlinear_arith);
            }
            let pos = done * width;
            assert(nums[done as int] == first + local);
            let entry = match read_stream_entry(bytes, pos, widths, first, local) {
                Ok(e) => e,
                Err(e) => {
                    assert(stream_entry(bytes@, done * width, w, nums[done as int]) is None);
                    return Err(e);
                },
            };
            entries.push(entry);
            done += 1;
            local += 1;
        }
        k += 1;
    }
    proof {
        assert(ind.take(indices.len() as int) =~= ind);
        assert(entries@ =~= Seq::new(total as nat, |j: int| stream_entry(bytes@, j * width, w, nums[j]).unwrap()));
    }
    Ok(entries)
}

proof fn lemma_count_sum_mono(indices: Seq<(int, int)>, k: int)
    requires
        0 <= k <= indices.len(),
    ensures
        0 <= count_sum(indices.take(k)) <= count_sum(indices),
    decreases indices.len() - k,
{
    if k < indices.len() {
        lemma_count_sum_mono(indices, k + 1);
        lemma_count_sum_step(indices, k);
    } else {
        assert(indices.take(k) =~= indices);
    }
    lemma_count_sum_nonneg(indices.take(k));
}

proof fn lemma_count_sum_nonneg(indices: Seq<(int, int)>)
    ensures
        count_sum(indices) >= 0,
    decreases indices.len(),
{
    if indices.len() > 0 {
        lemma_count_sum_nonneg(indices.drop_last());
    }
}

/// The offset written after the last `startxref` keyword.
pub open spec fn startxref_spec(s: Seq<u8>) -> Option<int> {
    match find_last_before(s, s.len() as int, utf8("startxref")) {
        None => None,
        Some(m) => match usize_at(s, skip_ws_from(s, m + 9)) {
            Some((v, _)) => Some(v),
            None => None,
        },
    }
}

proof fn lemma_find_last_before(s: Seq<u8>, end: int, k: Seq<u8>)
    ensures
        find_last_before(s, end, k) matches Some(i) ==> 0 <= i < end && matches_at(s, i, k),
    decreases end,
{
    if end > 0 {
        lemma_find_last_before(s, end - 1, k);
    }
}

/// Reads the offset after the last `startxref`.
pub fn locate_startxref(bytes: &[u8]) -> (r: Result<usize, PdfDiffError>)
    ensures
        match startxref_spec(bytes@) {
            Some(v) => r == Ok::<usize, PdfDiffError>(v as usize),
            None => r matches Err(e) && e is InvalidInput,
        },
{
    proof {
        reveal_strlit("startxref");
        crate::utf8text::lemma_ascii_utf8("startxref");
        lemma_find_last_before(bytes@, bytes@.len() as int, utf8("startxref"));
    }
    let kw = "startxref".as_bytes();
    let marker = match find_last_keyword(bytes, kw) {
        Some(m) => m,
        None => return Err(invalid_input("PDF is missing startxref marker")),
    };
    let j = skip_ascii_whitespace_bytes(bytes, marker + 9);
    proof {
        lemma_skip_ws_bounds(bytes@, marker + 9);
    }
    let (offset, _) = read_usize(bytes, j)?;
    Ok(offset)
}

/// Entries and trailer of a classic table that starts at `start`.
pub open spec fn classic_xref_spec(s: Seq<u8>, start: int, limits: ResourceLimits) -> Result<(Seq<XrefEntry>, PrimitiveView), Failure> {
    if !matches_at(s, start, utf8("xref")) {
        Err(Failure::Invalid)
    } else {
        match sections_spec(s, start + 4, Seq::empty()) {
            None => Err(Failure::Invalid),
            Some((entries, after)) => if entries.len() > limits.max_objects {
                Err(Failure::Limit("RESOURCE_LIMIT_OBJECT_COUNT"@))
            } else {
                let ts = skip_ws_from(s, after);
                match find_from(s, ts, utf8("startxref")) {
                    None => Err(Failure::Invalid),
                    Some(m) => match primitive_spec(s.subrange(ts, m), limits.max_indirect_depth as int) {
                        Err(f) => Err(from_parse_fail(f)),
                        Ok((v, _, _)) => Ok((entries, v)),
                    },
                }
            },
        }
    }
}

/// Entries and dictionary of an `/XRef` stream object at `start`.
pub open spec fn xref_stream_spec(s: Seq<u8>, start: int, limits: ResourceLimits) -> Result<(Seq<XrefEntry>, PrimitiveView), Failure> {
    match find_from(s, start, utf8("endobj")) {
        None => Err(Failure::Invalid),
        Some(e) => match indirect_object_spec(s.subrange(start, e + 6), limits) {
            Err(f) => Err(f),
            Ok(o) => if !(o.value is Dictionary) || !has_name(o.value, utf8("Type"), utf8("XRef")) {
                Err(Failure::Invalid)
            } else {
                match o.stream {
                    None => Err(Failure::Invalid),
                    Some(st) => if !st.decoded {
                        Err(Failure::Invalid)
                    } else {
                        match widths_spec(o.value) {
                            None => Err(Failure::Invalid),
                            Some(w) => match indices_spec(o.value) {
                                None => Err(Failure::Invalid),
                                Some(ind) => match stream_entries_spec(st.bytes, w, ind, limits.max_objects as int) {
                                    Err(f) => Err(f),
                                    Ok(entries) => Ok((entries, o.value)),
                                },
                            },
                        }
                    },
                }
            },
        },
    }
}

/// The cross-reference data of a file: where it starts, its entries and its
/// trailer.
pub open spec fn xref_table_spec(s: Seq<u8>, limits: ResourceLimits) -> Result<(int, Seq<XrefEntry>, PrimitiveView), Failure> {
    match startxref_spec(s) {
        None => Err(Failure::Invalid),
        Some(start) => {
            let found = if start <= s.len() && !matches_at(s, start, utf8("xref")) {
                xref_stream_spec(s, start, limits)
            } else {
                classic_xref_spec(s, start, limits)
            };
            match found {
                Err(f) => Err(f),
                Ok((entries, trailer)) => Ok((start, entries, trailer)),
            }
        },
    }
}

fn parse_xref_stream_at(bytes: &[u8], start_offset: usize, config: ParseConfig) -> (r: Result<XrefTable, PdfDiffError>)
    requires
        start_offset <= bytes.len(),
        bytes.len() <= config.limits.max_file_bytes,
    ensures
        match xref_stream_spec(bytes@, start_offset as int, config.limits) {
            Ok((entries, trailer)) => r matches Ok(t) && t.start_offset == start_offset && t.entries@
                == entries && t.trailer.deep() == trailer,
            Err(f) => r matches Err(e) && failure_is(f, e),
        },
{
    proof {
        reveal_strlit("endobj");
        crate::utf8text::lemma_ascii_utf8("endobj");
        lemma_find_from_props(bytes@, start_offset as int, utf8("endobj"));
    }
    let end_kw = "endobj".as_bytes();
    let object_end = match find_keyword(bytes, start_offset, end_kw) {
        Some(e) => e + 6,
        None => return Err(invalid_input("xref stream object is missing endobj")),
    };
    let object_bytes = slice_range(bytes, start_offset, object_end);
    let object = parse_indirect_object(object_bytes.as_slice(), config)?;
    if !matches!(object.value, PdfPrimitive::Dictionary(_)) {
        return Err(invalid_input("xref stream object value must be a dictionary"));
    }
    if !dictionary_has_name(&object.value, "Type".as_bytes(), "XRef".as_bytes()) {
        return Err(invalid_input("startxref does not point to a classic xref table or /XRef stream"));
    }
    let stream = match object.stream {
        Some(st) => st,
        None => return Err(invalid_input("xref stream object does not contain a stream")),
    };
    if !stream.decoded {
        return Err(invalid_input("xref stream could not be decoded"));
    }
    let widths = xref_stream_widths(&object.value)?;
    let indices = xref_stream_indices(&object.value)?;
    let entries = parse_xref_stream_entries(stream.bytes.as_slice(), widths, &indices, config.limits)?;
    Ok(XrefTable { start_offset, entries, trailer: object.value })
}

/// Reads the cross-reference data that the last `startxref` points to: a
/// classic `xref` table with its trailer, or an `/XRef` stream.
pub fn parse_xref_table(bytes: &[u8], config: ParseConfig) -> (r: Result<XrefTable, PdfDiffError>)
    ensures
        bytes@.len() > config.limits.max_file_bytes ==> (r matches Err(e) && e is ResourceLimitExceeded),
        bytes@.len() <= config.limits.max_file_bytes
            ==> match xref_table_spec(bytes@, config.limits) {
            Ok((start, entries, trailer)) => r matches Ok(t) && t.start_offset == start && t.entries@
                == entries && t.trailer.deep() == trailer,
            Err(f) => r matches Err(e) && failure_is(f, e),
        },
{
    config.limits.check_file_size(bytes.len())?;
    let start_offset = locate_startxref(bytes)?;
    let xref_kw = "xref".as_bytes();
    proof {
        reveal_strlit("xref");
        crate::utf8text::lemma_ascii_utf8("xref");
    }
    if start_offset <= bytes.len() && !byte_matches_at(bytes, start_offset, xref_kw) {
        return parse_xref_stream_at(bytes, start_offset, config);
    }
    if !byte_matches_at(bytes, start_offset, xref_kw) {
        return Err(invalid_input("expected keyword xref"));
    }
    let (entries, after) = read_sections(bytes, start_offset + 4)?;
    if entries.len() > config.limits.max_objects {
        return Err(object_count_error(entries.len(), config.limits.max_objects));
    }
    let trailer_start = skip_ascii_whitespace_bytes(bytes, after);
    proof {
        lemma_skip_ws_bounds(bytes@, after as int);
        reveal_strlit("startxref");
        crate::utf8text::lemma_ascii_utf8("startxref");
        lemma_find_from_props(bytes@, trailer_start as int, utf8("startxref"));
    }
    let marker = match find_keyword(bytes, trailer_start, "startxref".as_bytes()) {
        Some(m) => m,
        None => return Err(invalid_input("xref trailer is missing startxref marker")),
    };
    let trailer_bytes = slice_range(bytes, trailer_start, marker);
    let trailer = parse_primitive(trailer_bytes.as_slice(), config)?.value;
    Ok(XrefTable { start_offset, entries, trailer })
}

} // verus!
