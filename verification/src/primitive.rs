//! PDF primitive values (null, booleans, numbers, names, strings, arrays,
//! dictionaries and indirect references) and their parser.
use vstd::prelude::*;
use crate::types::{ObjectId, ByteRange, ParseConfig, PdfDiffError, is_limit_error, invalid_input, limit_error};
use crate::bytes::is_digit;
use crate::bytes::{is_ws, is_ascii_whitespace};
use crate::lexer::{is_delim_ws, hex_val, hex_value, skip_wc, word_end, lemma_skip_wc_bounds, lemma_skip_wc_idem, number_token, NumericView, Numeric, parse_number_token, is_delimiter_or_whitespace, skip_whitespace_and_comments, read_word};
use crate::utf8text::{lossy_bytes, lossy_utf8_bytes};

verus! {

/// A parsed PDF primitive. Names hold the UTF-8 bytes of their lossily
/// decoded text; a real number holds its decimal token exactly as written.
#[derive(Debug)]
pub enum PdfPrimitive {
    Null,
    Boolean(bool),
    Integer(i64),
    Real(Vec<u8>),
    Name(Vec<u8>),
    LiteralString(Vec<u8>),
    HexString(Vec<u8>),
    Array(Vec<PdfPrimitive>),
    Dictionary(Vec<(Vec<u8>, PdfPrimitive)>),
    Reference(ObjectId),
}

/// Mathematical model of a primitive.
pub enum PrimitiveView {
    Null,
    Boolean(bool),
    Integer(i64),
    Real(Seq<u8>),
    Name(Seq<u8>),
    LiteralString(Seq<u8>),
    HexString(Seq<u8>),
    Array(Seq<PrimitiveView>),
    Dictionary(Seq<(Seq<u8>, PrimitiveView)>),
    Reference(ObjectId),
}

impl PdfPrimitive {
    pub open spec fn deep(self) -> PrimitiveView
        decreases self,
    {
        match self {
            PdfPrimitive::Null => PrimitiveView::Null,
            PdfPrimitive::Boolean(b) => PrimitiveView::Boolean(b),
            PdfPrimitive::Integer(v) => PrimitiveView::Integer(v),
            PdfPrimitive::Real(t) => PrimitiveView::Real(t@),
            PdfPrimitive::Name(n) => PrimitiveView::Name(n@),
            PdfPrimitive::LiteralString(b) => PrimitiveView::LiteralString(b@),
            PdfPrimitive::HexString(b) => PrimitiveView::HexString(b@),
            PdfPrimitive::Array(items) => PrimitiveView::Array(deep_seq(items@)),
            PdfPrimitive::Dictionary(entries) => PrimitiveView::Dictionary(deep_entries(entries@)),
            PdfPrimitive::Reference(id) => PrimitiveView::Reference(id),
        }
    }
}

pub open spec fn deep_seq(s: Seq<PdfPrimitive>) -> Seq<PrimitiveView>
    decreases s,
{
    if s.len() == 0 {
        Seq::empty()
    } else {
        deep_seq(s.drop_last()).push(s.last().deep())
    }
}

pub open spec fn deep_entries(s: Seq<(Vec<u8>, PdfPrimitive)>) -> Seq<(Seq<u8>, PrimitiveView)>
    decreases s,
{
    if s.len() == 0 {
        Seq::empty()
    } else {
        deep_entries(s.drop_last()).push((s.last().0@, s.last().1.deep()))
    }
}

} // verus!

verus! {

// ---------------------------------------------------------------------------
// Grammar of primitives, as spec functions over the input bytes.

/// Why a primitive could not be read.
pub enum ParseFail {
    /// Nesting went deeper than the configured limit.
    Depth,
    /// The bytes are not a primitive.
    Invalid,
}

/// Reads the body of a name that starts at `i` (just after the `/`),
/// decoding `#xx` escapes.
pub open spec fn name_scan(s: Seq<u8>, i: int, acc: Seq<u8>) -> Option<(Seq<u8>, int)>
    decreases s.len() - i,
{
    if i < 0 || i >= s.len() || is_delim_ws(s[i]) {
        Some((acc, i))
    } else if s[i] == 0x23u8 {
        if i + 2 < s.len() && hex_val(s[i + 1]) is Some && hex_val(s[i + 2]) is Some {
            name_scan(
                s,
                i + 3,
                acc.push((hex_val(s[i + 1]).unwrap() * 16 + hex_val(s[i + 2]).unwrap()) as u8),
            )
        } else {
            None
        }
    } else {
        name_scan(s, i + 1, acc.push(s[i]))
    }
}

/// A name at `i`: its (lossily decoded) bytes and the index after it.
pub open spec fn name_spec(s: Seq<u8>, i: int) -> Option<(Seq<u8>, int)> {
    if 0 <= i < s.len() && s[i] == 0x2fu8 {
        match name_scan(s, i + 1, Seq::empty()) {
            Some((raw, e)) => if raw.len() == 0 {
                None
            } else {
                Some((lossy_bytes(raw), e))
            },
            None => None,
        }
    } else {
        None
    }
}

pub open spec fn sat_u8(v: int) -> u8 {
    if v > 255 {
        255
    } else {
        v as u8
    }
}

pub open spec fn is_octal(b: u8) -> bool {
    0x30u8 <= b && b <= 0x37u8
}

/// Reads up to `n` further octal digits of an escape, saturating at 255.
pub open spec fn octal_escape(s: Seq<u8>, k: int, v: u8, n: nat) -> (u8, int)
    decreases n,
{
    if n == 0 {
        (v, k)
    } else if 0 <= k < s.len() && is_octal(s[k]) {
        octal_escape(s, k + 1, sat_u8(sat_u8(v * 8) + (s[k] - 0x30u8)), (n - 1) as nat)
    } else {
        (v, k)
    }
}

pub proof fn lemma_octal_escape(s: Seq<u8>, k: int, v: u8, n: nat)
    requires
        0 <= k <= s.len(),
    ensures
        k <= octal_escape(s, k, v, n).1 <= k + n,
        octal_escape(s, k, v, n).1 <= s.len(),
    decreases n,
{
    if n > 0 && k < s.len() && is_octal(s[k]) {
        lemma_octal_escape(s, k + 1, sat_u8(sat_u8(v * 8) + (s[k] - 0x30u8)), (n - 1) as nat);
    }
}

/// Reads a literal string body from `i` (just after the opening
/// parenthesis) with `depth` unclosed parentheses.
pub open spec fn lit_scan(s: Seq<u8>, i: int, depth: nat, acc: Seq<u8>) -> Option<(Seq<u8>, int)>
    decreases s.len() - i,
{
    if i < 0 || i >= s.len() {
        None
    } else if s[i] == 0x5cu8 {
        if i + 1 >= s.len() {
            None
        } else {
            let e = s[i + 1];
            if e == 0x6eu8 {
                lit_scan(s, i + 2, depth, acc.push(0x0au8))
            } else if e == 0x72u8 {
                lit_scan(s, i + 2, depth, acc.push(0x0du8))
            } else if e == 0x74u8 {
                lit_scan(s, i + 2, depth, acc.push(0x09u8))
            } else if e == 0x62u8 {
                lit_scan(s, i + 2, depth, acc.push(0x08u8))
            } else if e == 0x66u8 {
                lit_scan(s, i + 2, depth, acc.push(0x0cu8))
            } else if e == 0x0au8 {
                lit_scan(s, i + 2, depth, acc)
            } else if e == 0x0du8 {
                if i + 2 < s.len() && s[i + 2] == 0x0au8 {
                    lit_scan(s, i + 3, depth, acc)
                } else {
                    lit_scan(s, i + 2, depth, acc)
                }
            } else if is_octal(e) {
                let r = octal_escape(s, i + 2, (e - 0x30u8) as u8, 2);
                proof {
                    lemma_octal_escape(s, i + 2, (e - 0x30u8) as u8, 2);
                }
                lit_scan(s, r.1, depth, acc.push(r.0))
            } else {
                lit_scan(s, i + 2, depth, acc.push(e))
            }
        }
    } else if s[i] == 0x28u8 {
        lit_scan(s, i + 1, depth + 1, acc.push(s[i]))
    } else if s[i] == 0x29u8 {
        if depth <= 1 {
            Some((acc, i + 1))
        } else {
            lit_scan(s, i + 1, (depth - 1) as nat, acc.push(s[i]))
        }
    } else {
        lit_scan(s, i + 1, depth, acc.push(s[i]))
    }
}

/// Packs hexadecimal nibbles pairwise into bytes.
pub open spec fn nibbles_to_bytes(n: Seq<u8>) -> Seq<u8>
    decreases n.len(),
{
    if n.len() < 2 {
        Seq::empty()
    } else {
        seq![(n[0] * 16 + n[1]) as u8] + nibbles_to_bytes(n.subrange(2, n.len() as int))
    }
}

/// Reads a hex string body from `i` (just after `<`).
pub open spec fn hex_scan(s: Seq<u8>, i: int, nib: Seq<u8>) -> Option<(Seq<u8>, int)>
    decreases s.len() - i,
{
    if i < 0 || i >= s.len() {
        None
    } else if s[i] == 0x3eu8 {
        Some((nibbles_to_bytes(if nib.len() % 2 == 1 { nib.push(0) } else { nib }), i + 1))
    } else if is_ws(s[i]) {
        hex_scan(s, i + 1, nib)
    } else {
        match hex_val(s[i]) {
            Some(n) => hex_scan(s, i + 1, nib.push(n)),
            None => None,
        }
    }
}

/// `true`, `false` or `null` at `j`.
pub open spec fn keyword_spec(s: Seq<u8>, j: int) -> Result<(PrimitiveView, int), ParseFail> {
    let e = word_end(s, j);
    let w = s.subrange(j, e);
    if w == seq![0x74u8, 0x72u8, 0x75u8, 0x65u8] {
        Ok((PrimitiveView::Boolean(true), e))
    } else if w == seq![0x66u8, 0x61u8, 0x6cu8, 0x73u8, 0x65u8] {
        Ok((PrimitiveView::Boolean(false), e))
    } else if w == seq![0x6eu8, 0x75u8, 0x6cu8, 0x6cu8] {
        Ok((PrimitiveView::Null, e))
    } else {
        Err(ParseFail::Invalid)
    }
}

/// A number at `j`, or an indirect reference `n g R` when an integer is
/// followed by a second integer and the keyword `R`.
pub open spec fn number_or_reference_spec(s: Seq<u8>, j: int) -> Result<(PrimitiveView, int), ParseFail> {
    let e1 = word_end(s, j);
    match number_token(s.subrange(j, e1)) {
        None => Err(ParseFail::Invalid),
        Some(NumericView::Real(t)) => Ok((PrimitiveView::Real(t), e1)),
        Some(NumericView::Integer(n)) => {
            let j2 = skip_wc(s, e1);
            let e2 = word_end(s, j2);
            let second = if e2 > j2 {
                match number_token(s.subrange(j2, e2)) {
                    Some(NumericView::Integer(g)) => Some(g),
                    _ => None,
                }
            } else {
                None
            };
            match second {
                Some(g) => {
                    let k = skip_wc(s, e2);
                    if k < s.len() && s[k] == 0x52u8 && (k + 1 >= s.len() || is_delim_ws(s[k + 1])) {
                        if 0 <= n <= u32::MAX && 0 <= g <= u16::MAX {
                            Ok((PrimitiveView::Reference(ObjectId { number: n as u32, generation: g as u16 }), k + 1))
                        } else {
                            Err(ParseFail::Invalid)
                        }
                    } else {
                        Ok((PrimitiveView::Integer(n), e1))
                    }
                },
                None => Ok((PrimitiveView::Integer(n), e1)),
            }
        },
    }
}

pub open spec fn starts_number(b: u8) -> bool {
    is_digit(b) || b == 0x2bu8 || b == 0x2du8 || b == 0x2eu8
}

pub open spec fn starts_keyword(b: u8) -> bool {
    b == 0x74u8 || b == 0x66u8 || b == 0x6eu8
}

/// A primitive starting at `i` (after optional whitespace and comments), at
/// nesting `depth`, with `limit` the deepest nesting allowed.
pub open spec fn value_spec(s: Seq<u8>, i: int, depth: int, limit: int) -> Result<(PrimitiveView, int), ParseFail>
    decreases limit - depth + 1, s.len() - i,
{
    if depth > limit {
        Err(ParseFail::Depth)
    } else if i < 0 || i > s.len() {
        Err(ParseFail::Invalid)
    } else {
        let j = skip_wc(s, i);
        proof {
            lemma_skip_wc_bounds(s, i);
        }
        if j >= s.len() {
            Err(ParseFail::Invalid)
        } else {
            let b = s[j];
            if b == 0x2fu8 {
                match name_spec(s, j) {
                    Some((n, e)) => Ok((PrimitiveView::Name(n), e)),
                    None => Err(ParseFail::Invalid),
                }
            } else if b == 0x28u8 {
                match lit_scan(s, j + 1, 1, Seq::empty()) {
                    Some((v, e)) => Ok((PrimitiveView::LiteralString(v), e)),
                    None => Err(ParseFail::Invalid),
                }
            } else if b == 0x5bu8 {
                match items_spec(s, j + 1, depth, limit) {
                    Ok((v, e)) => Ok((PrimitiveView::Array(v), e)),
                    Err(f) => Err(f),
                }
            } else if b == 0x3cu8 && j + 1 < s.len() && s[j + 1] == 0x3cu8 {
                match entries_spec(s, j + 2, depth, limit) {
                    Ok((v, e)) => Ok((PrimitiveView::Dictionary(v), e)),
                    Err(f) => Err(f),
                }
            } else if b == 0x3cu8 {
                match hex_scan(s, j + 1, Seq::empty()) {
                    Some((v, e)) => Ok((PrimitiveView::HexString(v), e)),
                    None => Err(ParseFail::Invalid),
                }
            } else if starts_keyword(b) {
                keyword_spec(s, j)
            } else if starts_number(b) {
                number_or_reference_spec(s, j)
            } else {
                Err(ParseFail::Invalid)
            }
        }
    }
}

/// Array elements from `i` up to and including the closing `]`.
pub open spec fn items_spec(s: Seq<u8>, i: int, depth: int, limit: int) -> Result<(Seq<PrimitiveView>, int), ParseFail>
    decreases limit - depth + 1, s.len() - i,
{
    if depth > limit || i < 0 || i > s.len() {
        Err(ParseFail::Invalid)
    } else {
        let j = skip_wc(s, i);
        proof {
            lemma_skip_wc_bounds(s, i);
        }
        if j >= s.len() {
            Err(ParseFail::Invalid)
        } else if s[j] == 0x5du8 {
            Ok((Seq::empty(), j + 1))
        } else {
            match value_spec(s, j, depth + 1, limit) {
                Err(f) => Err(f),
                Ok((v, e)) => if e <= i || e > s.len() {
                    Err(ParseFail::Invalid)
                } else {
                    match items_spec(s, e, depth, limit) {
                        Ok((rest, e2)) => Ok((seq![v] + rest, e2)),
                        Err(f) => Err(f),
                    }
                },
            }
        }
    }
}

/// Dictionary entries from `i` up to and including the closing `>>`.
pub open spec fn entries_spec(s: Seq<u8>, i: int, depth: int, limit: int) -> Result<(Seq<(Seq<u8>, PrimitiveView)>, int), ParseFail>
    decreases limit - depth + 1, s.len() - i,
{
    if depth > limit || i < 0 || i > s.len() {
        Err(ParseFail::Invalid)
    } else {
        let j = skip_wc(s, i);
        proof {
            lemma_skip_wc_bounds(s, i);
        }
        if j + 1 < s.len() && s[j] == 0x3eu8 && s[j + 1] == 0x3eu8 {
            Ok((Seq::empty(), j + 2))
        } else if j < s.len() && s[j] == 0x2fu8 {
            match name_spec(s, j) {
                None => Err(ParseFail::Invalid),
                Some((k, e1)) => match value_spec(s, e1, depth + 1, limit) {
                    Err(f) => Err(f),
                    Ok((v, e2)) => if e2 <= i || e2 > s.len() {
                        Err(ParseFail::Invalid)
                    } else {
                        match entries_spec(s, e2, depth, limit) {
                            Ok((rest, e3)) => Ok((seq![(k, v)] + rest, e3)),
                            Err(f) => Err(f),
                        }
                    },
                },
            }
        } else {
            Err(ParseFail::Invalid)
        }
    }
}

/// A complete primitive: value, the offset where it starts and where it
/// ends, with nothing but whitespace and comments after it.
pub open spec fn primitive_spec(s: Seq<u8>, limit: int) -> Result<(PrimitiveView, int, int), ParseFail> {
    let st = skip_wc(s, 0);
    match value_spec(s, st, 0, limit) {
        Err(f) => Err(f),
        Ok((v, e)) => if skip_wc(s, e) < s.len() {
            Err(ParseFail::Invalid)
        } else {
            Ok((v, st, e))
        },
    }
}

} // verus!

verus! {

// ---------------------------------------------------------------------------
// The parser.

/// `e` is the error that `f` stands for.
pub open spec fn fail_is(f: ParseFail, e: PdfDiffError) -> bool {
    match f {
        ParseFail::Depth => is_limit_error(e, "RESOURCE_LIMIT_RECURSION_DEPTH"@),
        ParseFail::Invalid => e is InvalidInput,
    }
}

pub fn bytes_equal(a: &[u8], b: &[u8]) -> (r: bool)
    ensures
        r == (a@ == b@),
{
    if a.len() != b.len() {
        return false;
    }
    let mut i: usize = 0;
    while i < a.len()
        invariant
            a.len() == b.len(),
            i <= a.len(),
            forall|j: int| 0 <= j < i ==> a@[j] == b@[j],
        decreases a.len() - i,
    {
        if a[i] != b[i] {
            return false;
        }
        i += 1;
    }
    proof {
        assert(a@ =~= b@);
    }
    true
}

fn next_hex_digit(bytes: &[u8], index: usize) -> (r: Result<u8, PdfDiffError>)
    ensures
        index < bytes@.len() && hex_val(bytes@[index as int]) is Some ==> r == Ok::<u8, PdfDiffError>(
            hex_val(bytes@[index as int]).unwrap(),
        ),
        !(index < bytes@.len() && hex_val(bytes@[index as int]) is Some) ==> (r matches Err(e)
            && e is InvalidInput),
        r matches Ok(v) ==> v < 16,
{
    if index >= bytes.len() {
        return Err(invalid_input("name hex escape is truncated"));
    }
    match hex_value(bytes[index]) {
        Some(v) => Ok(v),
        None => Err(invalid_input("name hex escape is invalid")),
    }
}

/// Reads a `/Name` at `index`.
pub fn parse_name(bytes: &[u8], index: usize) -> (r: Result<(Vec<u8>, usize), PdfDiffError>)
    requires
        index <= bytes@.len(),
    ensures
        match name_spec(bytes@, index as int) {
            Some((n, e)) => r matches Ok((v, i)) && v@ == n && i == e,
            None => r matches Err(e) && e is InvalidInput,
        },
        r matches Ok((v, i)) ==> index < i <= bytes@.len(),
{
    let ghost s = bytes@;
    let _len = bytes.len();
    if !(index < bytes.len() && bytes[index] == 0x2fu8) {
        return Err(invalid_input("expected a PDF name"));
    }
    let mut i = index + 1;
    let mut output: Vec<u8> = Vec::new();
    while i < bytes.len() && !is_delimiter_or_whitespace(bytes[i])
        invariant
            index < i <= bytes@.len(),
            bytes@[index as int] == 0x2fu8,
            name_scan(s, index + 1, Seq::empty()) == name_scan(s, i as int, output@),
            s == bytes@,
        decreases bytes@.len() - i,
    {
        let byte = bytes[i];
        if byte == 0x23u8 {
            let high = next_hex_digit(bytes, i + 1)?;
            let low = next_hex_digit(bytes, i + 2)?;
            output.push(high * 16 + low);
            i += 3;
        } else {
            output.push(byte);
            i += 1;
        }
    }
    if output.len() == 0 {
        return Err(invalid_input("PDF name is empty"));
    }
    Ok((lossy_utf8_bytes(output.as_slice()), i))
}

fn finish_octal_escape(bytes: &[u8], index: usize, first: u8) -> (r: (u8, usize))
    requires
        index <= bytes@.len(),
        is_octal(first),
    ensures
        (r.0, r.1 as int) == octal_escape(bytes@, index as int, (first - 0x30u8) as u8, 2),
        index <= r.1 <= bytes@.len(),
{
    let mut value = first - 0x30u8;
    let mut n: usize = 0;
    let mut i = index;
    while n < 2 && i < bytes.len() && is_octal_byte(bytes[i])
        invariant
            index <= i <= bytes@.len(),
            n <= 2,
            octal_escape(bytes@, index as int, (first - 0x30u8) as u8, 2)
                == octal_escape(bytes@, i as int, value, (2 - n) as nat),
        decreases 2 - n,
    {
        let d = bytes[i] - 0x30u8;
        i += 1;
        let m: u8 = if value > 31 { 255 } else { value * 8 };
        value = if (m as u16) + (d as u16) > 255 { 255 } else { m + d };
        n += 1;
    }
    (value, i)
}

/// Reads a `( ... )` literal string whose `(` is at `index`.
pub fn parse_literal_string(bytes: &[u8], index: usize) -> (r: Result<(Vec<u8>, usize), PdfDiffError>)
    requires
        index < bytes@.len(),
    ensures
        match lit_scan(bytes@, index + 1, 1, Seq::empty()) {
            Some((v, e)) => r matches Ok((o, i)) && o@ == v && i == e,
            None => r matches Err(e) && e is InvalidInput,
        },
        r matches Ok((v, i)) ==> index < i <= bytes@.len(),
{
    let ghost s = bytes@;
    let _len = bytes.len();
    let mut i = index + 1;
    let mut output: Vec<u8> = Vec::new();
    let mut depth: usize = 1;
    while i < bytes.len()
        invariant
            index < i <= bytes@.len(),
            1 <= depth <= i,
            s == bytes@,
            lit_scan(s, index + 1, 1, Seq::empty()) == lit_scan(s, i as int, depth as nat, output@),
        decreases bytes@.len() - i,
    {
        let byte = bytes[i];
        i += 1;
        if byte == 0x5cu8 {
            if i >= bytes.len() {
                return Err(invalid_input("unterminated literal string escape"));
            }
            let escaped = bytes[i];
            i += 1;
            if escaped == 0x6eu8 {
                output.push(0x0au8);
            } else if escaped == 0x72u8 {
                output.push(0x0du8);
            } else if escaped == 0x74u8 {
                output.push(0x09u8);
            } else if escaped == 0x62u8 {
                output.push(0x08u8);
            } else if escaped == 0x66u8 {
                output.push(0x0cu8);
            } else if escaped == 0x0au8 {
            } else if escaped == 0x0du8 {
                if i < bytes.len() && bytes[i] == 0x0au8 {
                    i += 1;
                }
            } else if is_octal_byte(escaped) {
                let (v, k) = finish_octal_escape(bytes, i, escaped);
                output.push(v);
                i = k;
            } else {
                output.push(escaped);
            }
        } else if byte == 0x28u8 {
            depth += 1;
            output.push(byte);
        } else if byte == 0x29u8 {
            depth -= 1;
            if depth == 0 {
                return Ok((output, i));
            }
            output.push(byte);
        } else {
            output.push(byte);
        }
    }
    Err(invalid_input("unterminated literal string"))
}

/// Reads a `< ... >` hex string whose `<` is at `index`.
pub fn parse_hex_string(bytes: &[u8], index: usize) -> (r: Result<(Vec<u8>, usize), PdfDiffError>)
    requires
        index < bytes@.len(),
    ensures
        match hex_scan(bytes@, index + 1, Seq::empty()) {
            Some((v, e)) => r matches Ok((o, i)) && o@ == v && i == e,
            None => r matches Err(e) && e is InvalidInput,
        },
        r matches Ok((v, i)) ==> index < i <= bytes@.len(),
{
    let ghost s = bytes@;
    let _len = bytes.len();
    let mut i = index + 1;
    let mut nibbles: Vec<u8> = Vec::new();
    while i < bytes.len()
        invariant
            index < i <= bytes@.len(),
            s == bytes@,
            hex_scan(s, index + 1, Seq::empty()) == hex_scan(s, i as int, nibbles@),
            forall|k: int| 0 <= k < nibbles@.len() ==> nibbles@[k] < 16,
        decreases bytes@.len() - i,
    {
        let byte = bytes[i];
        i += 1;
        if byte == 0x3eu8 {
            if nibbles.len() % 2 == 1 {
                nibbles.push(0);
            }
            return Ok((pack_nibbles(&nibbles), i));
        }
        if !is_ascii_whitespace(byte) {
            match hex_value(byte) {
                Some(n) => nibbles.push(n),
                None => {
                    return Err(invalid_input("invalid hex string digit"));
                },
            }
        }
    }
    Err(invalid_input("unterminated hex string"))
}

/// Reads `true`, `false` or `null` at `index`.
pub fn parse_keyword(bytes: &[u8], index: usize) -> (r: Result<(PdfPrimitive, usize), PdfDiffError>)
    requires
        index <= bytes@.len(),
    ensures
        match keyword_spec(bytes@, index as int) {
            Ok((v, e)) => r matches Ok((p, i)) && p.deep() == v && i == e,
            Err(f) => r matches Err(e) && fail_is(f, e),
        },
        r matches Ok((v, i)) ==> index < i <= bytes@.len(),
{
    let (word, e) = read_word(bytes, index);
    assert(word@.len() == e - index);
    if bytes_equal(word.as_slice(), &[0x74u8, 0x72u8, 0x75u8, 0x65u8]) {
        Ok((PdfPrimitive::Boolean(true), e))
    } else if bytes_equal(word.as_slice(), &[0x66u8, 0x61u8, 0x6cu8, 0x73u8, 0x65u8]) {
        Ok((PdfPrimitive::Boolean(false), e))
    } else if bytes_equal(word.as_slice(), &[0x6eu8, 0x75u8, 0x6cu8, 0x6cu8]) {
        Ok((PdfPrimitive::Null, e))
    } else {
        Err(invalid_input("unsupported primitive keyword"))
    }
}

/// Reads an integer word at `index`, if there is one.
fn try_read_integer_word(bytes: &[u8], index: usize) -> (r: Option<(i64, usize)>)
    requires
        index <= bytes@.len(),
    ensures
        ({
            let e = word_end(bytes@, index as int);
            match r {
                Some((g, i)) => e > index && i == e && i <= bytes@.len() && number_token(bytes@.subrange(index as int, e))
                    == Some(NumericView::Integer(g)),
                None => !(e > index && number_token(bytes@.subrange(index as int, e)) matches Some(
                    NumericView::Integer(_),
                )),
            }
        }),
{
    let (word, e) = read_word(bytes, index);
    if word.len() == 0 {
        return None;
    }
    match parse_number_token(word.as_slice()) {
        Some(Numeric::Integer(v)) => Some((v, e)),
        _ => None,
    }
}

/// Reads a number at `index`, or `n g R` as an indirect reference.
pub fn parse_number_or_reference(bytes: &[u8], index: usize) -> (r: Result<(PdfPrimitive, usize), PdfDiffError>)
    requires
        index <= bytes@.len(),
    ensures
        match number_or_reference_spec(bytes@, index as int) {
            Ok((v, e)) => r matches Ok((p, i)) && p.deep() == v && i == e,
            Err(f) => r matches Err(e) && fail_is(f, e),
        },
        r matches Ok((v, i)) ==> index < i <= bytes@.len(),
{
    let (first, after_first) = read_word(bytes, index);
    let first_number = match parse_number_token(first.as_slice()) {
        Some(n) => n,
        None => {
            return Err(invalid_input("invalid number"));
        },
    };
    match first_number {
        Numeric::Real(t) => Ok((PdfPrimitive::Real(t), after_first)),
        Numeric::Integer(number) => {
            let j = skip_whitespace_and_comments(bytes, after_first);
            if let Some((second, e2)) = try_read_integer_word(bytes, j) {
                let k = skip_whitespace_and_comments(bytes, e2);
                if k < bytes.len() && bytes[k] == 0x52u8 && (k + 1 >= bytes.len() || is_delimiter_or_whitespace(bytes[k + 1])) {
                    if number < 0 || number > 4294967295i64 {
                        return Err(invalid_input("reference object number is out of range"));
                    }
                    if second < 0 || second > 65535i64 {
                        return Err(invalid_input("reference generation number is out of range"));
                    }
                    return Ok((PdfPrimitive::Reference(ObjectId { number: number as u32, generation: second as u16 }), k + 1));
                }
            }
            Ok((PdfPrimitive::Integer(number), after_first))
        },
    }
}

/// Reads any primitive at `index` (after optional whitespace and comments)
/// at nesting `depth`; `limit` is the deepest nesting allowed.
pub fn parse_value(bytes: &[u8], index: usize, depth: usize, limit: usize) -> (r: Result<(PdfPrimitive, usize), PdfDiffError>)
    requires
        index <= bytes@.len(),
        depth <= index,
    ensures
        match value_spec(bytes@, index as int, depth as int, limit as int) {
            Ok((v, e)) => r matches Ok((p, i)) && p.deep() == v && i == e,
            Err(f) => r matches Err(e) && fail_is(f, e),
        },
        r matches Ok((v, i)) ==> index < i <= bytes@.len(),
    decreases limit - depth + 1, 1int,
{
    if depth > limit {
        let l = crate::fmt::usize_to_string(limit);
        let detail = crate::fmt::concat2("primitive nesting depth exceeds limit of ", l.as_str());
        return Err(limit_error("RESOURCE_LIMIT_RECURSION_DEPTH", detail.as_str()));
    }
    let j = skip_whitespace_and_comments(bytes, index);
    if j >= bytes.len() {
        return Err(invalid_input("expected PDF primitive, found end of input"));
    }
    let b = bytes[j];
    if b == 0x2fu8 {
        let (n, e) = parse_name(bytes, j)?;
        Ok((PdfPrimitive::Name(n), e))
    } else if b == 0x28u8 {
        let (v, e) = parse_literal_string(bytes, j)?;
        Ok((PdfPrimitive::LiteralString(v), e))
    } else if b == 0x5bu8 {
        parse_array(bytes, j, depth, limit)
    } else if b == 0x3cu8 && j + 1 < bytes.len() && bytes[j + 1] == 0x3cu8 {
        parse_dictionary(bytes, j, depth, limit)
    } else if b == 0x3cu8 {
        let (v, e) = parse_hex_string(bytes, j)?;
        Ok((PdfPrimitive::HexString(v), e))
    } else if b == 0x74u8 || b == 0x66u8 || b == 0x6eu8 {
        parse_keyword(bytes, j)
    } else if crate::bytes::is_ascii_digit(b) || b == 0x2bu8 || b == 0x2du8 || b == 0x2eu8 {
        parse_number_or_reference(bytes, j)
    } else {
        Err(invalid_input("unexpected byte while parsing PDF primitive"))
    }
}

/// Reads `[ ... ]` whose `[` is at `index`.
pub fn parse_array(bytes: &[u8], index: usize, depth: usize, limit: usize) -> (r: Result<(PdfPrimitive, usize), PdfDiffError>)
    requires
        depth <= limit,
        depth <= index,
        index < bytes@.len(),
        bytes@[index as int] == 0x5bu8,
    ensures
        match items_spec(bytes@, index + 1, depth as int, limit as int) {
            Ok((v, e)) => r matches Ok((p, i)) && p.deep() == PrimitiveView::Array(v) && i == e,
            Err(f) => r matches Err(e) && fail_is(f, e),
        },
        r matches Ok((v, i)) ==> index < i <= bytes@.len(),
    decreases limit - depth + 1, 0int,
{
    let ghost s = bytes@;
    let _len = bytes.len();
    let mut i = index + 1;
    let mut values: Vec<PdfPrimitive> = Vec::new();
    loop
        invariant
            s == bytes@,
            depth <= limit,
            depth <= index,
            index < i <= bytes@.len(),
            items_spec(s, index + 1, depth as int, limit as int) == (match items_spec(s, i as int, depth as int, limit as int) {
                Ok((rest, e)) => Ok((deep_seq(values@) + rest, e)),
                Err(f) => Err(f),
            }),
        decreases bytes@.len() - i,
    {
        let j = skip_whitespace_and_comments(bytes, i);
        if j >= bytes.len() {
            return Err(invalid_input("unterminated array"));
        }
        if bytes[j] == 0x5du8 {
            proof {
                assert(deep_seq(values@) + Seq::<PrimitiveView>::empty() =~= deep_seq(values@));
            }
            return Ok((PdfPrimitive::Array(values), j + 1));
        }
        let (v, e) = parse_value(bytes, j, depth + 1, limit)?;
        proof {
            let vs = values@;
            assert(vs.push(v).drop_last() =~= vs);
            assert(deep_seq(vs.push(v)) == deep_seq(vs).push(v.deep()));
            match items_spec(s, e as int, depth as int, limit as int) {
                Ok((rest, e2)) => {
                    assert(deep_seq(vs) + (seq![v.deep()] + rest) =~= deep_seq(vs.push(v)) + rest);
                },
                Err(f) => {},
            }
        }
        values.push(v);
        i = e;
    }
}

/// Reads `<< ... >>` whose first `<` is at `index`.
pub fn parse_dictionary(bytes: &[u8], index: usize, depth: usize, limit: usize) -> (r: Result<(PdfPrimitive, usize), PdfDiffError>)
    requires
        depth <= limit,
        depth <= index,
        index + 1 < bytes@.len(),
        bytes@[index as int] == 0x3cu8,
        bytes@[index + 1] == 0x3cu8,
    ensures
        match entries_spec(bytes@, index + 2, depth as int, limit as int) {
            Ok((v, e)) => r matches Ok((p, i)) && p.deep() == PrimitiveView::Dictionary(v) && i == e,
            Err(f) => r matches Err(e) && fail_is(f, e),
        },
        r matches Ok((v, i)) ==> index < i <= bytes@.len(),
    decreases limit - depth + 1, 0int,
{
    let ghost s = bytes@;
    let _len = bytes.len();
    let mut i = index + 2;
    let mut entries: Vec<(Vec<u8>, PdfPrimitive)> = Vec::new();
    loop
        invariant
            s == bytes@,
            depth <= limit,
            depth <= index,
            index + 1 < i <= bytes@.len(),
            entries_spec(s, index + 2, depth as int, limit as int) == (match entries_spec(s, i as int, depth as int, limit as int) {
                Ok((rest, e)) => Ok((deep_entries(entries@) + rest, e)),
                Err(f) => Err(f),
            }),
        decreases bytes@.len() - i,
    {
        let j = skip_whitespace_and_comments(bytes, i);
        if j < bytes.len() && j + 1 < bytes.len() && bytes[j] == 0x3eu8 && bytes[j + 1] == 0x3eu8 {
            proof {
                assert(deep_entries(entries@) + Seq::<(Seq<u8>, PrimitiveView)>::empty() =~= deep_entries(entries@));
            }
            return Ok((PdfPrimitive::Dictionary(entries), j + 2));
        }
        if j < bytes.len() && bytes[j] == 0x2fu8 {
            let (key, e1) = parse_name(bytes, j)?;
            let (value, e2) = parse_value(bytes, e1, depth + 1, limit)?;
            let ghost kv = key@;
            proof {
                let es = entries@;
                let pair = (key, value);
                assert(es.push(pair).drop_last() =~= es);
                assert(deep_entries(es.push(pair)) == deep_entries(es).push((kv, value.deep())));
                match entries_spec(s, e2 as int, depth as int, limit as int) {
                    Ok((rest, e3)) => {
                        assert(deep_entries(es) + (seq![(kv, value.deep())] + rest) =~= deep_entries(es.push(pair)) + rest);
                    },
                    Err(f) => {},
                }
            }
            entries.push((key, value));
            i = e2;
        } else if j < bytes.len() {
            return Err(invalid_input("dictionary key must be a PDF name"));
        } else {
            return Err(invalid_input("unterminated dictionary"));
        }
    }
}

fn is_octal_byte(b: u8) -> (r: bool)
    ensures
        r == is_octal(b),
{
    0x30u8 <= b && b <= 0x37u8
}

proof fn lemma_nibbles_step(n: Seq<u8>, k: int)
    requires
        0 <= k,
        k + 2 <= n.len(),
    ensures
        nibbles_to_bytes(n.subrange(k, n.len() as int))
            == seq![(n[k] * 16 + n[k + 1]) as u8] + nibbles_to_bytes(n.subrange(k + 2, n.len() as int)),
{
    let t = n.subrange(k, n.len() as int);
    assert(t.subrange(2, t.len() as int) =~= n.subrange(k + 2, n.len() as int));
}

/// Packs nibbles (an even number of them) into bytes.
fn pack_nibbles(n: &Vec<u8>) -> (r: Vec<u8>)
    requires
        n@.len() % 2 == 0,
        forall|k: int| 0 <= k < n@.len() ==> n@[k] < 16,
    ensures
        r@ == nibbles_to_bytes(n@),
{
    let mut out: Vec<u8> = Vec::new();
    let mut k: usize = 0;
    proof {
        assert(n@.subrange(0, n@.len() as int) =~= n@);
    }
    while k + 1 < n.len()
        invariant
            k <= n@.len(),
            k % 2 == 0,
            n@.len() % 2 == 0,
            forall|j: int| 0 <= j < n@.len() ==> n@[j] < 16,
            out@ + nibbles_to_bytes(n@.subrange(k as int, n@.len() as int)) == nibbles_to_bytes(n@),
        decreases n@.len() - k,
    {
        proof {
            lemma_nibbles_step(n@, k as int);
            assert(out@ + (seq![(n@[k as int] * 16 + n@[k + 1]) as u8] + nibbles_to_bytes(n@.subrange(k + 2, n@.len() as int)))
                =~= out@.push((n@[k as int] * 16 + n@[k + 1]) as u8) + nibbles_to_bytes(n@.subrange(k + 2, n@.len() as int)));
        }
        out.push(n[k] * 16 + n[k + 1]);
        k += 2;
    }
    proof {
        assert(n@.subrange(k as int, n@.len() as int).len() == 0);
        assert(out@ + Seq::<u8>::empty() =~= out@);
    }
    out
}

/// A parsed primitive with the byte range it spans.
pub struct ParsedPrimitive {
    pub value: PdfPrimitive,
    pub byte_range: ByteRange,
}

/// Parses a complete primitive; anything but whitespace and comments after
/// it is an error.
pub fn parse_primitive(bytes: &[u8], config: ParseConfig) -> (r: Result<ParsedPrimitive, PdfDiffError>)
    ensures
        bytes@.len() > config.limits.max_file_bytes ==> (r matches Err(e) && e is ResourceLimitExceeded),
        bytes@.len() <= config.limits.max_file_bytes ==> match primitive_spec(bytes@, config.limits.max_indirect_depth as int) {
            Ok((v, st, en)) => r matches Ok(p) && p.value.deep() == v && p.byte_range.start == st
                && p.byte_range.end == en,
            Err(f) => r matches Err(e) && fail_is(f, e),
        },
        r matches Ok(p) ==> p.byte_range.start < p.byte_range.end <= bytes@.len(),
{
    config.limits.check_file_size(bytes.len())?;
    let start = skip_whitespace_and_comments(bytes, 0);
    let (value, end) = parse_value(bytes, start, 0, config.limits.max_indirect_depth)?;
    let rest = skip_whitespace_and_comments(bytes, end);
    if rest < bytes.len() {
        return Err(invalid_input("trailing bytes after PDF primitive"));
    }
    proof {
        lemma_skip_wc_idem(bytes@, 0);
    }
    Ok(ParsedPrimitive { value, byte_range: ByteRange::new(start, end) })
}

} // verus!

verus! {

// ---------------------------------------------------------------------------
// Lookups.

/// Index of the first entry whose key is `key`.
pub open spec fn first_key(es: Seq<(Seq<u8>, PrimitiveView)>, key: Seq<u8>, from: int) -> Option<int>
    decreases es.len() - from,
{
    if from < 0 || from >= es.len() {
        None
    } else if es[from].0 == key {
        Some(from)
    } else {
        first_key(es, key, from + 1)
    }
}

/// The value of `key` in a dictionary (the first entry with that key).
pub open spec fn dict_lookup(v: PrimitiveView, key: Seq<u8>) -> Option<PrimitiveView> {
    match v {
        PrimitiveView::Dictionary(es) => match first_key(es, key, 0) {
            Some(i) => Some(es[i].1),
            None => None,
        },
        _ => None,
    }
}

proof fn lemma_first_key(es: Seq<(Seq<u8>, PrimitiveView)>, key: Seq<u8>, from: int)
    requires
        0 <= from,
    ensures
        first_key(es, key, from) matches Some(i) ==> from <= i < es.len(),
    decreases es.len() - from,
{
    if from < es.len() && es[from].0 != key {
        lemma_first_key(es, key, from + 1);
    }
}

/// A dictionary's value for a key is smaller than the dictionary.
pub proof fn lemma_lookup_decreases(v: PrimitiveView, key: Seq<u8>)
    ensures
        dict_lookup(v, key) matches Some(x) ==> decreases_to!(v => x),
{
    if let PrimitiveView::Dictionary(es) = v {
        lemma_first_key(es, key, 0);
        if let Some(i) = first_key(es, key, 0) {
            assert(decreases_to!(v => v->Dictionary_0));
            assert(decreases_to!(es => es[i]));
            assert(decreases_to!(es[i] => es[i].1));
        }
    }
}

pub proof fn lemma_deep_seq_index(s: Seq<PdfPrimitive>, i: int)
    requires
        0 <= i < s.len(),
    ensures
        deep_seq(s).len() == s.len(),
        deep_seq(s)[i] == s[i].deep(),
    decreases s.len(),
{
    if i < s.len() - 1 {
        lemma_deep_seq_index(s.drop_last(), i);
    } else {
        lemma_deep_seq_len(s.drop_last());
    }
}

pub proof fn lemma_deep_seq_len(s: Seq<PdfPrimitive>)
    ensures
        deep_seq(s).len() == s.len(),
    decreases s.len(),
{
    if s.len() > 0 {
        lemma_deep_seq_len(s.drop_last());
    }
}

pub proof fn lemma_deep_entries_len(s: Seq<(Vec<u8>, PdfPrimitive)>)
    ensures
        deep_entries(s).len() == s.len(),
    decreases s.len(),
{
    if s.len() > 0 {
        lemma_deep_entries_len(s.drop_last());
    }
}

pub proof fn lemma_deep_entries_index(s: Seq<(Vec<u8>, PdfPrimitive)>, i: int)
    requires
        0 <= i < s.len(),
    ensures
        deep_entries(s).len() == s.len(),
        deep_entries(s)[i] == (s[i].0@, s[i].1.deep()),
    decreases s.len(),
{
    if i < s.len() - 1 {
        lemma_deep_entries_index(s.drop_last(), i);
    } else {
        lemma_deep_entries_len(s.drop_last());
    }
}

/// The value of `key` in `value` when `value` is a dictionary.
pub fn dictionary_value<'b>(value: &'b PdfPrimitive, key: &[u8]) -> (r: Option<&'b PdfPrimitive>)
    ensures
        match r {
            Some(p) => dict_lookup(value.deep(), key@) == Some(p.deep()),
            None => dict_lookup(value.deep(), key@) is None,
        },
{
    match value {
        PdfPrimitive::Dictionary(entries) => {
            let ghost es = deep_entries(entries@);
            proof {
                lemma_deep_entries_len(entries@);
            }
            assert(value.deep() == PrimitiveView::Dictionary(es));
            let mut i: usize = 0;
            while i < entries.len()
                invariant
                    value.deep() == PrimitiveView::Dictionary(es),
                    i <= entries@.len(),
                    es == deep_entries(entries@),
                    es.len() == entries@.len(),
                    first_key(es, key@, 0) == first_key(es, key@, i as int),
                decreases entries@.len() - i,
            {
                proof {
                    lemma_deep_entries_index(entries@, i as int);
                }
                if bytes_equal(entries[i].0.as_slice(), key) {
                    proof {
                        assert(value.deep() == PrimitiveView::Dictionary(es));
                        assert(first_key(es, key@, i as int) == Some(i as int));
                    }
                    return Some(&entries[i].1);
                }
                i += 1;
            }
            proof {
                assert(value.deep() == PrimitiveView::Dictionary(es));
            }
            None
        },
        _ => None,
    }
}

/// The object id when `value` is an indirect reference.
pub open spec fn reference_of(v: Option<PrimitiveView>) -> Option<ObjectId> {
    match v {
        Some(PrimitiveView::Reference(id)) => Some(id),
        _ => None,
    }
}

/// `value` is a dictionary whose `key` is the name `name`.
pub open spec fn has_name(v: PrimitiveView, key: Seq<u8>, name: Seq<u8>) -> bool {
    dict_lookup(v, key) == Some(PrimitiveView::Name(name))
}

pub fn dictionary_has_name(value: &PdfPrimitive, key: &[u8], name: &[u8]) -> (r: bool)
    ensures
        r == has_name(value.deep(), key@, name@),
{
    match dictionary_value(value, key) {
        Some(PdfPrimitive::Name(n)) => bytes_equal(n.as_slice(), name),
        _ => false,
    }
}

} // verus!
