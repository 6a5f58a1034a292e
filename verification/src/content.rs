//! Content streams: the tokens of a page's drawing program and the text
//! operators read from them. Numbers are kept as the text that was written;
//! what they are worth as floating-point values is read where they are
//! used.
use vstd::prelude::*;
use crate::types::{ObjectId, Provenance, ResourceLimits, Diagnostic, DiagnosticSeverity, DiagView, diag_views, plain_diag};
use crate::utf8text::{utf8_lossy, lossy_string};
use crate::fmt::{decimal_chars, usize_to_string, concat};
use crate::chars::string_of;

verus! {

/// The bytes that `u8::is_ascii_whitespace` accepts.
pub open spec fn ascii_ws(b: u8) -> bool {
    b == 0x20 || b == 0x09 || b == 0x0A || b == 0x0C || b == 0x0D
}

/// Bytes that end a word: whitespace and `( ) < > [ ]`.
pub open spec fn word_stop(b: u8) -> bool {
    ascii_ws(b) || b == 0x28 || b == 0x29 || b == 0x3C || b == 0x3E || b == 0x5B || b == 0x5D
}

/// ASCII letters folded to lower case.
pub open spec fn fold_case(c: char) -> char {
    if 'A' <= c <= 'Z' {
        ((c as u32) + 32) as char
    } else {
        c
    }
}

/// The number of ASCII digits of `l` from `k` on, before anything else.
pub open spec fn digit_count(l: Seq<char>, k: int) -> int
    decreases l.len() - k,
{
    if k < 0 || k >= l.len() || !('0' <= l[k] <= '9') {
        0
    } else {
        1 + digit_count(l, k + 1)
    }
}

/// An exponent `e`, an optional sign and one or more digits, from `k` to
/// the end.
pub open spec fn exponent_at(l: Seq<char>, k: int) -> bool {
    0 <= k < l.len() && l[k] == 'e' && ({
        let d = if k + 1 < l.len() && (l[k + 1] == '+' || l[k + 1] == '-') { k + 2 } else { k + 1 };
        digit_count(l, d) > 0 && d + digit_count(l, d) == l.len()
    })
}

/// A decimal numeral: digits with an optional fraction (at least one digit
/// in all), then an optional exponent.
pub open spec fn numeral(l: Seq<char>) -> bool {
    let i = digit_count(l, 0);
    let after = if i < l.len() && l[i] == '.' { i + 1 } else { i };
    let f = digit_count(l, after);
    (i > 0 || f > 0) && (after + f == l.len() || exponent_at(l, after + f))
}

/// The text that `str::parse::<f32>` accepts, as its documentation gives
/// the grammar: an optional sign, then `inf`, `infinity`, `nan` or a
/// decimal numeral, letters in either case.
pub open spec fn float_text(s: Seq<char>) -> bool {
    let body = if s.len() > 0 && (s[0] == '+' || s[0] == '-') { s.drop_first() } else { s };
    let l = body.map_values(|c: char| fold_case(c));
    l == "inf"@ || l == "infinity"@ || l == "nan"@ || numeral(l)
}

fn count_digits(l: &Vec<char>, k: usize) -> (r: usize)
    requires
        k <= l.len(),
    ensures
        r as int == digit_count(l@, k as int),
        k + r <= l.len(),
{
    let mut j = k;
    while j < l.len() && '0' <= l[j] && l[j] <= '9'
        invariant
            k <= j <= l.len(),
            digit_count(l@, k as int) == (j - k) + digit_count(l@, j as int),
        decreases l.len() - j,
    {
        j += 1;
    }
    j - k
}

fn equals_chars(l: &Vec<char>, p: &str) -> (r: bool)
    ensures
        r == (l@ == p@),
{
    let pc = crate::chars::chars_of(p);
    if l.len() != pc.len() {
        return false;
    }
    let mut i: usize = 0;
    while i < l.len()
        invariant
            i <= l.len(),
            l.len() == pc.len(),
            pc@ == p@,
            forall|j: int| 0 <= j < i ==> l@[j] == pc@[j],
        decreases l.len() - i,
    {
        if l[i] != pc[i] {
            return false;
        }
        i += 1;
    }
    proof {
        assert(l@ =~= pc@);
    }
    true
}

/// `s` is text that `str::parse::<f32>` accepts.
pub fn is_float_text(s: &str) -> (r: bool)
    ensures
        r == float_text(s@),
{
    let cs = crate::chars::chars_of(s);
    let start: usize = if cs.len() > 0 && (cs[0] == '+' || cs[0] == '-') { 1 } else { 0 };
    let mut l: Vec<char> = Vec::new();
    let mut i = start;
    let ghost body = if s@.len() > 0 && (s@[0] == '+' || s@[0] == '-') { s@.drop_first() } else { s@ };
    proof {
        assert(body =~= cs@.skip(start as int));
    }
    while i < cs.len()
        invariant
            start <= i <= cs.len(),
            body =~= cs@.skip(start as int),
            l@ =~= body.take(i - start).map_values(|c: char| fold_case(c)),
        decreases cs.len() - i,
    {
        let c = cs[i];
        let f = if 'A' <= c && c <= 'Z' { ((c as u32) + 32) as u8 as char } else { c };
        proof {
            if 'A' <= c <= 'Z' {
                assert(((c as u32) + 32) as u8 as char == fold_case(c)) by {
                    assert((c as u32) + 32 <= 0x7A);
                }
            }
            assert(body[i - start] == c);
            assert(body.take(i - start + 1) =~= body.take(i - start).push(c));
        }
        l.push(f);
        i += 1;
    }
    proof {
        assert(body.take(i - start) =~= body);
    }
    if equals_chars(&l, "inf") || equals_chars(&l, "infinity") || equals_chars(&l, "nan") {
        return true;
    }
    is_numeral(&l)
}

fn is_numeral(l: &Vec<char>) -> (r: bool)
    ensures
        r == numeral(l@),
{
    let int_digits = count_digits(l, 0);
    let after = if int_digits < l.len() && l[int_digits] == '.' { int_digits + 1 } else { int_digits };
    let frac = count_digits(l, after);
    if int_digits == 0 && frac == 0 {
        return false;
    }
    let end = after + frac;
    if end == l.len() {
        return true;
    }
    if l[end] != 'e' {
        return false;
    }
    let d = if end + 1 < l.len() && (l[end + 1] == '+' || l[end + 1] == '-') { end + 2 } else { end + 1 };
    let exp = count_digits(l, d);
    exp > 0 && d + exp == l.len()
}

/// The end of the word that starts at `start`.
pub open spec fn word_end(b: Seq<u8>, start: int) -> int
    decreases b.len() - start,
{
    if start < 0 || start >= b.len() || word_stop(b[start]) {
        start
    } else {
        word_end(b, start + 1)
    }
}

pub proof fn lemma_word_end(b: Seq<u8>, start: int)
    requires
        0 <= start <= b.len(),
    ensures
        start <= word_end(b, start) <= b.len(),
    decreases b.len() - start,
{
    if start < b.len() && !word_stop(b[start]) {
        lemma_word_end(b, start + 1);
    }
}

fn is_ascii_ws(b: u8) -> (r: bool)
    ensures
        r == ascii_ws(b),
{
    b == 0x20 || b == 0x09 || b == 0x0A || b == 0x0C || b == 0x0D
}

/// The word at `start` (lossily decoded) and where it ends.
pub fn parse_word(bytes: &[u8], start: usize) -> (r: (String, usize))
    requires
        start <= bytes.len(),
    ensures
        r.1 == word_end(bytes@, start as int),
        r.0@ == utf8_lossy(bytes@.subrange(start as int, r.1 as int)),
{
    let mut end = start;
    while end < bytes.len() && !(is_ascii_ws(bytes[end]) || bytes[end] == 0x28 || bytes[end] == 0x29
        || bytes[end] == 0x3C || bytes[end] == 0x3E || bytes[end] == 0x5B || bytes[end] == 0x5D)
        invariant
            start <= end <= bytes.len(),
            word_end(bytes@, start as int) == word_end(bytes@, end as int),
        decreases bytes.len() - end,
    {
        end += 1;
    }
    let word = crate::bytes::slice_range(bytes, start, end);
    (lossy_string(word.as_slice()), end)
}

/// The value of a hexadecimal digit.
pub open spec fn hex_value_spec(b: u8) -> Option<u8> {
    if 0x30 <= b <= 0x39 {
        Some((b - 0x30) as u8)
    } else if 0x61 <= b <= 0x66 {
        Some((b - 0x61 + 10) as u8)
    } else if 0x41 <= b <= 0x46 {
        Some((b - 0x41 + 10) as u8)
    } else {
        None
    }
}

pub fn hex_value(byte: u8) -> (r: Option<u8>)
    ensures
        r == hex_value_spec(byte),
{
    if 0x30 <= byte && byte <= 0x39 {
        Some(byte - 0x30)
    } else if 0x61 <= byte && byte <= 0x66 {
        Some(byte - 0x61 + 10)
    } else if 0x41 <= byte && byte <= 0x46 {
        Some(byte - 0x41 + 10)
    } else {
        None
    }
}

/// The digits of a hex string from `i` up to its `>` (whitespace skipped),
/// and the position after it.
pub open spec fn hex_digits_from(b: Seq<u8>, i: int, acc: Seq<u8>) -> (Seq<u8>, int)
    decreases b.len() - i,
{
    if i < 0 || i >= b.len() {
        (acc, i)
    } else if b[i] == 0x3E {
        (acc, i + 1)
    } else if ascii_ws(b[i]) {
        hex_digits_from(b, i + 1, acc)
    } else {
        hex_digits_from(b, i + 1, acc.push(b[i]))
    }
}

/// Digit pairs read as bytes; a digit that is none counts as zero, and an
/// odd digit out is followed by `0`.
pub open spec fn hex_pairs_value(d: Seq<u8>) -> Seq<u8>
    decreases d.len(),
{
    if d.len() == 0 {
        Seq::empty()
    } else {
        let high = match hex_value_spec(d[0]) {
            Some(v) => v,
            None => 0,
        };
        let low = if d.len() >= 2 {
            match hex_value_spec(d[1]) {
                Some(v) => v,
                None => 0,
            }
        } else {
            0
        };
        seq![(high * 16 + low) as u8] + hex_pairs_value(if d.len() >= 2 { d.skip(2) } else { Seq::empty() })
    }
}

/// A hex string's bytes and the position after it.
pub fn parse_hex_string(bytes: &[u8], start: usize) -> (r: (Vec<u8>, usize))
    requires
        start <= bytes.len(),
    ensures
        ({
            let (d, next) = hex_digits_from(bytes@, start as int, Seq::empty());
            r.0@ == hex_pairs_value(d) && r.1 as int == next
        }),
{
    let mut nybbles: Vec<u8> = Vec::new();
    let mut index = start;
    while index < bytes.len()
        invariant
            start <= index <= bytes.len(),
            hex_digits_from(bytes@, start as int, Seq::empty()) == hex_digits_from(bytes@, index as int, nybbles@),
        decreases bytes.len() - index,
    {
        let byte = bytes[index];
        if byte == 0x3E {
            index += 1;
            proof {
                assert(hex_digits_from(bytes@, start as int, Seq::empty()) == (nybbles@, index as int));
            }
            return (hex_pairs(&nybbles), index);
        } else if is_ascii_ws(byte) {
            index += 1;
        } else {
            nybbles.push(byte);
            index += 1;
        }
    }
    (hex_pairs(&nybbles), index)
}

fn hex_pairs(d: &Vec<u8>) -> (r: Vec<u8>)
    ensures
        r@ == hex_pairs_value(d@),
{
    let mut out: Vec<u8> = Vec::new();
    let mut i: usize = 0;
    proof {
        assert(d@.skip(0) =~= d@);
    }
    while i < d.len()
        invariant
            i <= d.len(),
            hex_pairs_value(d@) == out@ + hex_pairs_value(d@.skip(i as int)),
        decreases d.len() - i,
    {
        let ghost rest = d@.skip(i as int);
        let high = match hex_value(d[i]) {
            Some(v) => v,
            None => 0,
        };
        let low = if i + 1 < d.len() {
            match hex_value(d[i + 1]) {
                Some(v) => v,
                None => 0,
            }
        } else {
            0
        };
        let v: u8 = high * 16 + low;
        proof {
            assert(rest[0] == d@[i as int]);
            if i + 1 < d.len() {
                assert(rest[1] == d@[i + 1]);
                assert(rest.skip(2) =~= d@.skip(i + 2));
            } else {
                assert(d@.skip(i + 1) =~= Seq::<u8>::empty());
            }
        }
        let ghost before = out@;
        out.push(v);
        proof {
            if i + 1 < d.len() {
                assert(before + hex_pairs_value(rest) =~= out@ + hex_pairs_value(d@.skip(i + 2)));
            } else {
                assert(before + hex_pairs_value(rest) =~= out@ + hex_pairs_value(Seq::<u8>::empty()));
                assert(d@.skip(i + 1) =~= Seq::<u8>::empty());
            }
        }
        i = if i + 1 < d.len() { i + 2 } else { i + 1 };
    }
    proof {
        assert(d@.skip(i as int) =~= Seq::<u8>::empty());
        assert(out@ + Seq::<u8>::empty() =~= out@);
    }
    out
}

/// The byte a backslash escape stands for.
pub open spec fn escaped_byte(b: u8) -> u8 {
    if b == 0x6E {
        0x0A
    } else if b == 0x72 {
        0x0D
    } else if b == 0x74 {
        0x09
    } else if b == 0x62 {
        0x08
    } else if b == 0x66 {
        0x0C
    } else {
        b
    }
}

/// A literal string's bytes from `i` at nesting `depth`, and the position
/// after its closing parenthesis (or the end).
pub open spec fn literal_from(b: Seq<u8>, i: int, depth: int, acc: Seq<u8>) -> (Seq<u8>, int)
    decreases b.len() - i,
{
    if i < 0 || i >= b.len() {
        (acc, i)
    } else if b[i] == 0x5C && i + 1 < b.len() {
        literal_from(b, i + 2, depth, acc.push(escaped_byte(b[i + 1])))
    } else if b[i] == 0x28 {
        literal_from(b, i + 1, depth + 1, acc.push(b[i]))
    } else if b[i] == 0x29 {
        if depth - 1 == 0 {
            (acc, i + 1)
        } else {
            literal_from(b, i + 1, depth - 1, acc.push(0x29))
        }
    } else {
        literal_from(b, i + 1, depth, acc.push(b[i]))
    }
}

/// A literal string's bytes and the position after it.
pub fn parse_literal_string(bytes: &[u8], start: usize) -> (r: (Vec<u8>, usize))
    requires
        start <= bytes.len(),
    ensures
        ({
            let (v, next) = literal_from(bytes@, start as int, 1, Seq::empty());
            r.0@ == v && r.1 as int == next
        }),
{
    let mut output: Vec<u8> = Vec::new();
    let mut index = start;
    let mut depth: u128 = 1;
    while index < bytes.len()
        invariant
            start <= index <= bytes.len(),
            1 <= depth <= index - start + 1,
            literal_from(bytes@, start as int, 1, Seq::empty()) == literal_from(bytes@, index as int, depth as int, output@),
        decreases bytes.len() - index,
    {
        let byte = bytes[index];
        if byte == 0x5C && index + 1 < bytes.len() {
            let e = bytes[index + 1];
            let v: u8 = if e == 0x6E {
                0x0A
            } else if e == 0x72 {
                0x0D
            } else if e == 0x74 {
                0x09
            } else if e == 0x62 {
                0x08
            } else if e == 0x66 {
                0x0C
            } else {
                e
            };
            output.push(v);
            index += 2;
        } else if byte == 0x28 {
            depth += 1;
            output.push(byte);
            index += 1;
        } else if byte == 0x29 {
            depth -= 1;
            index += 1;
            if depth == 0 {
                return (output, index);
            }
            output.push(0x29);
        } else {
            output.push(byte);
            index += 1;
        }
    }
    (output, index)
}

/// The operators other than text operators that are recognized.
pub open spec fn non_text_operators() -> Seq<Seq<char>> {
    seq![
        "w"@, "J"@, "j"@, "M"@, "d"@, "ri"@, "i"@, "gs"@, "m"@, "l"@, "c"@, "v"@, "y"@, "h"@, "re"@, "S"@, "s"@,
        "f"@, "F"@, "f*"@, "B"@, "B*"@, "b"@, "b*"@, "n"@, "W"@, "W*"@, "CS"@, "cs"@, "SC"@, "SCN"@, "sc"@, "scn"@,
        "G"@, "g"@, "RG"@, "rg"@, "K"@, "k"@, "sh"@, "Do"@, "MP"@, "DP"@, "BMC"@, "BDC"@, "EMC"@, "BX"@, "EX"@
    ]
}

pub open spec fn non_text_operator(op: Seq<char>) -> bool {
    non_text_operators().contains(op)
}

fn same_str(a: &str, b: &str) -> (r: bool)
    ensures
        r == (a@ == b@),
{
    let x = a.to_owned();
    let y = b.to_owned();
    x == y
}

/// Path, painting, clipping, colour, shading, XObject and marked-content
/// operators that are common in generated PDFs.
pub fn is_recognized_non_text_operator(operator: &str) -> (r: bool)
    ensures
        r == non_text_operator(operator@),
{
    let names: [&str; 48] = [
        "w", "J", "j", "M", "d", "ri", "i", "gs", "m", "l", "c", "v", "y", "h", "re", "S", "s", "f", "F", "f*", "B",
        "B*", "b", "b*", "n", "W", "W*", "CS", "cs", "SC", "SCN", "sc", "scn", "G", "g", "RG", "rg", "K", "k", "sh",
        "Do", "MP", "DP", "BMC", "BDC", "EMC", "BX", "EX",
    ];
    let ghost spec_names = non_text_operators();
    proof {
        assert(names@.map_values(|n: &str| n@) =~= spec_names);
    }
    let mut i: usize = 0;
    while i < 48
        invariant
            i <= 48,
            names@.len() == 48,
            names@.map_values(|n: &str| n@) == spec_names,
            spec_names == non_text_operators(),
            forall|j: int| 0 <= j < i ==> spec_names[j] != operator@,
        decreases 48 - i,
    {
        proof {
            assert(spec_names[i as int] == names@[i as int]@);
        }
        if same_str(names[i], operator) {
            proof {
                assert(spec_names[i as int] == operator@);
                assert(spec_names.contains(operator@));
            }
            return true;
        }
        i += 1;
    }
    false
}

/// A content-stream token. A number is kept as the text it was written as.
#[derive(Debug, PartialEq, Eq)]
pub enum Token {
    Number(String),
    Name(String),
    LiteralString(Vec<u8>),
    HexString(Vec<u8>),
    Array(Vec<Token>),
    Operator(String),
}

pub enum TokenView {
    Number(Seq<char>),
    Name(Seq<char>),
    LiteralString(Seq<u8>),
    HexString(Seq<u8>),
    Array(Seq<TokenView>),
    Operator(Seq<char>),
}

impl Token {
    pub open spec fn view(self) -> TokenView
        decreases self,
    {
        match self {
            Token::Number(s) => TokenView::Number(s@),
            Token::Name(s) => TokenView::Name(s@),
            Token::LiteralString(b) => TokenView::LiteralString(b@),
            Token::HexString(b) => TokenView::HexString(b@),
            Token::Array(items) => TokenView::Array(token_views_of(items@)),
            Token::Operator(s) => TokenView::Operator(s@),
        }
    }
}

pub open spec fn token_views_of(s: Seq<Token>) -> Seq<TokenView>
    decreases s,
{
    if s.len() == 0 {
        Seq::empty()
    } else {
        token_views_of(s.subrange(0, s.len() - 1)).push(s[s.len() - 1].view())
    }
}

proof fn lemma_token_views_push(s: Seq<Token>, t: Token)
    ensures
        token_views_of(s.push(t)) == token_views_of(s).push(t.view()),
{
    assert(s.push(t).subrange(0, s.len() as int) =~= s);
}

/// The token that starts at `i` (not whitespace, not a closing `]` of an
/// array being read) and where it ends; arrays are read with `tok`.
pub open spec fn tokens_from(b: Seq<u8>, i: int, in_array: bool) -> (Seq<TokenView>, int)
    decreases b.len() - i,
{
    if i < 0 || i >= b.len() {
        (Seq::empty(), i)
    } else if in_array && b[i] == 0x5D {
        (Seq::empty(), i + 1)
    } else if ascii_ws(b[i]) {
        tokens_from(b, i + 1, in_array)
    } else {
        let (t, n) = if b[i] == 0x28 {
            let (v, n) = literal_from(b, i + 1, 1, Seq::empty());
            (TokenView::LiteralString(v), n)
        } else if b[i] == 0x3C && !(i + 1 < b.len() && b[i + 1] == 0x3C) {
            let (d, n) = hex_digits_from(b, i + 1, Seq::empty());
            (TokenView::HexString(hex_pairs_value(d)), n)
        } else if b[i] == 0x5B {
            let (inner, n) = tokens_from(b, i + 1, true);
            (TokenView::Array(inner), n)
        } else if b[i] == 0x2F {
            let e = word_end(b, i + 1);
            (TokenView::Name(utf8_lossy(b.subrange(i + 1, e))), e)
        } else {
            let e = word_end(b, i);
            if e <= i {
                (TokenView::Operator(seq![b[i] as char]), i + 1)
            } else {
                let w = utf8_lossy(b.subrange(i, e));
                (if float_text(w) { TokenView::Number(w) } else { TokenView::Operator(w) }, e)
            }
        };
        if n <= i || n > b.len() {
            (Seq::empty(), b.len() as int)
        } else {
            let (rest, m) = tokens_from(b, n, in_array);
            (seq![t] + rest, m)
        }
    }
}

fn single_char_string(b: u8) -> (r: String)
    ensures
        r@ == seq![b as char],
{
    let c = b as char;
    let cs: [char; 1] = [c];
    proof {
        assert(cs@ =~= seq![b as char]);
    }
    string_of(&cs)
}

/// Reads tokens from `*index` up to the end, or (inside an array) up to and
/// including the closing `]`.
fn tokenize_until(bytes: &[u8], index: &mut usize, in_array: bool) -> (r: Vec<Token>)
    requires
        *old(index) <= bytes.len(),
    ensures
        token_views_of(r@) == tokens_from(bytes@, *old(index) as int, in_array).0,
        *final(index) as int == tokens_from(bytes@, *old(index) as int, in_array).1,
        *final(index) <= bytes.len(),
    decreases bytes.len() - *old(index),
{
    let ghost i0 = *index as int;
    let ghost b = bytes@;
    let mut tokens: Vec<Token> = Vec::new();
    proof {
        assert(token_views_of(tokens@) + tokens_from(b, i0, in_array).0 =~= tokens_from(b, i0, in_array).0);
    }
    while *index < bytes.len()
        invariant
            i0 <= *index <= bytes.len(),
            i0 == *old(index) as int,
            b == bytes@,
            tokens_from(b, i0, in_array).0 == token_views_of(tokens@) + tokens_from(b, *index as int, in_array).0,
            tokens_from(b, i0, in_array).1 == tokens_from(b, *index as int, in_array).1,
        decreases bytes.len() - *index,
    {
        let i = *index;
        let byte = bytes[i];
        if in_array && byte == 0x5D {
            *index = i + 1;
            proof {
                assert(token_views_of(tokens@) + Seq::<TokenView>::empty() =~= token_views_of(tokens@));
            }
            return tokens;
        }
        if is_ascii_ws(byte) {
            *index = i + 1;
            continue;
        }
        let token: Token;
        let next: usize;
        if byte == 0x28 {
            let (v, n) = parse_literal_string(bytes, i + 1);
            proof {
                lemma_literal_advances(b, i + 1, 1, Seq::empty());
            }
            token = Token::LiteralString(v);
            next = n;
        } else if byte == 0x3C && !(i + 1 < bytes.len() && bytes[i + 1] == 0x3C) {
            let (v, n) = parse_hex_string(bytes, i + 1);
            proof {
                lemma_hex_advances(b, i + 1, Seq::empty());
            }
            token = Token::HexString(v);
            next = n;
        } else if byte == 0x5B {
            let mut inner_index = i + 1;
            let inner = tokenize_until(bytes, &mut inner_index, true);
            proof {
                lemma_tokens_advance(b, i + 1, true);
            }
            token = Token::Array(inner);
            next = inner_index;
        } else if byte == 0x2F {
            let (w, n) = parse_word(bytes, i + 1);
            proof {
                lemma_word_end(b, i + 1);
            }
            token = Token::Name(w);
            next = n;
        } else {
            let (w, n) = parse_word(bytes, i);
            proof {
                lemma_word_end(b, i as int);
            }
            if n <= i {
                token = Token::Operator(single_char_string(byte));
                next = i + 1;
            } else {
                if is_float_text(w.as_str()) {
                    token = Token::Number(w);
                } else {
                    token = Token::Operator(w);
                }
                next = n;
            }
        }
        let ghost before = token_views_of(tokens@);
        proof {
            lemma_token_views_push(tokens@, token);
            assert(before + tokens_from(b, i as int, in_array).0 =~= before.push(token.view()) + tokens_from(
                b,
                next as int,
                in_array,
            ).0);
        }
        tokens.push(token);
        *index = next;
    }
    proof {
        assert(token_views_of(tokens@) + Seq::<TokenView>::empty() =~= token_views_of(tokens@));
    }
    tokens
}

proof fn lemma_literal_advances(b: Seq<u8>, i: int, depth: int, acc: Seq<u8>)
    requires
        0 <= i <= b.len(),
    ensures
        i <= literal_from(b, i, depth, acc).1 <= b.len(),
    decreases b.len() - i,
{
    if i < b.len() {
        if b[i] == 0x5C && i + 1 < b.len() {
            lemma_literal_advances(b, i + 2, depth, acc.push(escaped_byte(b[i + 1])));
        } else if b[i] == 0x28 {
            lemma_literal_advances(b, i + 1, depth + 1, acc.push(b[i]));
        } else if b[i] == 0x29 {
            if depth - 1 != 0 {
                lemma_literal_advances(b, i + 1, depth - 1, acc.push(0x29));
            }
        } else {
            lemma_literal_advances(b, i + 1, depth, acc.push(b[i]));
        }
    }
}

proof fn lemma_hex_advances(b: Seq<u8>, i: int, acc: Seq<u8>)
    requires
        0 <= i <= b.len(),
    ensures
        i <= hex_digits_from(b, i, acc).1 <= b.len(),
    decreases b.len() - i,
{
    if i < b.len() && b[i] != 0x3E {
        if ascii_ws(b[i]) {
            lemma_hex_advances(b, i + 1, acc);
        } else {
            lemma_hex_advances(b, i + 1, acc.push(b[i]));
        }
    }
}

proof fn lemma_tokens_advance(b: Seq<u8>, i: int, in_array: bool)
    requires
        0 <= i <= b.len(),
    ensures
        i <= tokens_from(b, i, in_array).1 <= b.len(),
    decreases b.len() - i,
{
    if i < b.len() && !(in_array && b[i] == 0x5D) {
        if ascii_ws(b[i]) {
            lemma_tokens_advance(b, i + 1, in_array);
        } else {
            let n = if b[i] == 0x28 {
                lemma_literal_advances(b, i + 1, 1, Seq::empty());
                literal_from(b, i + 1, 1, Seq::empty()).1
            } else if b[i] == 0x3C && !(i + 1 < b.len() && b[i + 1] == 0x3C) {
                lemma_hex_advances(b, i + 1, Seq::empty());
                hex_digits_from(b, i + 1, Seq::empty()).1
            } else if b[i] == 0x5B {
                lemma_tokens_advance(b, i + 1, true);
                tokens_from(b, i + 1, true).1
            } else if b[i] == 0x2F {
                lemma_word_end(b, i + 1);
                word_end(b, i + 1)
            } else {
                lemma_word_end(b, i);
                if word_end(b, i) <= i {
                    i + 1
                } else {
                    word_end(b, i)
                }
            };
            if n > i && n <= b.len() {
                lemma_tokens_advance(b, n, in_array);
            }
        }
    }
}

/// The tokens of a content stream.
pub fn tokenize(bytes: &[u8]) -> (r: Vec<Token>)
    ensures
        token_views_of(r@) == tokens_from(bytes@, 0, false).0,
{
    let mut index: usize = 0;
    tokenize_until(bytes, &mut index, false)
}

/// A content-stream operation. Numeric operands are the text they were
/// written as (each one text that `str::parse::<f32>` accepts).
#[derive(Debug, Clone, PartialEq, Eq)]
pub enum ContentOp {
    BeginText { source: Provenance },
    EndText { source: Provenance },
    SetFont { name: String, size: String, source: Provenance },
    /// `Td`, or `TD` (which also sets the leading to minus `ty`).
    MoveTextPosition { tx: String, ty: String, sets_leading: bool, source: Provenance },
    MoveToNextLine { source: Provenance },
    SetTextLeading { leading: String, source: Provenance },
    SetCharacterSpacing { spacing: String, source: Provenance },
    SetWordSpacing { spacing: String, source: Provenance },
    SetHorizontalScaling { scale: String, source: Provenance },
    SetTextMatrix { matrix: Vec<String>, source: Provenance },
    ShowText { text: String, raw_bytes: Vec<u8>, source: Provenance },
    ShowAdjustedText { text: String, raw_bytes: Vec<u8>, adjustments: Vec<String>, source: Provenance },
    SaveGraphicsState { source: Provenance },
    RestoreGraphicsState { source: Provenance },
    ConcatMatrix { matrix: Vec<String>, source: Provenance },
    RecognizedNonText { operator: String, source: Provenance },
    Unknown { operator: String, source: Provenance },
}

/// What an operation does, without where it came from.
pub enum OpShape {
    BeginText,
    EndText,
    SetFont(Seq<char>, Seq<char>),
    MoveTextPosition(Seq<char>, Seq<char>, bool),
    MoveToNextLine,
    SetTextLeading(Seq<char>),
    SetCharacterSpacing(Seq<char>),
    SetWordSpacing(Seq<char>),
    SetHorizontalScaling(Seq<char>),
    SetTextMatrix(Seq<Seq<char>>),
    ShowText(Seq<char>, Seq<u8>),
    ShowAdjustedText(Seq<char>, Seq<u8>, Seq<Seq<char>>),
    SaveGraphicsState,
    RestoreGraphicsState,
    ConcatMatrix(Seq<Seq<char>>),
    RecognizedNonText(Seq<char>),
    Unknown(Seq<char>),
}

pub open spec fn strs(v: Seq<String>) -> Seq<Seq<char>> {
    v.map_values(|s: String| s@)
}

impl ContentOp {
    pub open spec fn shape(self) -> OpShape {
        match self {
            ContentOp::BeginText { .. } => OpShape::BeginText,
            ContentOp::EndText { .. } => OpShape::EndText,
            ContentOp::SetFont { name, size, .. } => OpShape::SetFont(name@, size@),
            ContentOp::MoveTextPosition { tx, ty, sets_leading, .. } => OpShape::MoveTextPosition(tx@, ty@, sets_leading),
            ContentOp::MoveToNextLine { .. } => OpShape::MoveToNextLine,
            ContentOp::SetTextLeading { leading, .. } => OpShape::SetTextLeading(leading@),
            ContentOp::SetCharacterSpacing { spacing, .. } => OpShape::SetCharacterSpacing(spacing@),
            ContentOp::SetWordSpacing { spacing, .. } => OpShape::SetWordSpacing(spacing@),
            ContentOp::SetHorizontalScaling { scale, .. } => OpShape::SetHorizontalScaling(scale@),
            ContentOp::SetTextMatrix { matrix, .. } => OpShape::SetTextMatrix(strs(matrix@)),
            ContentOp::ShowText { text, raw_bytes, .. } => OpShape::ShowText(text@, raw_bytes@),
            ContentOp::ShowAdjustedText { text, raw_bytes, adjustments, .. } => OpShape::ShowAdjustedText(
                text@,
                raw_bytes@,
                strs(adjustments@),
            ),
            ContentOp::SaveGraphicsState { .. } => OpShape::SaveGraphicsState,
            ContentOp::RestoreGraphicsState { .. } => OpShape::RestoreGraphicsState,
            ContentOp::ConcatMatrix { matrix, .. } => OpShape::ConcatMatrix(strs(matrix@)),
            ContentOp::RecognizedNonText { operator, .. } => OpShape::RecognizedNonText(operator@),
            ContentOp::Unknown { operator, .. } => OpShape::Unknown(operator@),
        }
    }

    pub open spec fn source(self) -> Provenance {
        match self {
            ContentOp::BeginText { source } => source,
            ContentOp::EndText { source } => source,
            ContentOp::SetFont { source, .. } => source,
            ContentOp::MoveTextPosition { source, .. } => source,
            ContentOp::MoveToNextLine { source } => source,
            ContentOp::SetTextLeading { source, .. } => source,
            ContentOp::SetCharacterSpacing { source, .. } => source,
            ContentOp::SetWordSpacing { source, .. } => source,
            ContentOp::SetHorizontalScaling { source, .. } => source,
            ContentOp::SetTextMatrix { source, .. } => source,
            ContentOp::ShowText { source, .. } => source,
            ContentOp::ShowAdjustedText { source, .. } => source,
            ContentOp::SaveGraphicsState { source } => source,
            ContentOp::RestoreGraphicsState { source } => source,
            ContentOp::ConcatMatrix { source, .. } => source,
            ContentOp::RecognizedNonText { source, .. } => source,
            ContentOp::Unknown { source, .. } => source,
        }
    }
}

/// The number written at stack position `k`, if that is a number.
pub open spec fn number_at(stack: Seq<TokenView>, k: int) -> Option<Seq<char>> {
    if 0 <= k < stack.len() {
        match stack[k] {
            TokenView::Number(w) => Some(w),
            _ => None,
        }
    } else {
        None
    }
}

/// The six numbers that end the stack.
pub open spec fn matrix_at(stack: Seq<TokenView>) -> Option<Seq<Seq<char>>> {
    let n = stack.len() as int;
    if n >= 6 && (forall|k: int| n - 6 <= k < n ==> number_at(stack, k) is Some) {
        Some(Seq::new(6, |k: int| number_at(stack, n - 6 + k)->0))
    } else {
        None
    }
}

/// The text, raw bytes and numbers of a `TJ` array's first `k` items.
pub open spec fn tj_parts(items: Seq<TokenView>, k: int) -> (Seq<char>, Seq<u8>, Seq<Seq<char>>)
    decreases k,
{
    if k <= 0 {
        (Seq::empty(), Seq::empty(), Seq::empty())
    } else {
        let (t, r, a) = tj_parts(items, k - 1);
        match items[k - 1] {
            TokenView::LiteralString(v) => (t + utf8_lossy(v), r + v, a),
            TokenView::HexString(v) => (t + utf8_lossy(v), r + v, a),
            TokenView::Number(w) => (t, r, a.push(w)),
            _ => (t, r, a),
        }
    }
}

/// The operation an operator makes of the operands on the stack, when they
/// fit it.
pub open spec fn op_spec(operator: Seq<char>, stack: Seq<TokenView>) -> Option<OpShape> {
    let n = stack.len() as int;
    if operator == "BT"@ {
        Some(OpShape::BeginText)
    } else if operator == "ET"@ {
        Some(OpShape::EndText)
    } else if operator == "Tf"@ {
        if n >= 2 && stack[n - 2] is Name && number_at(stack, n - 1) is Some {
            Some(OpShape::SetFont(stack[n - 2]->Name_0, number_at(stack, n - 1)->0))
        } else {
            None
        }
    } else if operator == "Td"@ || operator == "TD"@ {
        if number_at(stack, n - 1) is Some && number_at(stack, n - 2) is Some {
            Some(OpShape::MoveTextPosition(number_at(stack, n - 2)->0, number_at(stack, n - 1)->0, operator == "TD"@))
        } else {
            None
        }
    } else if operator == "T*"@ {
        Some(OpShape::MoveToNextLine)
    } else if operator == "TL"@ {
        match number_at(stack, n - 1) {
            Some(w) => Some(OpShape::SetTextLeading(w)),
            None => None,
        }
    } else if operator == "Tc"@ {
        match number_at(stack, n - 1) {
            Some(w) => Some(OpShape::SetCharacterSpacing(w)),
            None => None,
        }
    } else if operator == "Tw"@ {
        match number_at(stack, n - 1) {
            Some(w) => Some(OpShape::SetWordSpacing(w)),
            None => None,
        }
    } else if operator == "Tz"@ {
        match number_at(stack, n - 1) {
            Some(w) => Some(OpShape::SetHorizontalScaling(w)),
            None => None,
        }
    } else if operator == "Tm"@ {
        match matrix_at(stack) {
            Some(m) => Some(OpShape::SetTextMatrix(m)),
            None => None,
        }
    } else if operator == "Tj"@ {
        if n >= 1 {
            match stack[n - 1] {
                TokenView::LiteralString(v) => Some(OpShape::ShowText(utf8_lossy(v), v)),
                TokenView::HexString(v) => Some(OpShape::ShowText(utf8_lossy(v), v)),
                _ => None,
            }
        } else {
            None
        }
    } else if operator == "TJ"@ {
        if n >= 1 {
            match stack[n - 1] {
                TokenView::Array(items) => {
                    let (t, r, a) = tj_parts(items, items.len() as int);
                    Some(OpShape::ShowAdjustedText(t, r, a))
                },
                _ => None,
            }
        } else {
            None
        }
    } else if operator == "q"@ {
        Some(OpShape::SaveGraphicsState)
    } else if operator == "Q"@ {
        Some(OpShape::RestoreGraphicsState)
    } else if operator == "cm"@ {
        match matrix_at(stack) {
            Some(m) => Some(OpShape::ConcatMatrix(m)),
            None => None,
        }
    } else if non_text_operator(operator) {
        Some(OpShape::RecognizedNonText(operator))
    } else {
        None
    }
}

pub proof fn lemma_token_views_index(s: Seq<Token>, k: int)
    requires
        0 <= k < s.len(),
    ensures
        token_views_of(s).len() == s.len(),
        token_views_of(s)[k] == s[k].view(),
    decreases s.len(),
{
    lemma_token_views_len(s);
    if k < s.len() - 1 {
        lemma_token_views_index(s.subrange(0, s.len() - 1), k);
        assert(s.subrange(0, s.len() - 1)[k] == s[k]);
    }
}

pub proof fn lemma_token_views_len(s: Seq<Token>)
    ensures
        token_views_of(s).len() == s.len(),
    decreases s.len(),
{
    if s.len() > 0 {
        lemma_token_views_len(s.subrange(0, s.len() - 1));
    }
}

fn number_text(stack: &Vec<Token>, k: usize) -> (r: Option<String>)
    ensures
        match number_at(token_views_of(stack@), k as int) {
            Some(w) => r matches Some(x) && x@ == w,
            None => r is None,
        },
{
    proof {
        lemma_token_views_len(stack@);
    }
    if k >= stack.len() {
        return None;
    }
    proof {
        lemma_token_views_index(stack@, k as int);
    }
    match &stack[k] {
        Token::Number(w) => Some(w.clone()),
        _ => None,
    }
}

fn last_number(stack: &Vec<Token>) -> (r: Option<String>)
    ensures
        match number_at(token_views_of(stack@), stack@.len() - 1) {
            Some(w) => r matches Some(x) && x@ == w,
            None => r is None,
        },
{
    if stack.len() == 0 {
        proof {
            lemma_token_views_len(stack@);
        }
        return None;
    }
    number_text(stack, stack.len() - 1)
}

fn matrix_texts(stack: &Vec<Token>) -> (r: Option<Vec<String>>)
    ensures
        match matrix_at(token_views_of(stack@)) {
            Some(m) => r matches Some(v) && strs(v@) == m,
            None => r is None,
        },
{
    let ghost sv = token_views_of(stack@);
    proof {
        lemma_token_views_len(stack@);
    }
    let n = stack.len();
    if n < 6 {
        return None;
    }
    let mut out: Vec<String> = Vec::new();
    let mut k: usize = 0;
    while k < 6
        invariant
            k <= 6,
            n == stack.len(),
            n >= 6,
            sv == token_views_of(stack@),
            sv.len() == n,
            out@.len() == k,
            forall|q: int| 0 <= q < k ==> number_at(sv, n - 6 + q) == Some(#[trigger] out@[q]@),
        decreases 6 - k,
    {
        match number_text(stack, n - 6 + k) {
            Some(w) => {
                out.push(w);
            },
            None => {
                proof {
                    assert(!(forall|q: int| n - 6 <= q < n ==> number_at(sv, q) is Some)) by {
                        assert(number_at(sv, n - 6 + k) is None);
                    }
                }
                return None;
            },
        }
        k += 1;
    }
    proof {
        assert forall|q: int| n - 6 <= q < n implies number_at(sv, q) is Some by {
            assert(number_at(sv, n - 6 + (q - (n - 6))) == Some(out@[q - (n - 6)]@));
        }
        let m = Seq::new(6, |q: int| number_at(sv, n - 6 + q)->0);
        assert(strs(out@) =~= m);
    }
    Some(out)
}

fn show_adjusted(items: &Vec<Token>) -> (r: (String, Vec<u8>, Vec<String>))
    ensures
        ({
            let (t, raw, a) = tj_parts(token_views_of(items@), items@.len() as int);
            r.0@ == t && r.1@ == raw && strs(r.2@) == a
        }),
{
    let ghost iv = token_views_of(items@);
    proof {
        lemma_token_views_len(items@);
    }
    let mut text = String::new();
    let mut raw: Vec<u8> = Vec::new();
    let mut adjustments: Vec<String> = Vec::new();
    let mut k: usize = 0;
    proof {
        assert(strs(adjustments@) =~= Seq::<Seq<char>>::empty());
    }
    while k < items.len()
        invariant
            k <= items.len(),
            iv == token_views_of(items@),
            iv.len() == items.len(),
            ({
                let (t, r, a) = tj_parts(iv, k as int);
                text@ == t && raw@ == r && strs(adjustments@) == a
            }),
        decreases items.len() - k,
    {
        proof {
            lemma_token_views_index(items@, k as int);
        }
        match &items[k] {
            Token::LiteralString(v) | Token::HexString(v) => {
                let segment = lossy_string(v.as_slice());
                text = crate::fmt::concat2(text.as_str(), segment.as_str());
                let mut i: usize = 0;
                let ghost r0 = raw@;
                while i < v.len()
                    invariant
                        i <= v.len(),
                        raw@ == r0 + v@.take(i as int),
                    decreases v.len() - i,
                {
                    raw.push(v[i]);
                    proof {
                        assert(v@.take(i + 1) =~= v@.take(i as int).push(v@[i as int]));
                    }
                    i += 1;
                }
                proof {
                    assert(v@.take(i as int) =~= v@);
                }
            },
            Token::Number(w) => {
                let ghost a0 = strs(adjustments@);
                adjustments.push(w.clone());
                proof {
                    assert(strs(adjustments@) =~= a0.push(w@));
                }
            },
            _ => {},
        }
        k += 1;
    }
    (text, raw, adjustments)
}

/// The operation `operator` makes of the operands on `stack`, or `None`
/// when the operator is unknown or its operands do not fit.
pub fn build_operation(operator: &str, stack: &Vec<Token>, source: Provenance) -> (r: Option<ContentOp>)
    ensures
        match op_spec(operator@, token_views_of(stack@)) {
            Some(shape) => r matches Some(op) && op.shape() == shape && op.source() == source,
            None => r is None,
        },
{
    let ghost sv = token_views_of(stack@);
    proof {
        lemma_token_views_len(stack@);
    }
    let n = stack.len();
    if same_str(operator, "BT") {
        return Some(ContentOp::BeginText { source });
    }
    if same_str(operator, "ET") {
        return Some(ContentOp::EndText { source });
    }
    if same_str(operator, "Tf") {
        if n < 2 {
            return None;
        }
        proof {
            lemma_token_views_index(stack@, n - 2);
        }
        let name = match &stack[n - 2] {
            Token::Name(name) => name.clone(),
            _ => return None,
        };
        return match last_number(stack) {
            Some(size) => Some(ContentOp::SetFont { name, size, source }),
            None => None,
        };
    }
    if same_str(operator, "Td") || same_str(operator, "TD") {
        let ty = match last_number(stack) {
            Some(t) => t,
            None => return None,
        };
        if n < 2 {
            return None;
        }
        let tx = match number_text(stack, n - 2) {
            Some(t) => t,
            None => return None,
        };
        let sets_leading = same_str(operator, "TD");
        return Some(ContentOp::MoveTextPosition { tx, ty, sets_leading, source });
    }
    if same_str(operator, "T*") {
        return Some(ContentOp::MoveToNextLine { source });
    }
    if same_str(operator, "TL") {
        return match last_number(stack) {
            Some(w) => Some(ContentOp::SetTextLeading { leading: w, source }),
            None => None,
        };
    }
    if same_str(operator, "Tc") {
        return match last_number(stack) {
            Some(w) => Some(ContentOp::SetCharacterSpacing { spacing: w, source }),
            None => None,
        };
    }
    if same_str(operator, "Tw") {
        return match last_number(stack) {
            Some(w) => Some(ContentOp::SetWordSpacing { spacing: w, source }),
            None => None,
        };
    }
    if same_str(operator, "Tz") {
        return match last_number(stack) {
            Some(w) => Some(ContentOp::SetHorizontalScaling { scale: w, source }),
            None => None,
        };
    }
    if same_str(operator, "Tm") {
        return match matrix_texts(stack) {
            Some(m) => Some(ContentOp::SetTextMatrix { matrix: m, source }),
            None => None,
        };
    }
    if same_str(operator, "Tj") {
        if n < 1 {
            return None;
        }
        proof {
            lemma_token_views_index(stack@, n - 1);
        }
        return match &stack[n - 1] {
            Token::LiteralString(v) | Token::HexString(v) => {
                let text = lossy_string(v.as_slice());
                let raw_bytes = crate::bytes::slice_range(v.as_slice(), 0, v.len());
                proof {
                    assert(raw_bytes@ =~= v@);
                }
                Some(ContentOp::ShowText { text, raw_bytes, source })
            },
            _ => None,
        };
    }
    if same_str(operator, "TJ") {
        if n < 1 {
            return None;
        }
        proof {
            lemma_token_views_index(stack@, n - 1);
        }
        return match &stack[n - 1] {
            Token::Array(items) => {
                proof {
                    lemma_token_views_len(items@);
                }
                let (text, raw_bytes, adjustments) = show_adjusted(items);
                Some(ContentOp::ShowAdjustedText { text, raw_bytes, adjustments, source })
            },
            _ => None,
        };
    }
    if same_str(operator, "q") {
        return Some(ContentOp::SaveGraphicsState { source });
    }
    if same_str(operator, "Q") {
        return Some(ContentOp::RestoreGraphicsState { source });
    }
    if same_str(operator, "cm") {
        return match matrix_texts(stack) {
            Some(m) => Some(ContentOp::ConcatMatrix { matrix: m, source }),
            None => None,
        };
    }
    if is_recognized_non_text_operator(operator) {
        return Some(ContentOp::RecognizedNonText { operator: operator.to_owned(), source });
    }
    None
}

/// Where the `k`-th operation of a page's content stream came from.
pub open spec fn op_source(page_index: usize, stream: Option<ObjectId>, k: int) -> Provenance {
    Provenance {
        file_role: None,
        object_id: None,
        page_index: Some(page_index),
        stream_object_id: stream,
        content_op_index: Some(k as usize),
        byte_range: None,
    }
}

/// Operations and diagnostics so far, the operands waiting for their
/// operator, and whether the operator limit stopped the reading.
pub struct ProgramState {
    pub ops: Seq<(OpShape, Provenance)>,
    pub diags: Seq<DiagView>,
    pub stack: Seq<TokenView>,
    pub stopped: bool,
}

pub open spec fn program_step(
    st: ProgramState,
    t: TokenView,
    page_index: usize,
    stream: Option<ObjectId>,
    max_ops: usize,
) -> ProgramState {
    if st.stopped {
        st
    } else {
        match t {
            TokenView::Operator(op) => {
                let k = st.ops.len() as int;
                if k >= max_ops {
                    ProgramState {
                        ops: st.ops,
                        diags: st.diags.push(
                            plain_diag(
                                DiagnosticSeverity::Error,
                                "RESOURCE_LIMIT_CONTENT_OPERATORS"@,
                                "content stream exceeds operator limit of "@ + decimal_chars(max_ops as nat),
                            ),
                        ),
                        stack: st.stack,
                        stopped: true,
                    }
                } else {
                    let src = op_source(page_index, stream, k);
                    match op_spec(op, st.stack) {
                        Some(shape) => ProgramState {
                            ops: st.ops.push((shape, src)),
                            diags: st.diags,
                            stack: Seq::empty(),
                            stopped: false,
                        },
                        None => ProgramState {
                            ops: st.ops.push((OpShape::Unknown(op), src)),
                            diags: st.diags.push(
                                DiagView {
                                    severity: DiagnosticSeverity::Warning,
                                    code: "CONTENT_OPERATOR_UNKNOWN"@,
                                    message: "unsupported content operator "@ + op,
                                    object: stream,
                                    page_index: Some(page_index),
                                },
                            ),
                            stack: Seq::empty(),
                            stopped: false,
                        },
                    }
                }
            },
            other => ProgramState { ops: st.ops, diags: st.diags, stack: st.stack.push(other), stopped: false },
        }
    }
}

pub open spec fn program_fold(
    tokens: Seq<TokenView>,
    k: int,
    page_index: usize,
    stream: Option<ObjectId>,
    max_ops: usize,
) -> ProgramState
    decreases k,
{
    if k <= 0 {
        ProgramState { ops: Seq::empty(), diags: Seq::empty(), stack: Seq::empty(), stopped: false }
    } else {
        program_step(program_fold(tokens, k - 1, page_index, stream, max_ops), tokens[k - 1], page_index, stream, max_ops)
    }
}

/// The operations and diagnostics of a content stream: each operator takes
/// the operands before it; an operator whose operands do not fit is kept as
/// unknown, with a warning; reading stops at the operator limit; a stream
/// over the size limit is not read.
pub open spec fn program_spec(
    bytes: Seq<u8>,
    page_index: usize,
    stream: Option<ObjectId>,
    limits: ResourceLimits,
) -> (Seq<(OpShape, Provenance)>, Seq<DiagView>) {
    if bytes.len() > limits.max_stream_bytes {
        (
            Seq::empty(),
            seq![
                plain_diag(
                    DiagnosticSeverity::Error,
                    "RESOURCE_LIMIT_STREAM_BYTES"@,
                    "content stream has "@ + decimal_chars(bytes.len()) + " bytes, limit is "@ + decimal_chars(
                        limits.max_stream_bytes as nat,
                    ),
                ),
            ],
        )
    } else {
        let toks = tokens_from(bytes, 0, false).0;
        let st = program_fold(toks, toks.len() as int, page_index, stream, limits.max_content_ops_per_page);
        (st.ops, st.diags)
    }
}

/// The operations of a content stream and the diagnostics reading it gave.
#[derive(Debug, Clone, PartialEq, Eq)]
pub struct ContentProgram {
    pub operations: Vec<ContentOp>,
    pub diagnostics: Vec<Diagnostic>,
}

pub open spec fn op_views(v: Seq<ContentOp>) -> Seq<(OpShape, Provenance)> {
    v.map_values(|o: ContentOp| (o.shape(), o.source()))
}

/// Reads a page's content stream.
pub fn parse_content_stream_with_limits(
    bytes: &[u8],
    page_index: usize,
    stream_object_id: Option<ObjectId>,
    limits: ResourceLimits,
) -> (r: ContentProgram)
    ensures
        (op_views(r.operations@), diag_views(r.diagnostics@)) == program_spec(
            bytes@,
            page_index,
            stream_object_id,
            limits,
        ),
{
    if bytes.len() > limits.max_stream_bytes {
        let a = usize_to_string(bytes.len());
        let b = usize_to_string(limits.max_stream_bytes);
        let message = concat(&["content stream has ", a.as_str(), " bytes, limit is ", b.as_str()]);
        proof {
            reveal_with_fuel(crate::fmt::concat_spec, 5);
        }
        let d = Diagnostic::error("RESOURCE_LIMIT_STREAM_BYTES", message.as_str());
        let mut diagnostics = Vec::new();
        diagnostics.push(d);
        let r = ContentProgram { operations: Vec::new(), diagnostics };
        proof {
            assert(op_views(r.operations@) =~= Seq::<(OpShape, Provenance)>::empty());
            assert(diag_views(r.diagnostics@) =~= seq![d.view()]);
        }
        return r;
    }
    let mut tokens = tokenize(bytes);
    let ghost orig = tokens@;
    let ghost tv = token_views_of(orig);
    let n = tokens.len();
    proof {
        lemma_token_views_len(orig);
    }
    let mut rev: Vec<Token> = Vec::new();
    while tokens.len() > 0
        invariant
            tokens@.len() + rev@.len() == n,
            n == orig.len(),
            tokens@ == orig.subrange(0, tokens@.len() as int),
            forall|q: int| 0 <= q < rev@.len() ==> rev@[q] == orig[n - 1 - q],
        decreases tokens.len(),
    {
        let t = tokens.pop().unwrap();
        rev.push(t);
        proof {
            assert(tokens@ =~= orig.subrange(0, tokens@.len() as int));
        }
    }
    let max_ops = limits.max_content_ops_per_page;
    let mut operations: Vec<ContentOp> = Vec::new();
    let mut diagnostics: Vec<Diagnostic> = Vec::new();
    let mut stack: Vec<Token> = Vec::new();
    let mut k: usize = 0;
    proof {
        assert(op_views(operations@) =~= Seq::<(OpShape, Provenance)>::empty());
        assert(diag_views(diagnostics@) =~= Seq::<DiagView>::empty());
        assert(token_views_of(stack@) =~= Seq::<TokenView>::empty());
    }
    while rev.len() > 0
        invariant
            k + rev@.len() == n,
            n == orig.len(),
            tv == token_views_of(orig),
            tv == tokens_from(bytes@, 0, false).0,
            bytes@.len() <= limits.max_stream_bytes,
            tv.len() == n,
            max_ops == limits.max_content_ops_per_page,
            forall|q: int| 0 <= q < rev@.len() ==> rev@[q] == orig[n - 1 - q],
            program_fold(tv, k as int, page_index, stream_object_id, max_ops) == (ProgramState {
                ops: op_views(operations@),
                diags: diag_views(diagnostics@),
                stack: token_views_of(stack@),
                stopped: false,
            }),
        decreases rev.len(),
    {
        let t = rev.pop().unwrap();
        proof {
            assert(t == orig[k as int]);
            lemma_token_views_index(orig, k as int);
        }
        match t {
            Token::Operator(operator) => {
                let op_index = operations.len();
                if op_index >= max_ops {
                    let m = usize_to_string(max_ops);
                    let message = crate::fmt::concat2("content stream exceeds operator limit of ", m.as_str());
                    let d = Diagnostic::error("RESOURCE_LIMIT_CONTENT_OPERATORS", message.as_str());
                    let ghost before = diag_views(diagnostics@);
                    diagnostics.push(d);
                    proof {
                        assert(diag_views(diagnostics@) =~= before.push(d.view()));
                        assert(program_fold(tv, k + 1, page_index, stream_object_id, max_ops).diags
                            == diag_views(diagnostics@));
                        lemma_fold_stopped(tv, k + 1, n as int, page_index, stream_object_id, max_ops);
                    }
                    return ContentProgram { operations, diagnostics };
                }
                let source = Provenance {
                    file_role: None,
                    object_id: None,
                    page_index: Some(page_index),
                    stream_object_id,
                    content_op_index: Some(op_index),
                    byte_range: None,
                };
                let ghost ops0 = op_views(operations@);
                let built = build_operation(operator.as_str(), &stack, source);
                match built {
                    Some(op) => {
                        operations.push(op);
                        proof {
                            assert(op_views(operations@) =~= ops0.push((op.shape(), op.source())));
                        }
                    },
                    None => {
                        let message = crate::fmt::concat2("unsupported content operator ", operator.as_str());
                        let d = Diagnostic {
                            severity: DiagnosticSeverity::Warning,
                            code: "CONTENT_OPERATOR_UNKNOWN".to_owned(),
                            message,
                            object: stream_object_id,
                            page_index: Some(page_index),
                        };
                        let ghost before = diag_views(diagnostics@);
                        diagnostics.push(d);
                        let op = ContentOp::Unknown { operator, source };
                        operations.push(op);
                        proof {
                            assert(diag_views(diagnostics@) =~= before.push(d.view()));
                            assert(op_views(operations@) =~= ops0.push((op.shape(), op.source())));
                        }
                    },
                }
                stack = Vec::new();
                proof {
                    assert(token_views_of(stack@) =~= Seq::<TokenView>::empty());
                }
            },
            other => {
                let ghost s0 = stack@;
                stack.push(other);
                proof {
                    lemma_token_views_push(s0, other);
                }
            },
        }
        k += 1;
    }
    ContentProgram { operations, diagnostics }
}

proof fn lemma_fold_stopped(
    tokens: Seq<TokenView>,
    k: int,
    n: int,
    page_index: usize,
    stream: Option<ObjectId>,
    max_ops: usize,
)
    requires
        0 <= k <= n,
        program_fold(tokens, k, page_index, stream, max_ops).stopped,
    ensures
        program_fold(tokens, n, page_index, stream, max_ops) == program_fold(tokens, k, page_index, stream, max_ops),
    decreases n - k,
{
    if k < n {
        lemma_fold_stopped(tokens, k, n - 1, page_index, stream, max_ops);
    }
}

/// Reads a content stream with the default limits, as page 0.
pub fn parse_content_stream(bytes: &[u8]) -> (r: ContentProgram)
    ensures
        (op_views(r.operations@), diag_views(r.diagnostics@)) == program_spec(
            bytes@,
            0,
            None,
            ResourceLimits::default_spec(),
        ),
{
    parse_content_stream_with_limits(bytes, 0, None, crate::document::default_resource_limits())
}

} // verus!
