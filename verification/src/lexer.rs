//! Lexical structure of PDF syntax: delimiters, comments, words and numbers.
use vstd::prelude::*;
use crate::bytes::{is_ws, is_digit, skip_ws_from, lemma_skip_ws_bounds, is_ascii_whitespace, skip_ascii_whitespace_bytes, slice_range};

verus! {

pub open spec fn is_delim(b: u8) -> bool {
    b == 0x28u8 || b == 0x29u8 || b == 0x3cu8 || b == 0x3eu8 || b == 0x5bu8 || b == 0x5du8
        || b == 0x2fu8 || b == 0x25u8
}

/// Whitespace or one of `( ) < > [ ] / %`.
pub open spec fn is_delim_ws(b: u8) -> bool {
    is_ws(b) || is_delim(b)
}

pub fn is_delimiter_or_whitespace(b: u8) -> (r: bool)
    ensures
        r == is_delim_ws(b),
{
    is_ascii_whitespace(b) || b == 0x28u8 || b == 0x29u8 || b == 0x3cu8 || b == 0x3eu8 || b == 0x5bu8
        || b == 0x5du8 || b == 0x2fu8 || b == 0x25u8
}

/// Value of a hexadecimal digit.
pub open spec fn hex_val(b: u8) -> Option<u8> {
    if 0x30u8 <= b && b <= 0x39u8 {
        Some((b - 0x30u8) as u8)
    } else if 0x61u8 <= b && b <= 0x66u8 {
        Some((b - 0x61u8 + 10) as u8)
    } else if 0x41u8 <= b && b <= 0x46u8 {
        Some((b - 0x41u8 + 10) as u8)
    } else {
        None
    }
}

pub fn hex_value(b: u8) -> (r: Option<u8>)
    ensures
        r == hex_val(b),
        r matches Some(v) ==> v < 16,
{
    if 0x30u8 <= b && b <= 0x39u8 {
        Some(b - 0x30u8)
    } else if 0x61u8 <= b && b <= 0x66u8 {
        Some(b - 0x61u8 + 10)
    } else if 0x41u8 <= b && b <= 0x46u8 {
        Some(b - 0x41u8 + 10)
    } else {
        None
    }
}

/// Index just past the end of a `%` comment whose body starts at `i`:
/// after the first carriage return or line feed, or the end of input.
pub open spec fn comment_end(s: Seq<u8>, i: int) -> int
    decreases s.len() - i,
{
    if i < 0 || i >= s.len() {
        i
    } else if s[i] == 0x0du8 || s[i] == 0x0au8 {
        i + 1
    } else {
        comment_end(s, i + 1)
    }
}

pub proof fn lemma_comment_end(s: Seq<u8>, i: int)
    requires
        0 <= i <= s.len(),
    ensures
        i <= comment_end(s, i) <= s.len(),
    decreases s.len() - i,
{
    if i < s.len() && !(s[i] == 0x0du8 || s[i] == 0x0au8) {
        lemma_comment_end(s, i + 1);
    }
}

/// Index of the first byte at or after `i` that is neither whitespace nor
/// inside a comment.
pub open spec fn skip_wc(s: Seq<u8>, i: int) -> int
    decreases s.len() - i,
{
    if 0 <= i <= s.len() {
        let j = skip_ws_from(s, i);
        if j < s.len() && s[j] == 0x25u8 {
            proof {
                lemma_skip_ws_bounds(s, i);
                lemma_comment_end(s, j + 1);
            }
            skip_wc(s, comment_end(s, j + 1))
        } else {
            j
        }
    } else {
        i
    }
}

pub proof fn lemma_skip_wc_bounds(s: Seq<u8>, i: int)
    requires
        0 <= i <= s.len(),
    ensures
        i <= skip_wc(s, i) <= s.len(),
        skip_wc(s, i) < s.len() ==> !is_ws(s[skip_wc(s, i)]) && s[skip_wc(s, i)] != 0x25u8,
    decreases s.len() - i,
{
    lemma_skip_ws_bounds(s, i);
    let j = skip_ws_from(s, i);
    if j < s.len() && s[j] == 0x25u8 {
        lemma_comment_end(s, j + 1);
        lemma_skip_wc_bounds(s, comment_end(s, j + 1));
    }
}

pub proof fn lemma_skip_wc_idem(s: Seq<u8>, i: int)
    requires
        0 <= i <= s.len(),
    ensures
        skip_wc(s, skip_wc(s, i)) == skip_wc(s, i),
    decreases s.len() - i,
{
    lemma_skip_ws_bounds(s, i);
    let j = skip_ws_from(s, i);
    if j < s.len() && s[j] == 0x25u8 {
        lemma_comment_end(s, j + 1);
        lemma_skip_wc_idem(s, comment_end(s, j + 1));
    } else {
        lemma_skip_wc_bounds(s, i);
        let k = skip_wc(s, i);
        assert(k == j);
        lemma_skip_ws_bounds(s, k);
    }
}

/// End of the word that starts at `i`: the first delimiter, whitespace or
/// the end of input.
pub open spec fn word_end(s: Seq<u8>, i: int) -> int
    decreases s.len() - i,
{
    if 0 <= i < s.len() && !is_delim_ws(s[i]) {
        word_end(s, i + 1)
    } else {
        i
    }
}

pub proof fn lemma_word_end(s: Seq<u8>, i: int)
    requires
        0 <= i <= s.len(),
    ensures
        i <= word_end(s, i) <= s.len(),
        forall|j: int| i <= j < word_end(s, i) ==> !is_delim_ws(s[j]),
        word_end(s, i) < s.len() ==> is_delim_ws(s[word_end(s, i)]),
    decreases s.len() - i,
{
    if i < s.len() && !is_delim_ws(s[i]) {
        lemma_word_end(s, i + 1);
    }
}

/// Skips whitespace and comments from `index`.
pub fn skip_whitespace_and_comments(bytes: &[u8], index: usize) -> (r: usize)
    requires
        index <= bytes.len(),
    ensures
        r == skip_wc(bytes@, index as int),
        index <= r <= bytes.len(),
{
    let mut i = index;
    proof {
        lemma_skip_wc_bounds(bytes@, index as int);
    }
    loop
        invariant
            index <= i <= bytes.len(),
            skip_wc(bytes@, index as int) == skip_wc(bytes@, i as int),
        decreases bytes.len() - i,
    {
        let j = skip_ascii_whitespace_bytes(bytes, i);
        proof {
            lemma_skip_ws_bounds(bytes@, i as int);
        }
        if j < bytes.len() && bytes[j] == 0x25u8 {
            proof {
                lemma_comment_end(bytes@, j + 1);
            }
            let k = comment_end_exec(bytes, j + 1);
            i = k;
        } else {
            return j;
        }
    }
}

fn comment_end_exec(bytes: &[u8], start: usize) -> (r: usize)
    requires
        start <= bytes.len(),
    ensures
        r == comment_end(bytes@, start as int),
{
    let mut k = start;
    while k < bytes.len() && !(bytes[k] == 0x0du8 || bytes[k] == 0x0au8)
        invariant
            start <= k <= bytes.len(),
            comment_end(bytes@, start as int) == comment_end(bytes@, k as int),
        decreases bytes.len() - k,
    {
        k += 1;
    }
    if k < bytes.len() {
        k + 1
    } else {
        k
    }
}

/// Reads a word (a maximal run of non-delimiter, non-whitespace bytes).
pub fn read_word(bytes: &[u8], index: usize) -> (r: (Vec<u8>, usize))
    requires
        index <= bytes.len(),
    ensures
        r.1 == word_end(bytes@, index as int),
        index <= r.1 <= bytes.len(),
        r.0@ == bytes@.subrange(index as int, r.1 as int),
{
    let mut i = index;
    proof {
        lemma_word_end(bytes@, index as int);
    }
    while i < bytes.len() && !is_delimiter_or_whitespace(bytes[i])
        invariant
            index <= i <= bytes.len(),
            word_end(bytes@, index as int) == word_end(bytes@, i as int),
        decreases bytes.len() - i,
    {
        i += 1;
    }
    (slice_range(bytes, index, i), i)
}

// ---------------------------------------------------------------------------
// Numbers

pub open spec fn is_sign(b: u8) -> bool {
    b == 0x2bu8 || b == 0x2du8
}

/// Value of a run of decimal digits.
pub open spec fn digits_value(t: Seq<u8>) -> nat
    decreases t.len(),
{
    if t.len() == 0 {
        0
    } else {
        digits_value(t.drop_last()) * 10 + (t.last() - 0x30u8) as nat
    }
}

pub open spec fn all_digits(t: Seq<u8>) -> bool {
    forall|i: int| 0 <= i < t.len() ==> is_digit(#[trigger] t[i])
}

/// Integer value of a token as `i64::from_str` reads it: an optional sign
/// followed by at least one decimal digit (range not yet checked).
pub open spec fn int_token_value(t: Seq<u8>) -> Option<int> {
    if t.len() > 0 && is_sign(t[0]) {
        let d = t.subrange(1, t.len() as int);
        if d.len() > 0 && all_digits(d) {
            Some(if t[0] == 0x2du8 { -(digits_value(d) as int) } else { digits_value(d) as int })
        } else {
            None
        }
    } else if t.len() > 0 && all_digits(t) {
        Some(digits_value(t) as int)
    } else {
        None
    }
}

/// First index at or after `i` that is not a decimal digit.
pub open spec fn digit_run_end(t: Seq<u8>, i: int) -> int
    decreases t.len() - i,
{
    if 0 <= i < t.len() && is_digit(t[i]) {
        digit_run_end(t, i + 1)
    } else {
        i
    }
}

/// A token that `f64::from_str` accepts and that contains a decimal point:
/// `[sign] (digits '.' digits* | digits* '.' digits) [('e'|'E') [sign] digits]`.
pub open spec fn is_real_token(t: Seq<u8>) -> bool {
    let a: int = if t.len() > 0 && is_sign(t[0]) { 1 } else { 0 };
    let i1 = digit_run_end(t, a);
    &&& i1 < t.len()
    &&& t[i1] == 0x2eu8
    &&& {
        let i2 = digit_run_end(t, i1 + 1);
        &&& (i1 > a || i2 > i1 + 1)
        &&& (i2 == t.len() || ((t[i2] == 0x65u8 || t[i2] == 0x45u8) && {
            let b: int = if i2 + 1 < t.len() && is_sign(t[i2 + 1]) { i2 + 2 } else { i2 + 1 };
            let i3 = digit_run_end(t, b);
            i3 > b && i3 == t.len()
        }))
    }
}

pub open spec fn has_dot(t: Seq<u8>) -> bool {
    exists|i: int| 0 <= i < t.len() && t[i] == 0x2eu8
}

/// A numeric token: integer or real.
pub enum Numeric {
    Integer(i64),
    Real(Vec<u8>),
}

pub enum NumericView {
    Integer(i64),
    Real(Seq<u8>),
}

impl Numeric {
    pub open spec fn view_num(self) -> NumericView {
        match self {
            Numeric::Integer(v) => NumericView::Integer(v),
            Numeric::Real(t) => NumericView::Real(t@),
        }
    }
}

/// How a number token is read: a token containing `.` must be a real, any
/// other token must be an `i64` integer.
pub open spec fn number_token(t: Seq<u8>) -> Option<NumericView> {
    if has_dot(t) {
        if is_real_token(t) {
            Some(NumericView::Real(t))
        } else {
            None
        }
    } else {
        match int_token_value(t) {
            Some(v) => if i64::MIN <= v <= i64::MAX {
                Some(NumericView::Integer(v as i64))
            } else {
                None
            },
            None => None,
        }
    }
}

pub proof fn lemma_digit_run_end(t: Seq<u8>, i: int)
    requires
        0 <= i <= t.len(),
    ensures
        i <= digit_run_end(t, i) <= t.len(),
        forall|j: int| i <= j < digit_run_end(t, i) ==> is_digit(t[j]),
        digit_run_end(t, i) < t.len() ==> !is_digit(t[digit_run_end(t, i)]),
    decreases t.len() - i,
{
    if i < t.len() && is_digit(t[i]) {
        lemma_digit_run_end(t, i + 1);
    }
}

pub fn digit_run(t: &[u8], i: usize) -> (r: usize)
    requires
        i <= t.len(),
    ensures
        r == digit_run_end(t@, i as int),
        i <= r <= t.len(),
{
    proof {
        lemma_digit_run_end(t@, i as int);
    }
    let mut j = i;
    while j < t.len() && is_ascii_digit_byte(t[j])
        invariant
            i <= j <= t.len(),
            digit_run_end(t@, i as int) == digit_run_end(t@, j as int),
        decreases t.len() - j,
    {
        j += 1;
    }
    j
}

fn is_ascii_digit_byte(b: u8) -> (r: bool)
    ensures
        r == is_digit(b),
{
    crate::bytes::is_ascii_digit(b)
}

fn is_sign_byte(b: u8) -> (r: bool)
    ensures
        r == is_sign(b),
{
    b == 0x2bu8 || b == 0x2du8
}

pub fn real_token_ok(t: &[u8]) -> (r: bool)
    ensures
        r == is_real_token(t@),
{
    let a: usize = if t.len() > 0 && is_sign_byte(t[0]) { 1 } else { 0 };
    let i1 = digit_run(t, a);
    if i1 >= t.len() || t[i1] != 0x2eu8 {
        return false;
    }
    let i2 = digit_run(t, i1 + 1);
    if !(i1 > a || i2 > i1 + 1) {
        return false;
    }
    if i2 == t.len() {
        return true;
    }
    if !(t[i2] == 0x65u8 || t[i2] == 0x45u8) {
        return false;
    }
    let b: usize = if i2 + 1 < t.len() && is_sign_byte(t[i2 + 1]) { i2 + 2 } else { i2 + 1 };
    let i3 = digit_run(t, b);
    i3 > b && i3 == t.len()
}

fn contains_dot(t: &[u8]) -> (r: bool)
    ensures
        r == has_dot(t@),
{
    let mut i: usize = 0;
    while i < t.len()
        invariant
            i <= t.len(),
            forall|j: int| 0 <= j < i ==> t@[j] != 0x2eu8,
        decreases t.len() - i,
    {
        if t[i] == 0x2eu8 {
            return true;
        }
        i += 1;
    }
    false
}

pub proof fn lemma_digits_value_push(t: Seq<u8>, d: u8)
    ensures
        digits_value(t.push(d)) == digits_value(t) * 10 + (d - 0x30u8) as nat,
{
    assert(t.push(d).drop_last() =~= t);
}

pub proof fn lemma_digits_value_mono(t: Seq<u8>, k: int)
    requires
        0 <= k <= t.len(),
        all_digits(t),
    ensures
        digits_value(t.take(k)) <= digits_value(t),
    decreases t.len() - k,
{
    if k < t.len() {
        lemma_digits_value_mono(t, k + 1);
        assert(t.take(k + 1).drop_last() =~= t.take(k));
        assert(t.take(k + 1).last() == t[k]);
        assert(is_digit(t[k]));
    } else {
        assert(t.take(k) =~= t);
    }
}

/// Reads the magnitude of an all-digit slice `t[start..]`, failing when it
/// exceeds `u64::MAX`.
pub fn digits_magnitude(t: &[u8], start: usize) -> (r: Option<u64>)
    requires
        start <= t.len(),
        all_digits(t@.subrange(start as int, t.len() as int)),
    ensures
        r matches Some(v) ==> v == digits_value(t@.subrange(start as int, t.len() as int)),
        r is None ==> digits_value(t@.subrange(start as int, t.len() as int)) > u64::MAX,
{
    let ghost d = t@.subrange(start as int, t.len() as int);
    let mut acc: u64 = 0;
    let mut i = start;
    while i < t.len()
        invariant
            start <= i <= t.len(),
            d == t@.subrange(start as int, t.len() as int),
            all_digits(d),
            acc == digits_value(d.take(i - start)),
        decreases t.len() - i,
    {
        proof {
            assert(d[i - start] == t@[i as int]);
            assert(is_digit(d[i - start]));
        }
        let digit = t[i] - 0x30u8;
        proof {
            assert(d.take(i - start + 1) =~= d.take(i - start).push(t@[i as int]));
            lemma_digits_value_push(d.take(i - start), t@[i as int]);
        }
        match acc.checked_mul(10) {
            Some(m) => match m.checked_add(digit as u64) {
                Some(n) => {
                    acc = n;
                },
                None => {
                    proof {
                        lemma_digits_value_mono(d, i - start + 1);
                    }
                    return None;
                },
            },
            None => {
                proof {
                    lemma_digits_value_mono(d, i - start + 1);
                }
                return None;
            },
        }
        i += 1;
    }
    proof {
        assert(d.take(t.len() - start) =~= d);
    }
    Some(acc)
}

fn all_digit_bytes(t: &[u8], start: usize) -> (r: bool)
    requires
        start <= t.len(),
    ensures
        r == all_digits(t@.subrange(start as int, t.len() as int)),
{
    let mut i = start;
    while i < t.len()
        invariant
            start <= i <= t.len(),
            forall|j: int| start <= j < i ==> is_digit(t@[j]),
        decreases t.len() - i,
    {
        if !is_ascii_digit_byte(t[i]) {
            proof {
                assert(!is_digit(t@.subrange(start as int, t.len() as int)[i - start]));
            }
            return false;
        }
        i += 1;
    }
    proof {
        let d = t@.subrange(start as int, t.len() as int);
        assert forall|j: int| 0 <= j < d.len() implies is_digit(#[trigger] d[j]) by {
            assert(d[j] == t@[start + j]);
        }
    }
    true
}

/// Reads a numeric token (integer or real).
pub fn parse_number_token(t: &[u8]) -> (r: Option<Numeric>)
    ensures
        r matches Some(n) ==> number_token(t@) == Some(n.view_num()),
        r is None ==> number_token(t@) is None,
{
    if contains_dot(t) {
        if real_token_ok(t) {
            proof {
                assert(t@.subrange(0, t@.len() as int) =~= t@);
            }
            return Some(Numeric::Real(slice_range(t, 0, t.len())));
        }
        return None;
    }
    let signed = t.len() > 0 && is_sign_byte(t[0]);
    let start: usize = if signed { 1 } else { 0 };
    if start >= t.len() || !all_digit_bytes(t, start) {
        proof {
            if !signed {
                assert(t@.subrange(0, t@.len() as int) =~= t@);
            }
        }
        return None;
    }
    proof {
        if !signed {
            assert(t@.subrange(0, t@.len() as int) =~= t@);
        }
    }
    let negative = signed && t[0] == 0x2du8;
    match digits_magnitude(t, start) {
        None => None,
        Some(m) => {
            if negative {
                if m > 9223372036854775808u64 {
                    None
                } else if m == 9223372036854775808u64 {
                    Some(Numeric::Integer(i64::MIN))
                } else {
                    Some(Numeric::Integer(-(m as i64)))
                }
            } else {
                if m > 9223372036854775807u64 {
                    None
                } else {
                    Some(Numeric::Integer(m as i64))
                }
            }
        },
    }
}

} // verus!
