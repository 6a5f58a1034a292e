use vstd::prelude::*;

verus! {

/// The decimal digits of `n`, most significant first, without leading zeros
/// (zero itself is written as a single `0`).
pub open spec fn decimal_chars(n: nat) -> Seq<char>
    decreases n,
{
    if n < 10 {
        seq![digit_char(n)]
    } else {
        decimal_chars(n / 10).push(digit_char(n % 10))
    }
}

/// The lower-case hexadecimal digit for `d < 16` (decimal digits included).
pub open spec fn digit_char(d: nat) -> char {
    if d == 0 { '0' }
    else if d == 1 { '1' }
    else if d == 2 { '2' }
    else if d == 3 { '3' }
    else if d == 4 { '4' }
    else if d == 5 { '5' }
    else if d == 6 { '6' }
    else if d == 7 { '7' }
    else if d == 8 { '8' }
    else if d == 9 { '9' }
    else if d == 10 { 'a' }
    else if d == 11 { 'b' }
    else if d == 12 { 'c' }
    else if d == 13 { 'd' }
    else if d == 14 { 'e' }
    else { 'f' }
}

/// The one-character string of a digit.
fn digit_str(d: u64) -> (s: &'static str)
    requires
        d < 16,
    ensures
        s@ == seq![digit_char(d as nat)],
{
    proof {
        reveal_strlit("0"); reveal_strlit("1"); reveal_strlit("2"); reveal_strlit("3");
        reveal_strlit("4"); reveal_strlit("5"); reveal_strlit("6"); reveal_strlit("7");
        reveal_strlit("8"); reveal_strlit("9"); reveal_strlit("a"); reveal_strlit("b");
        reveal_strlit("c"); reveal_strlit("d"); reveal_strlit("e"); reveal_strlit("f");
    }
    if d == 0 { "0" }
    else if d == 1 { "1" }
    else if d == 2 { "2" }
    else if d == 3 { "3" }
    else if d == 4 { "4" }
    else if d == 5 { "5" }
    else if d == 6 { "6" }
    else if d == 7 { "7" }
    else if d == 8 { "8" }
    else if d == 9 { "9" }
    else if d == 10 { "a" }
    else if d == 11 { "b" }
    else if d == 12 { "c" }
    else if d == 13 { "d" }
    else if d == 14 { "e" }
    else { "f" }
}

/// The decimal digits of an unsigned integer.
pub fn u64_to_decimal(n: u64) -> (s: String)
    ensures
        s@ == decimal_chars(n as nat),
    decreases n,
{
    if n < 10 {
        digit_str(n).to_owned()
    } else {
        let mut s = u64_to_decimal(n / 10);
        s.append(digit_str(n % 10));
        s
    }
}

/// `v` written in decimal, with a leading `-` when negative.
pub open spec fn signed_decimal(v: int) -> Seq<char> {
    if v < 0 {
        seq!['-'] + decimal_chars((-v) as nat)
    } else {
        decimal_chars(v as nat)
    }
}

/// A signed integer in decimal.
pub fn i64_to_decimal(v: i64) -> (s: String)
    ensures
        s@ == signed_decimal(v as int),
{
    if v < 0 {
        let magnitude: u64 = if v == i64::MIN { 9223372036854775808u64 } else { (-v) as u64 };
        let digits = u64_to_decimal(magnitude);
        let mut s = "-".to_owned();
        s.append(digits.as_str());
        proof {
            reveal_strlit("-");
        }
        s
    } else {
        u64_to_decimal(v as u64)
    }
}

/// The last `n` hexadecimal digits of `h`, most significant first.
pub open spec fn hex_chars(h: nat, n: nat) -> Seq<char>
    decreases n,
{
    if n == 0 {
        Seq::empty()
    } else {
        hex_chars(h / 16, (n - 1) as nat).push(digit_char(h % 16))
    }
}

/// The last `n` hexadecimal digits of `h`, zero-padded.
pub fn hex_digits(h: u64, n: usize) -> (s: String)
    ensures
        s@ == hex_chars(h as nat, n as nat),
    decreases n,
{
    if n == 0 {
        String::new()
    } else {
        let mut s = hex_digits(h / 16, n - 1);
        s.append(digit_str(h % 16));
        s
    }
}

/// An unsigned integer in decimal.
pub fn usize_to_string(n: usize) -> (s: String)
    ensures
        s@ == decimal_chars(n as nat),
{
    u64_to_decimal(n as u64)
}

/// Concatenates two string slices.
pub fn concat2(a: &str, b: &str) -> (s: String)
    ensures
        s@ == a@ + b@,
{
    let mut out = a.to_owned();
    out.append(b);
    out
}

/// Concatenates string slices.
pub fn concat(parts: &[&str]) -> (s: String)
    ensures
        s@ == concat_spec(parts@.map_values(|p: &str| p@)),
{
    let mut out = String::new();
    let mut i: usize = 0;
    while i < parts.len()
        invariant
            i <= parts.len(),
            out@ == concat_spec(parts@.map_values(|p: &str| p@).take(i as int)),
        decreases parts.len() - i,
    {
        out.append(parts[i]);
        proof {
            let v = parts@.map_values(|p: &str| p@);
            assert(v.take(i + 1).drop_last() =~= v.take(i as int));
        }
        i += 1;
    }
    proof {
        let v = parts@.map_values(|p: &str| p@);
        assert(v.take(parts.len() as int) =~= v);
    }
    out
}

pub open spec fn concat_spec(parts: Seq<Seq<char>>) -> Seq<char>
    decreases parts.len(),
{
    if parts.len() == 0 {
        Seq::empty()
    } else {
        concat_spec(parts.drop_last()) + parts.last()
    }
}

} // verus!
