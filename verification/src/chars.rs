//! Strings as sequences of characters: reading the characters of a string,
//! building a string from characters, and whitespace as Unicode defines it.
use vstd::prelude::*;
use vstd::utf8::*;
use crate::utf8text::string_from_utf8;

verus! {

/// The characters of `s`, in order.
pub fn chars_of(s: &str) -> (r: Vec<char>)
    ensures
        r@ == s@,
{
    broadcast use vstd::string::axiom_spec_iter;
    let mut out: Vec<char> = Vec::new();
    for c in it: s.chars()
        invariant
            out@.len() == it.index(),
            forall|j: int| 0 <= j < out@.len() ==> out@[j] == it.seq()[j],
            it.seq() == s@,
    {
        out.push(c);
    }
    proof {
        assert(out@ =~= s@);
    }
    out
}

/// The encoding of `a` followed by `c` is that of `a`, then that of `c`.
pub proof fn lemma_encode_push(a: Seq<char>, c: char)
    ensures
        encode_utf8(a.push(c)) == encode_utf8(a) + encode_scalar(c as u32),
    decreases a.len(),
{
    if a.len() == 0 {
        assert(a.push(c).drop_first() =~= Seq::<char>::empty());
        assert(encode_utf8(Seq::<char>::empty()) =~= Seq::<u8>::empty());
        assert(encode_utf8(a.push(c)) =~= encode_scalar(c as u32));
        assert(encode_utf8(a) + encode_scalar(c as u32) =~= encode_scalar(c as u32));
    } else {
        lemma_encode_push(a.drop_first(), c);
        assert(a.push(c).drop_first() =~= a.drop_first().push(c));
        assert(encode_utf8(a.push(c)) =~= encode_scalar(a[0] as u32) + (encode_utf8(a.drop_first())
            + encode_scalar(c as u32)));
    }
}

/// Appends the UTF-8 encoding of `c`.
fn push_utf8(out: &mut Vec<u8>, c: char)
    ensures
        final(out)@ == old(out)@ + encode_scalar(c as u32),
{
    proof {
        char_is_scalar(c);
    }
    let v = c as u32;
    if v <= 0x7F {
        out.push((v & 0x7F) as u8);
        proof {
            assert(encode_scalar(v) =~= seq![(v & 0x7F) as u8]);
        }
    } else if v <= 0x7FF {
        out.push(0xC0u8 | ((v >> 6) & 0x1F) as u8);
        out.push(0x80u8 | (v & 0x3F) as u8);
        proof {
            assert(encode_scalar(v) =~= seq![0xC0u8 | ((v >> 6) & 0x1F) as u8, 0x80u8 | (v & 0x3F) as u8]);
        }
    } else if v <= 0xFFFF {
        out.push(0xE0u8 | ((v >> 12) & 0x0F) as u8);
        out.push(0x80u8 | ((v >> 6) & 0x3F) as u8);
        out.push(0x80u8 | (v & 0x3F) as u8);
        proof {
            assert(encode_scalar(v) =~= seq![
                0xE0u8 | ((v >> 12) & 0x0F) as u8,
                0x80u8 | ((v >> 6) & 0x3F) as u8,
                0x80u8 | (v & 0x3F) as u8,
            ]);
        }
    } else {
        out.push(0xF0u8 | ((v >> 18) & 0x7) as u8);
        out.push(0x80u8 | ((v >> 12) & 0x3F) as u8);
        out.push(0x80u8 | ((v >> 6) & 0x3F) as u8);
        out.push(0x80u8 | (v & 0x3F) as u8);
        proof {
            assert(encode_scalar(v) =~= seq![
                0xF0u8 | ((v >> 18) & 0x7) as u8,
                0x80u8 | ((v >> 12) & 0x3F) as u8,
                0x80u8 | ((v >> 6) & 0x3F) as u8,
                0x80u8 | (v & 0x3F) as u8,
            ]);
        }
    }
}

/// A string made of the characters `cs`.
pub fn string_of(cs: &[char]) -> (s: String)
    ensures
        s@ == cs@,
{
    let mut bytes: Vec<u8> = Vec::new();
    let mut i: usize = 0;
    proof {
        assert(cs@.take(0) =~= Seq::<char>::empty());
        assert(encode_utf8(Seq::<char>::empty()) =~= Seq::<u8>::empty());
    }
    while i < cs.len()
        invariant
            i <= cs.len(),
            bytes@ == encode_utf8(cs@.take(i as int)),
        decreases cs.len() - i,
    {
        proof {
            lemma_encode_push(cs@.take(i as int), cs@[i as int]);
            assert(cs@.take(i + 1) =~= cs@.take(i as int).push(cs@[i as int]));
        }
        push_utf8(&mut bytes, cs[i]);
        i += 1;
    }
    proof {
        assert(cs@.take(i as int) =~= cs@);
        encode_utf8_valid_utf8(cs@);
        encode_utf8_decode_utf8(cs@);
    }
    string_from_utf8(bytes.as_slice())
}

/// The characters `s[start..end]`, copied.
pub fn sub_chars(s: &[char], start: usize, end: usize) -> (r: Vec<char>)
    requires
        start <= end <= s.len(),
    ensures
        r@ == s@.subrange(start as int, end as int),
{
    let mut out: Vec<char> = Vec::new();
    let mut i = start;
    while i < end
        invariant
            start <= i <= end,
            end <= s.len(),
            out@ == s@.subrange(start as int, i as int),
        decreases end - i,
    {
        out.push(s[i]);
        proof {
            assert(out@ =~= s@.subrange(start as int, i + 1));
        }
        i += 1;
    }
    out
}

/// `char::from_u32`: the character whose scalar value is `v`. Its
/// documentation: `None` exactly when `v` is not a `char`, that is a
/// surrogate (U+D800 to U+DFFF) or above U+10FFFF.
#[verifier::external_body]
pub fn char_from_u32(v: u32) -> (r: Option<char>)
    ensures
        match r {
            Some(c) => c as u32 == v,
            None => !is_scalar(v),
        },
        is_scalar(v) ==> r is Some,
{
    char::from_u32(v)
}

/// What `str::to_lowercase` returns for `s`: each character replaced by
/// its Unicode lowercase mapping (which may be several characters).
pub uninterp spec fn lowercase(s: Seq<char>) -> Seq<char>;

/// `str::to_lowercase`. Its result is a function of the text alone.
#[verifier::external_body]
pub fn to_lowercase(s: &str) -> (r: String)
    ensures
        r@ == lowercase(s@),
{
    s.to_lowercase()
}

/// The number of bytes `c` takes in UTF-8.
pub fn char_width(c: char) -> (r: usize)
    ensures
        r == encode_scalar(c as u32).len(),
        1 <= r <= 4,
{
    proof {
        char_is_scalar(c);
    }
    let v = c as u32;
    if v <= 0x7F {
        1
    } else if v <= 0x7FF {
        2
    } else if v <= 0xFFFF {
        3
    } else {
        4
    }
}

} // verus!
