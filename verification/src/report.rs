//! Text helpers of the review reports: HTML escaping, hunk labels, digit
//! checks, and the section hints read from a paragraph's first words.
use vstd::prelude::*;
use vstd::utf8::{encode_utf8, encode_scalar};
use crate::types::{TextHunk, TextHunkKind, TextHunkGranularity};
use crate::chars::{chars_of, string_of, sub_chars, lowercase, to_lowercase, char_width};
use crate::fonts::{opt_chars, starts_with};
use crate::textscan::{white_space, is_white_space, ws_tokens, join_space, split_ws, token_views, contains_chars, find_chars, trim_start, trim_leading};
use crate::cmap::{trim, trim_end, ends_with};

verus! {

/// The HTML escape of one character.
pub open spec fn escape_char(c: char) -> Seq<char> {
    if c == '&' {
        "&amp;"@
    } else if c == '<' {
        "&lt;"@
    } else if c == '>' {
        "&gt;"@
    } else if c == '"' {
        "&quot;"@
    } else {
        seq![c]
    }
}

/// `s` with `&`, `<`, `>` and `"` escaped for HTML.
pub open spec fn escaped(s: Seq<char>) -> Seq<char>
    decreases s.len(),
{
    if s.len() == 0 {
        Seq::empty()
    } else {
        escaped(s.drop_last()) + escape_char(s.last())
    }
}

fn push_str_chars(out: &mut Vec<char>, s: &str)
    ensures
        final(out)@ == old(out)@ + s@,
{
    let cs = chars_of(s);
    let mut i: usize = 0;
    while i < cs.len()
        invariant
            i <= cs.len(),
            cs@ == s@,
            out@ == old(out)@ + cs@.take(i as int),
        decreases cs.len() - i,
    {
        out.push(cs[i]);
        proof {
            assert(cs@.take(i + 1) =~= cs@.take(i as int).push(cs@[i as int]));
        }
        i += 1;
    }
    proof {
        assert(cs@.take(i as int) =~= cs@);
    }
}

/// Escapes `&`, `<`, `>` and `"` for HTML text and attributes.
pub fn escape_html(value: &str) -> (r: String)
    ensures
        r@ == escaped(value@),
{
    let cs = chars_of(value);
    let mut out: Vec<char> = Vec::new();
    let mut i: usize = 0;
    proof {
        assert(cs@.take(0) =~= Seq::<char>::empty());
    }
    while i < cs.len()
        invariant
            i <= cs.len(),
            out@ == escaped(cs@.take(i as int)),
        decreases cs.len() - i,
    {
        let c = cs[i];
        let ghost before = out@;
        if c == '&' {
            push_str_chars(&mut out, "&amp;");
        } else if c == '<' {
            push_str_chars(&mut out, "&lt;");
        } else if c == '>' {
            push_str_chars(&mut out, "&gt;");
        } else if c == '"' {
            push_str_chars(&mut out, "&quot;");
        } else {
            out.push(c);
            proof {
                assert(out@ =~= before + seq![c]);
            }
        }
        proof {
            assert(cs@.take(i + 1).drop_last() =~= cs@.take(i as int));
            assert(cs@.take(i + 1).last() == c);
        }
        i += 1;
    }
    proof {
        assert(cs@.take(i as int) =~= cs@);
    }
    string_of(out.as_slice())
}

/// `value` contains one of `needles` (an empty needle is contained in any
/// text).
pub open spec fn contains_any(value: Seq<char>, needles: Seq<Seq<char>>) -> bool {
    exists|i: int| 0 <= i < needles.len() && contains_chars(value, #[trigger] needles[i])
}

pub fn has_any(value: &str, needles: &[&str]) -> (r: bool)
    ensures
        r == contains_any(value@, needles@.map_values(|n: &str| n@)),
{
    let ghost ns = needles@.map_values(|n: &str| n@);
    let v = chars_of(value);
    let mut i: usize = 0;
    while i < needles.len()
        invariant
            i <= needles.len(),
            v@ == value@,
            ns == needles@.map_values(|n: &str| n@),
            forall|j: int| 0 <= j < i ==> !contains_chars(value@, #[trigger] ns[j]),
        decreases needles.len() - i,
    {
        let p = chars_of(needles[i]);
        proof {
            assert(ns[i as int] == needles@[i as int]@);
        }
        if find_chars(&v, &p, 0).is_some() {
            return true;
        }
        i += 1;
    }
    false
}

/// `t` holds an ASCII digit.
pub open spec fn has_digit(t: Seq<char>) -> bool {
    exists|i: int| 0 <= i < t.len() && '0' <= #[trigger] t[i] <= '9'
}

fn text_has_digit(t: &String) -> (r: bool)
    ensures
        r == has_digit(t@),
{
    let cs = chars_of(t.as_str());
    let mut i: usize = 0;
    while i < cs.len()
        invariant
            i <= cs.len(),
            cs@ == t@,
            forall|j: int| 0 <= j < i ==> !('0' <= #[trigger] cs@[j] <= '9'),
        decreases cs.len() - i,
    {
        if '0' <= cs[i] && cs[i] <= '9' {
            return true;
        }
        i += 1;
    }
    false
}

/// Either side of the hunk holds a digit.
pub fn hunk_has_digit_change(hunk: &TextHunk) -> (r: bool)
    ensures
        r == ((hunk.old_text matches Some(t) && has_digit(t@)) || (hunk.new_text matches Some(t) && has_digit(t@))),
{
    let old_digit = match &hunk.old_text {
        Some(t) => text_has_digit(t),
        None => false,
    };
    if old_digit {
        return true;
    }
    match &hunk.new_text {
        Some(t) => text_has_digit(t),
        None => false,
    }
}

pub open spec fn kind_name(k: TextHunkKind) -> Seq<char> {
    match k {
        TextHunkKind::Equal => "Equal"@,
        TextHunkKind::Inserted => "Inserted"@,
        TextHunkKind::Deleted => "Deleted"@,
        TextHunkKind::Replaced => "Replaced"@,
    }
}

pub open spec fn granularity_name(g: TextHunkGranularity) -> Seq<char> {
    match g {
        TextHunkGranularity::Token => "Token"@,
        TextHunkGranularity::Character => "Character"@,
    }
}

/// The hunk's kind, and its granularity after a slash when it has one.
pub fn hunk_label(hunk: &TextHunk) -> (r: String)
    ensures
        r@ == match hunk.granularity {
            Some(g) => kind_name(hunk.kind) + "/"@ + granularity_name(g),
            None => kind_name(hunk.kind),
        },
{
    let kind: &str = match hunk.kind {
        TextHunkKind::Equal => "Equal",
        TextHunkKind::Inserted => "Inserted",
        TextHunkKind::Deleted => "Deleted",
        TextHunkKind::Replaced => "Replaced",
    };
    match hunk.granularity {
        Some(g) => {
            let name: &str = match g {
                TextHunkGranularity::Token => "Token",
                TextHunkGranularity::Character => "Character",
            };
            let r = crate::fmt::concat(&[kind, "/", name]);
            proof {
                reveal_with_fuel(crate::fmt::concat_spec, 4);
            }
            r
        },
        None => kind.to_owned(),
    }
}

/// The first `limit` tokens, or all of them.
pub open spec fn first_n(ts: Seq<Seq<char>>, limit: int) -> Seq<Seq<char>> {
    if ts.len() <= limit {
        ts
    } else {
        ts.take(limit)
    }
}

/// How many leading characters of `v` fit in `n` bytes of UTF-8.
pub open spec fn chars_within(v: Seq<char>, n: int) -> nat
    decreases v.len(),
{
    if v.len() == 0 {
        0
    } else if encode_scalar(v[0] as u32).len() > n {
        0
    } else {
        1 + chars_within(v.drop_first(), n - encode_scalar(v[0] as u32).len())
    }
}

/// The first `limit` words of `text` joined by single spaces.
pub open spec fn joined_words(text: Seq<char>, limit: int) -> Seq<char> {
    join_space(first_n(ws_tokens(text), limit))
}

/// Cutting the joined words at 96 bytes falls between two characters (or
/// no cut is needed); the reader this mirrors does not survive a cut
/// inside a character.
pub open spec fn first_words_ok(text: Seq<char>, limit: int) -> bool {
    let v = joined_words(text, limit);
    encode_utf8(v).len() <= 96 || encode_utf8(v.take(chars_within(v, 96) as int)).len() == 96
}

/// The first `limit` words of `text`, joined by spaces and cut to 96 bytes
/// (then without trailing whitespace).
pub open spec fn first_words_spec(text: Seq<char>, limit: int) -> Seq<char> {
    let v = joined_words(text, limit);
    if encode_utf8(v).len() <= 96 {
        v
    } else {
        trim_end(v.take(chars_within(v, 96) as int))
    }
}

fn trim_end_chars(s: &Vec<char>) -> (r: Vec<char>)
    ensures
        r@ == trim_end(s@),
{
    let mut n = s.len();
    proof {
        assert(s@.take(n as int) =~= s@);
    }
    while n > 0 && is_white_space(s[n - 1])
        invariant
            n <= s.len(),
            trim_end(s@) == trim_end(s@.take(n as int)),
        decreases n,
    {
        proof {
            assert(s@.take(n as int).drop_last() =~= s@.take(n - 1));
            assert(s@.take(n as int).last() == s@[n - 1]);
        }
        n -= 1;
    }
    proof {
        if n > 0 {
            assert(s@.take(n as int).last() == s@[n - 1]);
        }
    }
    sub_chars(s.as_slice(), 0, n)
}

fn join_chars(tokens: &Vec<Vec<char>>, k: usize) -> (r: Vec<char>)
    requires
        k <= tokens.len(),
    ensures
        r@ == join_space(token_views(tokens@).take(k as int)),
{
    let ghost ts = token_views(tokens@);
    let mut joined: Vec<char> = Vec::new();
    let mut i: usize = 0;
    proof {
        assert(ts.take(0) =~= Seq::<Seq<char>>::empty());
    }
    while i < k
        invariant
            i <= k,
            k <= tokens.len(),
            ts == token_views(tokens@),
            joined@ == join_space(ts.take(i as int)),
        decreases k - i,
    {
        let ghost before = joined@;
        if i > 0 {
            joined.push(' ');
        }
        let mut j: usize = 0;
        while j < tokens[i].len()
            invariant
                i < k <= tokens.len(),
                j <= tokens@[i as int]@.len(),
                joined@ == (if i > 0 { before.push(' ') } else { before }) + tokens@[i as int]@.take(j as int),
            decreases tokens@[i as int]@.len() - j,
        {
            joined.push(tokens[i][j]);
            proof {
                assert(tokens@[i as int]@.take(j + 1) =~= tokens@[i as int]@.take(j as int).push(
                    tokens@[i as int]@[j as int],
                ));
            }
            j += 1;
        }
        proof {
            assert(tokens@[i as int]@.take(j as int) =~= tokens@[i as int]@);
            assert(ts[i as int] == tokens@[i as int]@);
            let t = ts.take(i + 1);
            assert(t.drop_last() =~= ts.take(i as int));
            assert(t.last() == ts[i as int]);
            if i == 0 {
                assert(joined@ =~= ts[0]);
            } else {
                assert(joined@ =~= join_space(ts.take(i as int)) + seq![' '] + ts[i as int]);
            }
        }
        i += 1;
    }
    joined
}

/// Encoding `a` then `b` is encoding `a + b`.
proof fn lemma_encode_concat(a: Seq<char>, b: Seq<char>)
    ensures
        encode_utf8(a + b) == encode_utf8(a) + encode_utf8(b),
    decreases b.len(),
{
    if b.len() == 0 {
        assert(a + b =~= a);
        assert(encode_utf8(b) =~= Seq::<u8>::empty());
        assert(encode_utf8(a) + encode_utf8(b) =~= encode_utf8(a));
    } else {
        lemma_encode_concat(a, b.drop_last());
        crate::chars::lemma_encode_push(a + b.drop_last(), b.last());
        crate::chars::lemma_encode_push(b.drop_last(), b.last());
        assert((a + b.drop_last()).push(b.last()) =~= a + b);
        assert(b.drop_last().push(b.last()) =~= b);
        assert(encode_utf8(a) + encode_utf8(b) =~= encode_utf8(a) + encode_utf8(b.drop_last()) + encode_scalar(
            b.last() as u32,
        ));
    }
}

/// The UTF-8 encoding of `cs` is longer than `n` bytes.
fn exceeds_bytes(cs: &Vec<char>, n: usize) -> (r: bool)
    ensures
        r == (encode_utf8(cs@).len() > n),
{
    let mut used: usize = 0;
    let mut i: usize = 0;
    proof {
        assert(cs@.take(0) =~= Seq::<char>::empty());
        assert(encode_utf8(Seq::<char>::empty()) =~= Seq::<u8>::empty());
    }
    while i < cs.len()
        invariant
            i <= cs.len(),
            used <= n,
            used == encode_utf8(cs@.take(i as int)).len(),
        decreases cs.len() - i,
    {
        let w = char_width(cs[i]);
        proof {
            crate::chars::lemma_encode_push(cs@.take(i as int), cs@[i as int]);
            assert(cs@.take(i + 1) =~= cs@.take(i as int).push(cs@[i as int]));
        }
        if w > n - used {
            proof {
                lemma_encode_concat(cs@.take(i + 1), cs@.skip(i + 1));
                assert(cs@.take(i + 1) + cs@.skip(i + 1) =~= cs@);
            }
            return true;
        }
        used = used + w;
        i += 1;
    }
    proof {
        assert(cs@.take(i as int) =~= cs@);
    }
    false
}

/// The first `limit` words of `text`, joined by spaces and cut to 96 bytes.
pub fn first_words(text: &str, limit: usize) -> (r: String)
    requires
        first_words_ok(text@, limit as int),
    ensures
        r@ == first_words_spec(text@, limit as int),
{
    let cs = chars_of(text);
    let tokens = split_ws(&cs);
    let k = if tokens.len() <= limit { tokens.len() } else { limit };
    let joined = join_chars(&tokens, k);
    proof {
        assert(first_n(ws_tokens(text@), limit as int) =~= token_views(tokens@).take(k as int));
    }
    let value = string_of(joined.as_slice());
    proof {
        assert(joined@ == joined_words(text@, limit as int));
    }
    if !exceeds_bytes(&joined, 96) {
        return value;
    }
    let ghost v = joined@;
    let mut count: usize = 0;
    let mut used: usize = 0;
    proof {
        assert(v.take(0) =~= Seq::<char>::empty());
        assert(encode_utf8(Seq::<char>::empty()) =~= Seq::<u8>::empty());
        assert(v.skip(0) =~= v);
    }
    while count < joined.len() && used + char_width(joined[count]) <= 96
        invariant
            count <= joined.len(),
            v == joined@,
            used == encode_utf8(v.take(count as int)).len(),
            used <= 96,
            chars_within(v, 96) == count + chars_within(v.skip(count as int), 96 - used),
        decreases joined.len() - count,
    {
        let w = char_width(joined[count]);
        proof {
            crate::chars::lemma_encode_push(v.take(count as int), v[count as int]);
            assert(v.take(count + 1) =~= v.take(count as int).push(v[count as int]));
            assert(v.skip(count as int)[0] == v[count as int]);
            assert(v.skip(count as int).drop_first() =~= v.skip(count + 1));
        }
        used = used + w;
        count += 1;
    }
    proof {
        if count < joined.len() {
            assert(v.skip(count as int)[0] == v[count as int]);
        } else {
            assert(v.skip(count as int).len() == 0);
        }
    }
    let cut = sub_chars(joined.as_slice(), 0, count);
    proof {
        assert(cut@ =~= v.take(count as int));
    }
    let trimmed = trim_end_chars(&cut);
    string_of(trimmed.as_slice())
}

/// The first word of `t`, or nothing.
pub open spec fn first_token(t: Seq<char>) -> Seq<char> {
    if ws_tokens(t).len() > 0 {
        ws_tokens(t)[0]
    } else {
        Seq::empty()
    }
}

/// A first word that numbers a section: with a digit, and ending with `.`
/// or `)` or holding a `.`.
pub open spec fn numbered(first: Seq<char>) -> bool {
    has_digit(first) && (ends_with(first, "."@) || ends_with(first, ")"@) || first.contains('.'))
}

/// The paragraph opens a section: it starts with `section ` or `clause `
/// (in any case), or its first word numbers one.
pub open spec fn opens_section(text: Seq<char>) -> bool {
    let t = trim(text);
    t.len() > 0 && (starts_with(lowercase(t), "section "@) || starts_with(lowercase(t), "clause "@) || numbered(
        first_token(t),
    ))
}

fn starts_with_text(s: &Vec<char>, p: &str) -> (r: bool)
    ensures
        r == starts_with(s@, p@),
{
    let pc = chars_of(p);
    if s.len() < pc.len() {
        return false;
    }
    let mut i: usize = 0;
    while i < pc.len()
        invariant
            i <= pc.len() <= s.len(),
            pc@ == p@,
            forall|j: int| 0 <= j < i ==> s@[j] == pc@[j],
        decreases pc.len() - i,
    {
        if s[i] != pc[i] {
            proof {
                assert(s@.take(pc@.len() as int)[i as int] != pc@[i as int]);
            }
            return false;
        }
        i += 1;
    }
    proof {
        assert(s@.take(pc@.len() as int) =~= pc@);
    }
    true
}

fn ends_with_char_text(s: &Vec<char>, c: char) -> (r: bool)
    ensures
        r == ends_with(s@, seq![c]),
{
    let n = s.len();
    let r = n > 0 && s[n - 1] == c;
    proof {
        if n > 0 {
            assert(s@.skip(n - 1) =~= seq![s@[n - 1]]);
        }
        if ends_with(s@, seq![c]) {
            assert(s@.skip(n - 1)[0] == s@[n - 1]);
        }
    }
    r
}

/// The section a paragraph opens, read from its first ten words.
pub fn section_hint_from_text(text: &str) -> (r: Option<String>)
    requires
        opens_section(text@) ==> first_words_ok(trim(text@), 10),
    ensures
        match r {
            Some(h) => opens_section(text@) && h@ == first_words_spec(trim(text@), 10),
            None => !opens_section(text@),
        },
{
    let cs = chars_of(text);
    let t = crate::cmap::trim_chars(&cs);
    if t.len() == 0 {
        return None;
    }
    let trimmed = string_of(t.as_slice());
    let lower = to_lowercase(trimmed.as_str());
    let lc = chars_of(lower.as_str());
    if starts_with_text(&lc, "section ") || starts_with_text(&lc, "clause ") {
        return Some(first_words(trimmed.as_str(), 10));
    }
    let tokens = split_ws(&t);
    let first: Vec<char> = if tokens.len() > 0 {
        sub_chars(tokens[0].as_slice(), 0, tokens[0].len())
    } else {
        Vec::new()
    };
    proof {
        if token_views(tokens@).len() > 0 {
            assert(token_views(tokens@)[0] == tokens@[0]@);
            assert(first@ =~= tokens@[0]@);
        } else {
            assert(first@ =~= Seq::<char>::empty());
        }
        reveal_strlit(".");
        reveal_strlit(")");
    }
    let first_string = string_of(first.as_slice());
    let digit = text_has_digit(&first_string);
    let mut has_dot = false;
    let mut i: usize = 0;
    while i < first.len()
        invariant
            i <= first.len(),
            has_dot == exists|j: int| 0 <= j < i && first@[j] == '.',
        decreases first.len() - i,
    {
        if first[i] == '.' {
            has_dot = true;
        }
        i += 1;
    }
    proof {
        assert(has_dot == first@.contains('.'));
    }
    let looks_numbered = digit && (ends_with_char_text(&first, '.') || ends_with_char_text(&first, ')') || has_dot);
    proof {
        assert(t@ == trim(text@));
        assert(first@ == first_token(t@));
        assert(digit == has_digit(first@));
        assert("."@ =~= seq!['.']);
        assert(")"@ =~= seq![')']);
        assert(ends_with(first@, "."@) == ends_with(first@, seq!['.']));
        assert(looks_numbered == numbered(first@));
    }
    if looks_numbered {
        Some(first_words(trimmed.as_str(), 10))
    } else {
        None
    }
}

} // verus!
