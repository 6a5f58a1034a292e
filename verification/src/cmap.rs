//! ToUnicode character maps: the `bfchar` and `bfrange` sections that tell
//! which text a font's character codes stand for, and decoding of shown
//! bytes through such a map.
use vstd::prelude::*;
use vstd::utf8::is_scalar;
use crate::chars::{chars_of, string_of, char_from_u32};
use crate::xref::be_value;
use crate::chars::sub_chars;
use crate::textscan::{white_space, is_white_space, trim_start, trim_leading};
use crate::types::{Diagnostic, DiagnosticSeverity, DiagView, diag_views, plain_diag};
use crate::utf8text::{utf8_lossy, lossy_string};
use vstd::utf8::encode_utf8;

verus! {

/// Codes with the text they stand for; inserting a present code replaces
/// its text.
#[derive(Debug, Clone, PartialEq, Eq)]
pub struct CodeMap {
    entries: Vec<(Vec<u8>, String)>,
}

pub open spec fn code_map(s: Seq<(Vec<u8>, String)>) -> Map<Seq<u8>, Seq<char>>
    decreases s.len(),
{
    if s.len() == 0 {
        Map::empty()
    } else {
        code_map(s.drop_last()).insert(s.last().0@, s.last().1@)
    }
}

pub open spec fn distinct_codes(s: Seq<(Vec<u8>, String)>) -> bool {
    forall|i: int, j: int| 0 <= i < j < s.len() ==> s[i].0@ != s[j].0@
}

proof fn lemma_code_map_dom(s: Seq<(Vec<u8>, String)>)
    ensures
        forall|k: Seq<u8>| code_map(s).dom().contains(k) <==> exists|i: int| 0 <= i < s.len() && #[trigger] s[i].0@ == k,
    decreases s.len(),
{
    if s.len() > 0 {
        let p = s.drop_last();
        lemma_code_map_dom(p);
        assert forall|k: Seq<u8>| code_map(s).dom().contains(k) implies exists|i: int| 0 <= i < s.len() && #[trigger] s[i].0@ == k by {
            if k != s.last().0@ {
                assert(code_map(p).dom().contains(k));
                let i = choose|i: int| 0 <= i < p.len() && #[trigger] p[i].0@ == k;
                assert(s[i] == p[i]);
            } else {
                assert(s[s.len() - 1].0@ == k);
            }
        }
        assert forall|k: Seq<u8>| (exists|i: int| 0 <= i < s.len() && #[trigger] s[i].0@ == k) implies code_map(s).dom().contains(k) by {
            let i = choose|i: int| 0 <= i < s.len() && #[trigger] s[i].0@ == k;
            if i < s.len() - 1 {
                assert(p[i] == s[i]);
                assert(p[i].0@ == k);
                assert(code_map(p).dom().contains(k));
            }
        }
    }
}

proof fn lemma_code_map_get(s: Seq<(Vec<u8>, String)>, k: int)
    requires
        distinct_codes(s),
        0 <= k < s.len(),
    ensures
        code_map(s).dom().contains(s[k].0@),
        code_map(s)[s[k].0@] == s[k].1@,
    decreases s.len(),
{
    if k < s.len() - 1 {
        lemma_code_map_get(s.drop_last(), k);
    }
}

proof fn lemma_code_map_update(s: Seq<(Vec<u8>, String)>, k: int, e: (Vec<u8>, String))
    requires
        distinct_codes(s),
        0 <= k < s.len(),
        e.0@ == s[k].0@,
    ensures
        code_map(s.update(k, e)) == code_map(s).insert(e.0@, e.1@),
    decreases s.len(),
{
    let u = s.update(k, e);
    if k == s.len() - 1 {
        assert(u.drop_last() =~= s.drop_last());
        assert(code_map(u) =~= code_map(s).insert(e.0@, e.1@));
    } else {
        lemma_code_map_update(s.drop_last(), k, e);
        assert(u.drop_last() =~= s.drop_last().update(k, e));
        assert(s.last().0@ != e.0@);
        assert(code_map(u) =~= code_map(s).insert(e.0@, e.1@));
    }
}

proof fn lemma_code_map_len(s: Seq<(Vec<u8>, String)>)
    requires
        distinct_codes(s),
    ensures
        code_map(s).dom().finite(),
        code_map(s).dom().len() == s.len(),
    decreases s.len(),
{
    if s.len() > 0 {
        let p = s.drop_last();
        lemma_code_map_len(p);
        lemma_code_map_dom(p);
        assert(!code_map(p).dom().contains(s.last().0@)) by {
            if code_map(p).dom().contains(s.last().0@) {
                let i = choose|i: int| 0 <= i < p.len() && #[trigger] p[i].0@ == s.last().0@;
                assert(s[i] == p[i]);
            }
        }
    }
}

fn same_bytes(a: &Vec<u8>, b: &[u8]) -> (r: bool)
    ensures
        r == (a@ == b@),
{
    if a.len() != b.len() {
        return false;
    }
    let mut i: usize = 0;
    while i < a.len()
        invariant
            i <= a.len(),
            a.len() == b.len(),
            forall|j: int| 0 <= j < i ==> a@[j] == b@[j],
        decreases a.len() - i,
    {
        if a[i] != b[i] {
            return false;
        }
        i += 1;
    }
    proof {
        assert(a@ =~= b@);
    }
    true
}

impl CodeMap {
    pub closed spec fn view(&self) -> Map<Seq<u8>, Seq<char>> {
        code_map(self.entries@)
    }

    pub closed spec fn wf(&self) -> bool {
        distinct_codes(self.entries@)
    }

    pub fn new() -> (m: Self)
        ensures
            m.wf(),
            m@ == Map::<Seq<u8>, Seq<char>>::empty(),
    {
        CodeMap { entries: Vec::new() }
    }

    /// Binds `code` to `text`.
    pub fn insert(&mut self, code: Vec<u8>, text: String)
        requires
            old(self).wf(),
        ensures
            final(self).wf(),
            final(self)@ == old(self)@.insert(code@, text@),
    {
        let mut i: usize = 0;
        while i < self.entries.len()
            invariant
                i <= self.entries.len(),
                self.entries@ == old(self).entries@,
                distinct_codes(self.entries@),
                forall|j: int| 0 <= j < i ==> self.entries@[j].0@ != code@,
            decreases self.entries.len() - i,
        {
            if same_bytes(&self.entries[i].0, code.as_slice()) {
                let ghost before = self.entries@;
                let e = (code, text);
                proof {
                    lemma_code_map_update(before, i as int, e);
                }
                self.entries.set(i, e);
                proof {
                    assert(self.entries@ =~= before.update(i as int, e));
                    assert forall|a: int, b: int| 0 <= a < b < self.entries@.len() implies self.entries@[a].0@
                        != self.entries@[b].0@ by {
                        assert(before[a].0@ != before[b].0@);
                    }
                }
                return;
            }
            i += 1;
        }
        let ghost before = self.entries@;
        self.entries.push((code, text));
        proof {
            assert(self.entries@.drop_last() =~= before);
            assert forall|a: int, b: int| 0 <= a < b < self.entries@.len() implies self.entries@[a].0@
                != self.entries@[b].0@ by {
                if b < before.len() {
                    assert(before[a].0@ != before[b].0@);
                } else {
                    assert(self.entries@[a] == before[a]);
                }
            }
        }
    }

    /// The text bound to `code`.
    pub fn get(&self, code: &[u8]) -> (r: Option<&String>)
        requires
            self.wf(),
        ensures
            match r {
                Some(t) => self@.dom().contains(code@) && self@[code@] == t@,
                None => !self@.dom().contains(code@),
            },
    {
        let mut i: usize = 0;
        while i < self.entries.len()
            invariant
                i <= self.entries.len(),
                distinct_codes(self.entries@),
                forall|j: int| 0 <= j < i ==> self.entries@[j].0@ != code@,
            decreases self.entries.len() - i,
        {
            if same_bytes(&self.entries[i].0, code) {
                proof {
                    lemma_code_map_get(self.entries@, i as int);
                }
                return Some(&self.entries[i].1);
            }
            i += 1;
        }
        proof {
            lemma_code_map_dom(self.entries@);
        }
        None
    }

    /// No code is bound.
    pub fn is_empty(&self) -> (r: bool)
        ensures
            r == (self@.dom() =~= Set::<Seq<u8>>::empty()),
    {
        proof {
            lemma_code_map_dom(self.entries@);
            if self.entries@.len() > 0 {
                assert(self@.dom().contains(self.entries@[0].0@));
            }
        }
        self.entries.len() == 0
    }

    /// The number of codes bound.
    pub fn len(&self) -> (r: usize)
        requires
            self.wf(),
        ensures
            r as nat == self@.dom().len(),
    {
        proof {
            lemma_code_map_len(self.entries@);
        }
        self.entries.len()
    }

    /// The bindings, one per code.
    pub fn entries(&self) -> (r: &Vec<(Vec<u8>, String)>)
        requires
            self.wf(),
        ensures
            distinct_codes(r@),
            code_map(r@) == self@,
    {
        &self.entries
    }
}

/// The characters that big-endian UTF-16 code units stand for, each unit on
/// its own (a surrogate, alone, stands for nothing); `None` for an odd
/// number of bytes or a surrogate.
pub open spec fn utf16_units(b: Seq<u8>) -> Option<Seq<char>>
    decreases b.len(),
{
    if b.len() % 2 != 0 {
        None
    } else if b.len() == 0 {
        Some(Seq::empty())
    } else {
        let v = (b[0] as u32) * 256 + (b[1] as u32);
        if !is_scalar(v as u32) {
            None
        } else {
            match utf16_units(b.skip(2)) {
                Some(rest) => Some(seq![v as char] + rest),
                None => None,
            }
        }
    }
}

/// Decodes big-endian UTF-16 code units one by one.
pub fn unicode_hex_to_string(bytes: &[u8]) -> (r: Option<String>)
    ensures
        match utf16_units(bytes@) {
            Some(cs) => r matches Some(s) && s@ == cs,
            None => r is None,
        },
{
    if bytes.len() % 2 != 0 {
        return None;
    }
    let mut out: Vec<char> = Vec::new();
    let mut i: usize = 0;
    proof {
        assert(bytes@.skip(0) =~= bytes@);
    }
    while i < bytes.len()
        invariant
            i <= bytes.len(),
            i % 2 == 0,
            bytes.len() % 2 == 0,
            utf16_units(bytes@) == match utf16_units(bytes@.skip(i as int)) {
                Some(rest) => Some(out@ + rest),
                None => None,
            },
        decreases bytes.len() - i,
    {
        let v: u32 = (bytes[i] as u32) * 256 + (bytes[i + 1] as u32);
        let ghost rest = bytes@.skip(i as int);
        proof {
            assert(rest[0] == bytes@[i as int] && rest[1] == bytes@[i + 1]);
            assert(rest.skip(2) =~= bytes@.skip(i + 2));
        }
        match char_from_u32(v) {
            Some(c) => {
                proof {
                    vstd::utf8::char_u32_cast(c, v);
                    assert(out@.push(c) =~= out@ + seq![c]);
                    assert forall|t: Seq<char>| out@ + (seq![c] + t) == out@.push(c) + t by {
                        assert(out@ + (seq![c] + t) =~= out@.push(c) + t);
                    }
                }
                out.push(c);
            },
            None => {
                return None;
            },
        }
        i += 2;
    }
    proof {
        assert(bytes@.skip(i as int) =~= Seq::<u8>::empty());
        assert(out@ + Seq::<char>::empty() =~= out@);
    }
    Some(string_of(out.as_slice()))
}

/// The widest code (four bytes down to one) at `i` that the map binds.
pub open spec fn longest_code(raw: Seq<u8>, m: Map<Seq<u8>, Seq<char>>, i: int) -> Option<int> {
    if i + 4 <= raw.len() && m.dom().contains(raw.subrange(i, i + 4)) {
        Some(4)
    } else if i + 3 <= raw.len() && m.dom().contains(raw.subrange(i, i + 3)) {
        Some(3)
    } else if i + 2 <= raw.len() && m.dom().contains(raw.subrange(i, i + 2)) {
        Some(2)
    } else if i + 1 <= raw.len() && m.dom().contains(raw.subrange(i, i + 1)) {
        Some(1)
    } else {
        None
    }
}

/// The text of `raw[i..]` read code by code, always taking the widest code
/// the map binds; `None` when some position starts no bound code.
pub open spec fn decode_from(raw: Seq<u8>, m: Map<Seq<u8>, Seq<char>>, i: int) -> Option<Seq<char>>
    decreases raw.len() - i,
{
    if i < 0 || i >= raw.len() {
        Some(Seq::empty())
    } else {
        match longest_code(raw, m, i) {
            None => None,
            Some(w) => match decode_from(raw, m, i + w) {
                Some(rest) => Some(m[raw.subrange(i, i + w)] + rest),
                None => None,
            },
        }
    }
}

/// Decodes shown bytes through a ToUnicode map.
pub fn decode_with_tounicode(raw_bytes: &[u8], map: &CodeMap) -> (r: Option<String>)
    requires
        map.wf(),
    ensures
        match decode_from(raw_bytes@, map@, 0) {
            Some(t) => r matches Some(s) && s@ == t,
            None => r is None,
        },
{
    let ghost m = map@;
    let mut decoded: Vec<char> = Vec::new();
    let mut index: usize = 0;
    while index < raw_bytes.len()
        invariant
            index <= raw_bytes.len(),
            m == map@,
            map.wf(),
            decode_from(raw_bytes@, m, 0) == match decode_from(raw_bytes@, m, index as int) {
                Some(rest) => Some(decoded@ + rest),
                None => None,
            },
        decreases raw_bytes.len() - index,
    {
        let mut width: usize = 4;
        let mut found: Option<&String> = None;
        while width > 0 && found.is_none()
            invariant
                0 <= width <= 4,
                index < raw_bytes.len(),
                map.wf(),
                m == map@,
                forall|w: int| width < w <= 4 && index + w <= raw_bytes.len() ==> !m.dom().contains(
                    #[trigger] raw_bytes@.subrange(index as int, index + w),
                ),
                match found {
                    Some(t) => 1 <= width && index + width <= raw_bytes.len() && m.dom().contains(
                        raw_bytes@.subrange(index as int, index + width),
                    ) && m[raw_bytes@.subrange(index as int, index + width)] == t@,
                    None => true,
                },
            decreases width + (if found is None { 1int } else { 0int }),
        {
            if width <= raw_bytes.len() - index {
                let code = crate::bytes::slice_range(raw_bytes, index, index + width);
                match map.get(code.as_slice()) {
                    Some(t) => {
                        found = Some(t);
                    },
                    None => {
                        width -= 1;
                    },
                }
            } else {
                width -= 1;
            }
        }
        match found {
            None => {
                proof {
                    assert(longest_code(raw_bytes@, m, index as int) is None);
                }
                return None;
            },
            Some(text) => {
                proof {
                    assert(longest_code(raw_bytes@, m, index as int) == Some(width as int));
                }
                let tc = chars_of(text.as_str());
                let mut k: usize = 0;
                let ghost d0 = decoded@;
                while k < tc.len()
                    invariant
                        k <= tc.len(),
                        decoded@ == d0 + tc@.take(k as int),
                    decreases tc.len() - k,
                {
                    decoded.push(tc[k]);
                    proof {
                        assert(tc@.take(k + 1) =~= tc@.take(k as int).push(tc@[k as int]));
                    }
                    k += 1;
                }
                proof {
                    assert(tc@.take(k as int) =~= tc@);
                    assert forall|t: Seq<char>| d0 + (tc@ + t) == decoded@ + t by {
                        assert(d0 + (tc@ + t) =~= decoded@ + t);
                    }
                }
                index += width;
            },
        }
    }
    proof {
        assert(decoded@ + Seq::<char>::empty() =~= decoded@);
    }
    Some(string_of(decoded.as_slice()))
}

/// The value of a hexadecimal digit byte.
pub open spec fn hex_digit_value(b: u8) -> Option<int> {
    if 0x30 <= b <= 0x39 {
        Some(b - 0x30)
    } else if 0x61 <= b <= 0x66 {
        Some(b - 0x61 + 10)
    } else if 0x41 <= b <= 0x46 {
        Some(b - 0x41 + 10)
    } else {
        None
    }
}

/// Two characters read as a hexadecimal byte the way `u8::from_str_radix`
/// reads them: two hex digits, or `+` and one.
pub open spec fn hex_pair_value(a: u8, b: u8) -> Option<u8> {
    if a == 0x2B {
        match hex_digit_value(b) {
            Some(v) => Some(v as u8),
            None => None,
        }
    } else {
        match (hex_digit_value(a), hex_digit_value(b)) {
            (Some(x), Some(y)) => Some((x * 16 + y) as u8),
            _ => None,
        }
    }
}

/// `k` is a character boundary of UTF-8 text `t`.
pub open spec fn char_boundary(t: Seq<u8>, k: int) -> bool {
    k == 0 || k == t.len() || (0 <= k < t.len() && !(0x80 <= t[k] <= 0xBF))
}

/// What the text between `<` and `>` reads as.
pub enum HexToken {
    Bytes(Seq<u8>),
    Invalid,
    /// Slicing a pair would cut a character in two, which the reader this
    /// mirrors does not survive.
    Unreadable,
}

/// The pairs of `t` from pair `p` on, read in order up to the first that is
/// no hex byte.
pub open spec fn hex_pairs(t: Seq<u8>, p: int) -> HexToken
    decreases t.len() - 2 * p,
{
    if p < 0 || 2 * p + 1 >= t.len() {
        HexToken::Bytes(Seq::empty())
    } else if !char_boundary(t, 2 * p) || !char_boundary(t, 2 * p + 2) {
        HexToken::Unreadable
    } else {
        match hex_pair_value(t[2 * p], t[2 * p + 1]) {
            None => HexToken::Invalid,
            Some(v) => match hex_pairs(t, p + 1) {
                HexToken::Bytes(r) => HexToken::Bytes(seq![v] + r),
                other => other,
            },
        }
    }
}

/// A hex token's bytes: a non-empty, even number of characters in pairs.
pub open spec fn hex_token(t: Seq<u8>) -> HexToken {
    if t.len() == 0 || t.len() % 2 != 0 {
        HexToken::Invalid
    } else {
        hex_pairs(t, 0)
    }
}

/// The first position from `from` on that holds `x`.
pub open spec fn byte_find(b: Seq<u8>, x: u8, from: int) -> Option<int>
    decreases b.len() - from,
{
    if from < 0 || from >= b.len() {
        None
    } else if b[from] == x {
        Some(from)
    } else {
        byte_find(b, x, from + 1)
    }
}

pub proof fn lemma_byte_find(b: Seq<u8>, x: u8, from: int)
    requires
        from >= 0,
    ensures
        byte_find(b, x, from) matches Some(j) ==> from <= j < b.len() && b[j] == x,
    decreases b.len() - from,
{
    if from < b.len() && b[from] != x {
        lemma_byte_find(b, x, from + 1);
    }
}

/// The hex tokens `<...>` of a line's bytes from `i` on (`<<` is skipped, an
/// unclosed `<` ends the line); `None` when one of them is unreadable.
pub open spec fn hex_scan(b: Seq<u8>, i: int) -> Option<Seq<Seq<u8>>>
    decreases b.len() - i,
{
    if i < 0 || i >= b.len() {
        Some(Seq::empty())
    } else if b[i] != 0x3C || (i + 1 < b.len() && b[i + 1] == 0x3C) {
        hex_scan(b, i + 1)
    } else {
        match byte_find(b, 0x3E, i + 1) {
            None => Some(Seq::empty()),
            Some(end) => {
                proof {
                    lemma_byte_find(b, 0x3E, i + 1);
                }
                let rest = hex_scan(b, end + 1);
                match hex_token(b.subrange(i + 1, end)) {
                    HexToken::Unreadable => None,
                    HexToken::Invalid => rest,
                    HexToken::Bytes(v) => match rest {
                        Some(r) => Some(seq![v] + r),
                        None => None,
                    },
                }
            },
        }
    }
}

fn hex_digit(b: u8) -> (r: Option<u8>)
    ensures
        match hex_digit_value(b) {
            Some(v) => r matches Some(x) && x as int == v,
            None => r is None,
        },
{
    if 0x30 <= b && b <= 0x39 {
        Some(b - 0x30)
    } else if 0x61 <= b && b <= 0x66 {
        Some(b - 0x61 + 10)
    } else if 0x41 <= b && b <= 0x46 {
        Some(b - 0x41 + 10)
    } else {
        None
    }
}

fn is_boundary(t: &[u8], k: usize) -> (r: bool)
    ensures
        r == char_boundary(t@, k as int),
{
    k == 0 || k == t.len() || (k < t.len() && !(0x80 <= t[k] && t[k] <= 0xBF))
}

/// Reads the text between `<` and `>`.
fn hex_token_bytes(t: &[u8]) -> (r: HexRead)
    ensures
        match hex_token(t@) {
            HexToken::Bytes(v) => r matches HexRead::Bytes(x) && x@ == v,
            HexToken::Invalid => r is Invalid,
            HexToken::Unreadable => r is Unreadable,
        },
{
    if t.len() == 0 || t.len() % 2 != 0 {
        return HexRead::Invalid;
    }
    let mut out: Vec<u8> = Vec::new();
    let mut p: usize = 0;
    while 2 * p + 1 < t.len()
        invariant
            t.len() % 2 == 0,
            2 * p <= t.len(),
            hex_token(t@) == match hex_pairs(t@, p as int) {
                HexToken::Bytes(r) => HexToken::Bytes(out@ + r),
                other => other,
            },
        decreases t.len() - 2 * p,
    {
        if !is_boundary(t, 2 * p) || !is_boundary(t, 2 * p + 2) {
            return HexRead::Unreadable;
        }
        let a = t[2 * p];
        let b = t[2 * p + 1];
        let v: u8 = if a == 0x2B {
            match hex_digit(b) {
                Some(x) => x,
                None => return HexRead::Invalid,
            }
        } else {
            match (hex_digit(a), hex_digit(b)) {
                (Some(x), Some(y)) => x * 16 + y,
                _ => return HexRead::Invalid,
            }
        };
        proof {
            assert(hex_pair_value(a, b) == Some(v));
            assert forall|r: Seq<u8>| out@ + (seq![v] + r) == out@.push(v) + r by {
                assert(out@ + (seq![v] + r) =~= out@.push(v) + r);
            }
        }
        out.push(v);
        p += 1;
    }
    proof {
        assert(out@ + Seq::<u8>::empty() =~= out@);
    }
    HexRead::Bytes(out)
}

/// A hex token as read.
pub enum HexRead {
    Bytes(Vec<u8>),
    Invalid,
    Unreadable,
}

pub open spec fn byte_views(v: Seq<Vec<u8>>) -> Seq<Seq<u8>> {
    v.map_values(|b: Vec<u8>| b@)
}

/// The hex tokens of a line; `None` when one is unreadable.
pub fn hex_tokens_in_line(line: &[u8]) -> (r: Option<Vec<Vec<u8>>>)
    ensures
        match hex_scan(line@, 0) {
            Some(ts) => r matches Some(v) && byte_views(v@) == ts,
            None => r is None,
        },
{
    let mut tokens: Vec<Vec<u8>> = Vec::new();
    let mut index: usize = 0;
    proof {
        assert(byte_views(tokens@) =~= Seq::<Seq<u8>>::empty());
        assert(Seq::<Seq<u8>>::empty() + Seq::<Seq<u8>>::empty() =~= Seq::<Seq<u8>>::empty());
    }
    while index < line.len()
        invariant
            index <= line.len(),
            hex_scan(line@, 0) == match hex_scan(line@, index as int) {
                Some(r) => Some(byte_views(tokens@) + r),
                None => None,
            },
        decreases line.len() - index,
    {
        if line[index] != 0x3C || (index + 1 < line.len() && line[index + 1] == 0x3C) {
            index += 1;
            continue;
        }
        let mut end = index + 1;
        while end < line.len() && line[end] != 0x3E
            invariant
                index < end <= line.len(),
                byte_find(line@, 0x3E, index + 1) == byte_find(line@, 0x3E, end as int),
            decreases line.len() - end,
        {
            end += 1;
        }
        if end >= line.len() {
            proof {
                assert(byte_views(tokens@) + Seq::<Seq<u8>>::empty() =~= byte_views(tokens@));
            }
            return Some(tokens);
        }
        let inner = crate::bytes::slice_range(line, index + 1, end);
        match hex_token_bytes(inner.as_slice()) {
            HexRead::Unreadable => {
                return None;
            },
            HexRead::Invalid => {},
            HexRead::Bytes(v) => {
                let ghost before = byte_views(tokens@);
                let ghost vv = v@;
                tokens.push(v);
                proof {
                    assert(byte_views(tokens@) =~= before.push(vv));
                    assert forall|r: Seq<Seq<u8>>| before + (seq![vv] + r) == before.push(vv) + r by {
                        assert(before + (seq![vv] + r) =~= before.push(vv) + r);
                    }
                }
            },
        }
        index = end + 1;
    }
    proof {
        assert(byte_views(tokens@) + Seq::<Seq<u8>>::empty() =~= byte_views(tokens@));
    }
    Some(tokens)
}

proof fn lemma_be_bound(b: Seq<u8>)
    requires
        b.len() <= 4,
    ensures
        be_value(b) <= u32::MAX,
        b.len() <= 3 ==> be_value(b) <= 0xFF_FFFF,
        b.len() <= 2 ==> be_value(b) <= 0xFFFF,
        b.len() <= 1 ==> be_value(b) <= 0xFF,
    decreases b.len(),
{
    if b.len() > 0 {
        lemma_be_bound(b.drop_last());
    }
}

/// The big-endian value of at most four bytes.
pub fn bytes_to_u32(bytes: &[u8]) -> (r: Option<u32>)
    ensures
        match r {
            Some(v) => bytes@.len() <= 4 && v as nat == be_value(bytes@),
            None => bytes@.len() > 4,
        },
{
    if bytes.len() > 4 {
        return None;
    }
    let mut value: u32 = 0;
    let mut i: usize = 0;
    proof {
        assert(bytes@.take(0) =~= Seq::<u8>::empty());
    }
    while i < bytes.len()
        invariant
            i <= bytes.len() <= 4,
            value as nat == be_value(bytes@.take(i as int)),
        decreases bytes.len() - i,
    {
        proof {
            assert(bytes@.take(i + 1).drop_last() =~= bytes@.take(i as int));
            lemma_be_bound(bytes@.take(i + 1));
            lemma_be_bound(bytes@.take(i as int));
        }
        value = value * 256 + bytes[i] as u32;
        i += 1;
    }
    proof {
        assert(bytes@.take(i as int) =~= bytes@);
    }
    Some(value)
}

/// The last `width` (at most four) bytes of `v`'s big-endian form.
pub open spec fn be_bytes(v: u32, width: int) -> Seq<u8> {
    let all = seq![(v >> 24u32) as u8, (v >> 16u32) as u8, (v >> 8u32) as u8, v as u8];
    if width >= 4 {
        all
    } else if width <= 0 {
        Seq::empty()
    } else {
        all.skip(4 - width)
    }
}

pub fn int_to_be_bytes(value: u32, width: usize) -> (r: Vec<u8>)
    ensures
        r@ == be_bytes(value, width as int),
{
    let mut all: Vec<u8> = Vec::new();
    all.push((value >> 24u32) as u8);
    all.push((value >> 16u32) as u8);
    all.push((value >> 8u32) as u8);
    all.push(value as u8);
    let skip: usize = if width >= 4 { 0 } else { 4 - width };
    let r = crate::bytes::slice_range(all.as_slice(), skip, 4);
    proof {
        assert(r@ =~= be_bytes(value, width as int));
    }
    r
}

/// The map after a range entry, and the error it stops with, if any.
pub struct RangeOut {
    pub map: Map<Seq<u8>, Seq<char>>,
    pub error: Option<Seq<char>>,
}

pub open spec fn range_error(m: Map<Seq<u8>, Seq<char>>, message: Seq<char>) -> RangeOut {
    RangeOut { map: m, error: Some(message) }
}

/// Offsets `k..count` of a range whose codes run from `start` (`w0` bytes
/// wide) and whose text runs from the code unit `dest` (`w2` bytes wide);
/// `None` when a destination would pass `u32::MAX`.
pub open spec fn sequential_range(
    m: Map<Seq<u8>, Seq<char>>,
    start: int,
    w0: int,
    dest: int,
    w2: int,
    k: int,
    count: int,
) -> Option<RangeOut>
    decreases count - k,
{
    if k >= count {
        Some(RangeOut { map: m, error: None })
    } else if dest + k > u32::MAX {
        None
    } else {
        let source = be_bytes((start + k) as u32, w0);
        match utf16_units(be_bytes((dest + k) as u32, w2)) {
            None => Some(range_error(m, "bfrange destination is not valid UTF-16BE"@)),
            Some(t) => sequential_range(m.insert(source, t), start, w0, dest, w2, k + 1, count),
        }
    }
}

/// Offsets `k..count` of a range whose texts are the tokens `toks[2..]`.
pub open spec fn array_range(
    m: Map<Seq<u8>, Seq<char>>,
    start: int,
    w0: int,
    toks: Seq<Seq<u8>>,
    k: int,
    count: int,
) -> RangeOut
    decreases count - k,
{
    if k >= count {
        RangeOut { map: m, error: None }
    } else {
        let source = be_bytes((start + k) as u32, w0);
        match utf16_units(toks[2 + k]) {
            None => range_error(m, "bfrange array destination is not valid UTF-16BE"@),
            Some(t) => array_range(m.insert(source, t), start, w0, toks, k + 1, count),
        }
    }
}

/// A `bfrange` line with hex tokens `toks`; `array_mode` when the line has a
/// `[`. `None` when the range length or a destination overflows `u32`.
pub open spec fn bfrange(m: Map<Seq<u8>, Seq<char>>, toks: Seq<Seq<u8>>, array_mode: bool) -> Option<RangeOut> {
    if toks.len() < 3 {
        Some(range_error(m, "bfrange entry has fewer than three hex operands"@))
    } else if toks[0].len() > 4 {
        Some(range_error(m, "bfrange start is too wide"@))
    } else if toks[1].len() > 4 {
        Some(range_error(m, "bfrange end is too wide"@))
    } else {
        let start = be_value(toks[0]) as int;
        let end = be_value(toks[1]) as int;
        if end < start {
            Some(range_error(m, "bfrange end is before start"@))
        } else if end - start + 1 > u32::MAX {
            None
        } else {
            let count = end - start + 1;
            if !array_mode {
                if toks[2].len() > 4 {
                    Some(range_error(m, "bfrange destination is too wide"@))
                } else {
                    sequential_range(m, start, toks[0].len() as int, be_value(toks[2]) as int, toks[2].len() as int, 0, count)
                }
            } else if toks.len() - 2 < count {
                Some(range_error(m, "bfrange destination array is shorter than source range"@))
            } else {
                Some(array_range(m, start, toks[0].len() as int, toks, 0, count))
            }
        }
    }
}

pub open spec fn opt_text(o: Option<String>) -> Option<Seq<char>> {
    match o {
        Some(s) => Some(s@),
        None => None,
    }
}

fn range_err(message: &str) -> (r: Option<Option<String>>)
    ensures
        r matches Some(Some(s)) && s@ == message@,
{
    Some(Some(message.to_owned()))
}

/// Adds a `bfrange` line's codes; `None` when the line overflows.
fn insert_bfrange(map: &mut CodeMap, toks: &Vec<Vec<u8>>, array_mode: bool) -> (r: Option<Option<String>>)
    requires
        old(map).wf(),
    ensures
        final(map).wf(),
        match bfrange(old(map)@, byte_views(toks@), array_mode) {
            Some(out) => r matches Some(e) && final(map)@ == out.map && opt_text(e) == out.error,
            None => r is None,
        },
{
    let ghost tv = byte_views(toks@);
    if toks.len() < 3 {
        return range_err("bfrange entry has fewer than three hex operands");
    }
    proof {
        assert(tv[0] == toks@[0]@ && tv[1] == toks@[1]@ && tv[2] == toks@[2]@);
    }
    let start = match bytes_to_u32(toks[0].as_slice()) {
        Some(v) => v,
        None => return range_err("bfrange start is too wide"),
    };
    let end = match bytes_to_u32(toks[1].as_slice()) {
        Some(v) => v,
        None => return range_err("bfrange end is too wide"),
    };
    if end < start {
        return range_err("bfrange end is before start");
    }
    if end - start == 0xFFFF_FFFFu32 {
        return None;
    }
    let count: u64 = (end - start) as u64 + 1;
    let w0 = toks[0].len();
    let ghost m0 = map@;
    if !array_mode {
        let dest = match bytes_to_u32(toks[2].as_slice()) {
            Some(v) => v,
            None => return range_err("bfrange destination is too wide"),
        };
        let w2 = toks[2].len();
        let mut offset: u64 = 0;
        while offset < count
            invariant
                offset <= count,
                count == end - start + 1,
                start <= end,
                map.wf(),
                m0 == old(map)@,
                tv == byte_views(toks@),
                !array_mode,
                bfrange(m0, tv, array_mode) == sequential_range(m0, start as int, w0 as int, dest as int, w2 as int, 0, count as int),
                sequential_range(m0, start as int, w0 as int, dest as int, w2 as int, 0, count as int)
                    == sequential_range(map@, start as int, w0 as int, dest as int, w2 as int, offset as int, count as int),
            decreases count - offset,
        {
            if dest as u64 + offset > 0xFFFF_FFFFu64 {
                return None;
            }
            let source = int_to_be_bytes((start as u64 + offset) as u32, w0);
            let destination = int_to_be_bytes((dest as u64 + offset) as u32, w2);
            match unicode_hex_to_string(destination.as_slice()) {
                None => return range_err("bfrange destination is not valid UTF-16BE"),
                Some(text) => {
                    map.insert(source, text);
                },
            }
            offset += 1;
        }
        Some(None)
    } else {
        if ((toks.len() - 2) as u64) < count {
            return range_err("bfrange destination array is shorter than source range");
        }
        let mut offset: u64 = 0;
        while offset < count
            invariant
                offset <= count,
                count == end - start + 1,
                start <= end,
                count <= toks.len() - 2,
                tv == byte_views(toks@),
                map.wf(),
                m0 == old(map)@,
                array_mode,
                bfrange(m0, tv, array_mode) == Some(array_range(m0, start as int, w0 as int, tv, 0, count as int)),
                array_range(m0, start as int, w0 as int, tv, 0, count as int) == array_range(
                    map@,
                    start as int,
                    w0 as int,
                    tv,
                    offset as int,
                    count as int,
                ),
            decreases count - offset,
        {
            let source = int_to_be_bytes((start as u64 + offset) as u32, w0);
            let idx = 2 + offset as usize;
            proof {
                assert(tv[idx as int] == toks@[idx as int]@);
            }
            match unicode_hex_to_string(toks[idx].as_slice()) {
                None => return range_err("bfrange array destination is not valid UTF-16BE"),
                Some(text) => {
                    map.insert(source, text);
                },
            }
            offset += 1;
        }
        Some(None)
    }
}

/// `s` without one trailing carriage return.
pub open spec fn strip_cr(s: Seq<char>) -> Seq<char> {
    if s.len() > 0 && s.last() == '\r' {
        s.drop_last()
    } else {
        s
    }
}

/// Finished lines and the line being read, after reading `s`.
pub open spec fn scan_lines(s: Seq<char>) -> (Seq<Seq<char>>, Seq<char>)
    decreases s.len(),
{
    if s.len() == 0 {
        (Seq::empty(), Seq::empty())
    } else {
        let (done, cur) = scan_lines(s.drop_last());
        if s.last() == '\n' {
            (done.push(strip_cr(cur)), Seq::empty())
        } else {
            (done, cur.push(s.last()))
        }
    }
}

/// The lines of `s` as `str::lines` yields them: split after each `\n`,
/// which is dropped with a `\r` before it; a final line without `\n` is
/// kept as it is when it is not empty.
pub open spec fn lines_of(s: Seq<char>) -> Seq<Seq<char>> {
    let (done, cur) = scan_lines(s);
    if cur.len() > 0 {
        done.push(cur)
    } else {
        done
    }
}

pub open spec fn line_views(v: Seq<Vec<char>>) -> Seq<Seq<char>> {
    v.map_values(|l: Vec<char>| l@)
}

fn split_lines(s: &Vec<char>) -> (r: Vec<Vec<char>>)
    ensures
        line_views(r@) == lines_of(s@),
{
    let mut done: Vec<Vec<char>> = Vec::new();
    let mut cur: Vec<char> = Vec::new();
    let mut i: usize = 0;
    proof {
        assert(s@.take(0) =~= Seq::<char>::empty());
        assert(line_views(done@) =~= Seq::<Seq<char>>::empty());
    }
    while i < s.len()
        invariant
            i <= s.len(),
            scan_lines(s@.take(i as int)) == (line_views(done@), cur@),
        decreases s.len() - i,
    {
        let c = s[i];
        proof {
            assert(s@.take(i + 1).drop_last() =~= s@.take(i as int));
            assert(s@.take(i + 1).last() == c);
        }
        if c == '\n' {
            let ghost before = line_views(done@);
            let ghost cv = cur@;
            let mut finished = cur;
            let n = finished.len();
            if n > 0 && finished[n - 1] == '\r' {
                finished.pop();
                proof {
                    assert(finished@ =~= cv.drop_last());
                }
            }
            let ghost fv = finished@;
            done.push(finished);
            cur = Vec::new();
            proof {
                assert(fv == strip_cr(cv));
                assert(line_views(done@) =~= before.push(fv));
                assert(cur@ =~= Seq::<char>::empty());
            }
        } else {
            cur.push(c);
        }
        i += 1;
    }
    proof {
        assert(s@.take(i as int) =~= s@);
    }
    if cur.len() > 0 {
        let ghost before = line_views(done@);
        let ghost cv = cur@;
        done.push(cur);
        proof {
            assert(line_views(done@) =~= before.push(cv));
        }
    }
    done
}

/// `s` without its trailing whitespace.
pub open spec fn trim_end(s: Seq<char>) -> Seq<char>
    decreases s.len(),
{
    if s.len() > 0 && white_space(s.last()) {
        trim_end(s.drop_last())
    } else {
        s
    }
}

/// `s` without leading and trailing whitespace.
pub open spec fn trim(s: Seq<char>) -> Seq<char> {
    trim_end(trim_start(s))
}

pub fn trim_chars(s: &Vec<char>) -> (r: Vec<char>)
    ensures
        r@ == trim(s@),
{
    let t = trim_leading(s);
    let mut n = t.len();
    proof {
        assert(t@.take(n as int) =~= t@);
    }
    while n > 0 && is_white_space(t[n - 1])
        invariant
            n <= t.len(),
            trim_end(t@) == trim_end(t@.take(n as int)),
        decreases n,
    {
        proof {
            assert(t@.take(n as int).drop_last() =~= t@.take(n - 1));
            assert(t@.take(n as int).last() == t@[n - 1]);
        }
        n -= 1;
    }
    proof {
        if n > 0 {
            assert(t@.take(n as int).last() == t@[n - 1]);
        }
    }
    sub_chars(t.as_slice(), 0, n)
}

/// `s` ends with `p`.
pub open spec fn ends_with(s: Seq<char>, p: Seq<char>) -> bool {
    s.len() >= p.len() && s.skip(s.len() - p.len()) == p
}

fn ends_with_text(s: &Vec<char>, p: &str) -> (r: bool)
    ensures
        r == ends_with(s@, p@),
{
    let pc = chars_of(p);
    if s.len() < pc.len() {
        return false;
    }
    let off = s.len() - pc.len();
    let mut i: usize = 0;
    while i < pc.len()
        invariant
            i <= pc.len(),
            off + pc.len() == s.len(),
            pc@ == p@,
            forall|j: int| 0 <= j < i ==> s@[off + j] == pc@[j],
        decreases pc.len() - i,
    {
        if s[off + i] != pc[i] {
            proof {
                assert(s@.skip(off as int)[i as int] != pc@[i as int]);
            }
            return false;
        }
        i += 1;
    }
    proof {
        assert(s@.skip(off as int) =~= pc@);
    }
    true
}

pub fn equals_text(s: &Vec<char>, p: &str) -> (r: bool)
    ensures
        r == (s@ == p@),
{
    let pc = chars_of(p);
    if s.len() != pc.len() {
        return false;
    }
    let r = ends_with_text(s, p);
    proof {
        assert(s@.skip(0) =~= s@);
    }
    r
}

fn has_char(s: &Vec<char>, c: char) -> (r: bool)
    ensures
        r == s@.contains(c),
{
    let mut i: usize = 0;
    while i < s.len()
        invariant
            i <= s.len(),
            forall|j: int| 0 <= j < i ==> s@[j] != c,
        decreases s.len() - i,
    {
        if s[i] == c {
            return true;
        }
        i += 1;
    }
    false
}

/// What reading a CMap has gathered so far.
pub struct CMapState {
    pub map: Map<Seq<u8>, Seq<char>>,
    pub in_range: bool,
    pub diags: Seq<DiagView>,
}

/// One line of a CMap: `beginbfrange` and `endbfrange` open and close range
/// sections; elsewhere a line with two hex tokens maps the first code to the
/// text of the second, and inside a range section a line with three or more
/// tokens is a range. `None` when the line is one the reader does not
/// survive.
pub open spec fn cmap_line(st: CMapState, line: Seq<char>) -> Option<CMapState> {
    let t = trim(line);
    if ends_with(t, "beginbfrange"@) {
        Some(CMapState { map: st.map, in_range: true, diags: st.diags })
    } else if t == "endbfrange"@ {
        Some(CMapState { map: st.map, in_range: false, diags: st.diags })
    } else if ends_with(t, "beginbfchar"@) || t == "endbfchar"@ {
        Some(st)
    } else {
        match hex_scan(encode_utf8(line), 0) {
            None => None,
            Some(toks) => if st.in_range && toks.len() >= 3 {
                match bfrange(st.map, toks, t.contains('[')) {
                    None => None,
                    Some(out) => Some(
                        CMapState {
                            map: out.map,
                            in_range: st.in_range,
                            diags: match out.error {
                                Some(message) => st.diags.push(
                                    plain_diag(DiagnosticSeverity::Warning, "CMAP_UNSUPPORTED_RANGE"@, message),
                                ),
                                None => st.diags,
                            },
                        },
                    ),
                }
            } else if toks.len() == 2 {
                match utf16_units(toks[1]) {
                    Some(d) => Some(CMapState { map: st.map.insert(toks[0], d), in_range: st.in_range, diags: st.diags }),
                    None => Some(st),
                }
            } else {
                Some(st)
            },
        }
    }
}

/// The state after the first `k` lines.
pub open spec fn cmap_lines(lines: Seq<Seq<char>>, k: int) -> Option<CMapState>
    decreases k,
{
    if k <= 0 {
        Some(CMapState { map: Map::empty(), in_range: false, diags: Seq::empty() })
    } else {
        match cmap_lines(lines, k - 1) {
            None => None,
            Some(st) => cmap_line(st, lines[k - 1]),
        }
    }
}

/// A CMap read from its text, line by line.
pub open spec fn cmap_spec(text: Seq<char>) -> Option<CMapState> {
    let ls = lines_of(text);
    cmap_lines(ls, ls.len() as int)
}

/// A CMap read from the lossy UTF-8 decoding of its bytes.
pub open spec fn tounicode_spec(bytes: Seq<u8>) -> Option<CMapState> {
    cmap_spec(utf8_lossy(bytes))
}

/// The codes of a ToUnicode CMap with their text, and warnings for ranges
/// that could not be read.
#[derive(Debug, Clone, PartialEq, Eq)]
pub struct ToUnicodeCMap {
    pub map: CodeMap,
    pub diagnostics: Vec<Diagnostic>,
}

impl ToUnicodeCMap {
    pub open spec fn agrees(self, st: CMapState) -> bool {
        &&& self.map.wf()
        &&& self.map@ == st.map
        &&& diag_views(self.diagnostics@) == st.diags
    }
}

proof fn lemma_cmap_stuck(ls: Seq<Seq<char>>, k: int, j: int)
    requires
        0 <= k <= j,
        cmap_lines(ls, k) is None,
    ensures
        cmap_lines(ls, j) is None,
    decreases j - k,
{
    if j > k {
        lemma_cmap_stuck(ls, k, j - 1);
    }
}

/// Applies one line; `false` when the line is one the reader does not
/// survive.
fn apply_line(
    map: &mut CodeMap,
    diagnostics: &mut Vec<Diagnostic>,
    in_range: &mut bool,
    line: &Vec<char>,
) -> (ok: bool)
    requires
        old(map).wf(),
    ensures
        final(map).wf(),
        match cmap_line(
            CMapState { map: old(map)@, in_range: *old(in_range), diags: diag_views(old(diagnostics)@) },
            line@,
        ) {
            Some(st) => ok && st == CMapState {
                map: final(map)@,
                in_range: *final(in_range),
                diags: diag_views(final(diagnostics)@),
            },
            None => !ok,
        },
{
    let t = trim_chars(line);
    if ends_with_text(&t, "beginbfrange") {
        *in_range = true;
        return true;
    }
    if equals_text(&t, "endbfrange") {
        *in_range = false;
        return true;
    }
    if ends_with_text(&t, "beginbfchar") || equals_text(&t, "endbfchar") {
        return true;
    }
    let line_text = string_of(line.as_slice());
    let tokens = match hex_tokens_in_line(line_text.as_str().as_bytes()) {
        Some(ts) => ts,
        None => return false,
    };
    let ghost tv = byte_views(tokens@);
    if *in_range && tokens.len() >= 3 {
        let array_mode = has_char(&t, '[');
        match insert_bfrange(map, &tokens, array_mode) {
            None => false,
            Some(None) => true,
            Some(Some(message)) => {
                let ghost before = diag_views(diagnostics@);
                let d = Diagnostic::warning("CMAP_UNSUPPORTED_RANGE", message.as_str());
                diagnostics.push(d);
                proof {
                    assert(diag_views(diagnostics@) =~= before.push(d.view()));
                }
                true
            },
        }
    } else if tokens.len() == 2 {
        proof {
            assert(tv[0] == tokens@[0]@ && tv[1] == tokens@[1]@);
        }
        match unicode_hex_to_string(tokens[1].as_slice()) {
            Some(text) => {
                let code = crate::bytes::slice_range(tokens[0].as_slice(), 0, tokens[0].len());
                proof {
                    assert(code@ =~= tokens@[0]@);
                }
                map.insert(code, text);
            },
            None => {},
        }
        true
    } else {
        true
    }
}

fn read_cmap(text: &Vec<char>) -> (r: Option<ToUnicodeCMap>)
    ensures
        match cmap_spec(text@) {
            Some(st) => r matches Some(c) && c.agrees(st),
            None => r is None,
        },
{
    let lines = split_lines(text);
    let ghost ls = line_views(lines@);
    let mut map = CodeMap::new();
    let mut diagnostics: Vec<Diagnostic> = Vec::new();
    let mut in_range = false;
    let mut k: usize = 0;
    proof {
        assert(diag_views(diagnostics@) =~= Seq::<DiagView>::empty());
    }
    while k < lines.len()
        invariant
            k <= lines.len(),
            ls == line_views(lines@),
            ls == lines_of(text@),
            map.wf(),
            cmap_lines(ls, k as int) == Some(CMapState { map: map@, in_range, diags: diag_views(diagnostics@) }),
        decreases lines.len() - k,
    {
        proof {
            assert(ls[k as int] == lines@[k as int]@);
        }
        if !apply_line(&mut map, &mut diagnostics, &mut in_range, &lines[k]) {
            proof {
                lemma_cmap_stuck(ls, k + 1, ls.len() as int);
            }
            return None;
        }
        k += 1;
    }
    Some(ToUnicodeCMap { map, diagnostics })
}

/// Reads a ToUnicode CMap, or `None` on text whose hex tokens cut a
/// character in two or whose ranges overflow `u32`.
pub fn try_parse_tounicode_cmap(bytes: &[u8]) -> (r: Option<ToUnicodeCMap>)
    ensures
        match tounicode_spec(bytes@) {
            Some(st) => r matches Some(c) && c.agrees(st),
            None => r is None,
        },
{
    let text = lossy_string(bytes);
    let cs = chars_of(text.as_str());
    match read_cmap(&cs) {
        None => None,
        Some(_) => Some(parse_tounicode_cmap_with_diagnostics(bytes)),
    }
}

/// Reads a ToUnicode CMap: its `bfchar` and `bfrange` mappings, with a
/// `CMAP_UNSUPPORTED_RANGE` warning for each range it cannot read.
pub fn parse_tounicode_cmap_with_diagnostics(bytes: &[u8]) -> (r: ToUnicodeCMap)
    requires
        tounicode_spec(bytes@) is Some,
    ensures
        r.agrees(tounicode_spec(bytes@)->0),
{
    let text = lossy_string(bytes);
    let cs = chars_of(text.as_str());
    match read_cmap(&cs) {
        Some(c) => c,
        None => {
            proof {
                assert(false);
            }
            ToUnicodeCMap { map: CodeMap::new(), diagnostics: Vec::new() }
        },
    }
}

} // verus!
