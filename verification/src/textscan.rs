//! Token-level reading of object text: the light heuristics with which font
//! resources and their references are found in an object's written syntax.
use vstd::prelude::*;
use crate::types::ObjectId;
use crate::chars::{chars_of, string_of, sub_chars};

verus! {

/// Unicode's `White_Space` characters, those `char::is_whitespace` accepts.
pub open spec fn white_space(c: char) -> bool {
    let v = c as u32;
    ||| 0x09 <= v <= 0x0D
    ||| v == 0x20
    ||| v == 0x85
    ||| v == 0xA0
    ||| v == 0x1680
    ||| 0x2000 <= v <= 0x200A
    ||| v == 0x2028
    ||| v == 0x2029
    ||| v == 0x202F
    ||| v == 0x205F
    ||| v == 0x3000
}

pub fn is_white_space(c: char) -> (r: bool)
    ensures
        r == white_space(c),
{
    let v = c as u32;
    (0x09 <= v && v <= 0x0D) || v == 0x20 || v == 0x85 || v == 0xA0 || v == 0x1680 || (0x2000 <= v && v
        <= 0x200A) || v == 0x2028 || v == 0x2029 || v == 0x202F || v == 0x205F || v == 0x3000
}

/// `s` with each doubled `c` (read left to right, without overlap) replaced
/// by one space.
pub open spec fn drop_pairs(s: Seq<char>, c: char) -> Seq<char>
    decreases s.len(),
{
    if s.len() == 0 {
        s
    } else if s.len() >= 2 && s[0] == c && s[1] == c {
        seq![' '] + drop_pairs(s.skip(2), c)
    } else {
        seq![s[0]] + drop_pairs(s.skip(1), c)
    }
}

fn replace_pairs(s: &Vec<char>, c: char) -> (r: Vec<char>)
    ensures
        r@ == drop_pairs(s@, c),
{
    let mut out: Vec<char> = Vec::new();
    let mut i: usize = 0;
    proof {
        assert(s@.skip(0) =~= s@);
        assert(out@ + drop_pairs(s@, c) =~= drop_pairs(s@, c));
    }
    while i < s.len()
        invariant
            i <= s.len(),
            out@ + drop_pairs(s@.skip(i as int), c) == drop_pairs(s@, c),
        decreases s.len() - i,
    {
        let ghost rest = s@.skip(i as int);
        if i + 1 < s.len() && s[i] == c && s[i + 1] == c {
            proof {
                assert(rest[0] == s@[i as int] && rest[1] == s@[i + 1]);
                assert(rest.skip(2) =~= s@.skip(i + 2));
                assert(out@.push(' ') + drop_pairs(s@.skip(i + 2), c) =~= out@ + drop_pairs(rest, c));
            }
            out.push(' ');
            i += 2;
        } else {
            proof {
                assert(rest[0] == s@[i as int]);
                if rest.len() >= 2 {
                    assert(rest[1] == s@[i + 1]);
                }
                assert(rest.skip(1) =~= s@.skip(i + 1));
                assert(out@.push(s@[i as int]) + drop_pairs(s@.skip(i + 1), c) =~= out@ + drop_pairs(rest, c));
            }
            out.push(s[i]);
            i += 1;
        }
    }
    proof {
        assert(s@.skip(i as int) =~= Seq::<char>::empty());
        assert(out@ + Seq::<char>::empty() =~= out@);
    }
    out
}

/// A `/` gets a space before it; `[` and `]` become spaces.
pub open spec fn spread_char(c: char) -> Seq<char> {
    if c == '/' {
        seq![' ', '/']
    } else if c == '[' || c == ']' {
        seq![' ']
    } else {
        seq![c]
    }
}

pub open spec fn spread(s: Seq<char>) -> Seq<char>
    decreases s.len(),
{
    if s.len() == 0 {
        s
    } else {
        spread(s.drop_last()) + spread_char(s.last())
    }
}

fn spread_out(s: &Vec<char>) -> (r: Vec<char>)
    ensures
        r@ == spread(s@),
{
    let mut out: Vec<char> = Vec::new();
    let mut i: usize = 0;
    proof {
        assert(s@.take(0) =~= Seq::<char>::empty());
    }
    while i < s.len()
        invariant
            i <= s.len(),
            out@ == spread(s@.take(i as int)),
        decreases s.len() - i,
    {
        let c = s[i];
        let ghost before = out@;
        if c == '/' {
            out.push(' ');
            out.push('/');
        } else if c == '[' || c == ']' {
            out.push(' ');
        } else {
            out.push(c);
        }
        proof {
            assert(s@.take(i + 1).drop_last() =~= s@.take(i as int));
            assert(out@ =~= before + spread_char(c));
        }
        i += 1;
    }
    proof {
        assert(s@.take(i as int) =~= s@);
    }
    out
}

/// Finished tokens and the token being read, after reading `s`.
pub open spec fn scan_ws(s: Seq<char>) -> (Seq<Seq<char>>, Seq<char>)
    decreases s.len(),
{
    if s.len() == 0 {
        (Seq::empty(), Seq::empty())
    } else {
        let (done, cur) = scan_ws(s.drop_last());
        if white_space(s.last()) {
            if cur.len() > 0 {
                (done.push(cur), Seq::empty())
            } else {
                (done, Seq::empty())
            }
        } else {
            (done, cur.push(s.last()))
        }
    }
}

/// The maximal runs of non-whitespace characters of `s`, in order, as
/// `str::split_whitespace` yields them.
pub open spec fn ws_tokens(s: Seq<char>) -> Seq<Seq<char>> {
    let (done, cur) = scan_ws(s);
    if cur.len() > 0 {
        done.push(cur)
    } else {
        done
    }
}

pub open spec fn token_views(v: Seq<Vec<char>>) -> Seq<Seq<char>> {
    v.map_values(|t: Vec<char>| t@)
}

/// Splits `s` at whitespace.
pub fn split_ws(s: &Vec<char>) -> (r: Vec<Vec<char>>)
    ensures
        token_views(r@) == ws_tokens(s@),
{
    let mut done: Vec<Vec<char>> = Vec::new();
    let mut cur: Vec<char> = Vec::new();
    let mut i: usize = 0;
    proof {
        assert(s@.take(0) =~= Seq::<char>::empty());
        assert(token_views(done@) =~= Seq::<Seq<char>>::empty());
    }
    while i < s.len()
        invariant
            i <= s.len(),
            scan_ws(s@.take(i as int)) == (token_views(done@), cur@),
        decreases s.len() - i,
    {
        let c = s[i];
        proof {
            assert(s@.take(i + 1).drop_last() =~= s@.take(i as int));
            assert(s@.take(i + 1).last() == c);
        }
        if is_white_space(c) {
            if cur.len() > 0 {
                let ghost before = token_views(done@);
                let ghost cv = cur@;
                let finished = cur;
                cur = Vec::new();
                done.push(finished);
                proof {
                    assert(token_views(done@) =~= before.push(cv));
                    assert(cur@ =~= Seq::<char>::empty());
                }
            } else {
                proof {
                    assert(cur@ =~= Seq::<char>::empty());
                }
            }
        } else {
            cur.push(c);
        }
        i += 1;
    }
    proof {
        assert(s@.take(i as int) =~= s@);
    }
    if cur.len() > 0 {
        let ghost before = token_views(done@);
        let ghost cv = cur@;
        done.push(cur);
        proof {
            assert(token_views(done@) =~= before.push(cv));
        }
    }
    done
}

/// The tokens of object text: `<<` and `>>` act as spaces, `[` and `]` too,
/// and each name starts a token of its own.
pub open spec fn body_tokens_spec(s: Seq<char>) -> Seq<Seq<char>> {
    ws_tokens(spread(drop_pairs(drop_pairs(s, '<'), '>')))
}

pub fn body_tokens(body: &Vec<char>) -> (r: Vec<Vec<char>>)
    ensures
        token_views(r@) == body_tokens_spec(body@),
{
    let a = replace_pairs(body, '<');
    let b = replace_pairs(&a, '>');
    let c = spread_out(&b);
    split_ws(&c)
}

pub open spec fn is_digit(c: char) -> bool {
    '0' <= c <= '9'
}

/// `t` without a leading `+`.
pub open spec fn digits_part(t: Seq<char>) -> Seq<char> {
    if t.len() > 0 && t[0] == '+' {
        t.skip(1)
    } else {
        t
    }
}

pub open spec fn all_digits(d: Seq<char>) -> bool {
    forall|i: int| 0 <= i < d.len() ==> is_digit(#[trigger] d[i])
}

/// The value of a run of decimal digits.
pub open spec fn digits_value(d: Seq<char>) -> int
    decreases d.len(),
{
    if d.len() == 0 {
        0
    } else {
        digits_value(d.drop_last()) * 10 + (d.last() as int - '0' as int)
    }
}

/// What `str::parse` reads as an unsigned integer: an optional `+`, then one
/// or more ASCII digits (no bound yet).
pub open spec fn unsigned_value(t: Seq<char>) -> Option<int> {
    let d = digits_part(t);
    if d.len() > 0 && all_digits(d) {
        Some(digits_value(d))
    } else {
        None
    }
}

/// `t` parsed as an unsigned integer no larger than `max`.
pub open spec fn parse_bounded(t: Seq<char>, max: int) -> Option<int> {
    match unsigned_value(t) {
        Some(v) => if v <= max {
            Some(v)
        } else {
            None
        },
        None => None,
    }
}

proof fn lemma_digits_nonneg(d: Seq<char>)
    requires
        forall|i: int| 0 <= i < d.len() ==> is_digit(#[trigger] d[i]),
    ensures
        digits_value(d) >= 0,
    decreases d.len(),
{
    if d.len() > 0 {
        lemma_digits_nonneg(d.drop_last());
    }
}

/// Parses `t` as an unsigned integer no larger than `max`, as `str::parse`
/// does for the unsigned integer type whose largest value is `max`.
pub fn parse_unsigned(t: &Vec<char>, max: u64) -> (r: Option<u64>)
    ensures
        match parse_bounded(t@, max as int) {
            Some(v) => r matches Some(x) && x as int == v,
            None => r is None,
        },
{
    let start: usize = if t.len() > 0 && t[0] == '+' { 1 } else { 0 };
    let ghost d = digits_part(t@);
    proof {
        assert(d =~= t@.skip(start as int));
    }
    if start >= t.len() {
        return None;
    }
    let mut value: u128 = 0;
    let mut over = false;
    let mut i: usize = start;
    proof {
        assert(d.take(0) =~= Seq::<char>::empty());
    }
    while i < t.len()
        invariant
            start <= i <= t.len(),
            d =~= t@.skip(start as int),
            d == digits_part(t@),
            forall|j: int| 0 <= j < i - start ==> is_digit(#[trigger] d[j]),
            !over ==> value == digits_value(d.take(i - start)) && value <= max,
            over ==> digits_value(d.take(i - start)) > max,
        decreases t.len() - i,
    {
        let c = t[i];
        proof {
            assert(d[i - start] == c);
        }
        if !('0' <= c && c <= '9') {
            proof {
                assert(!is_digit(d[i - start]));
            }
            return None;
        }
        proof {
            assert(d.take(i - start + 1).drop_last() =~= d.take(i - start));
            assert(d.take(i - start + 1).last() == c);
            lemma_digits_nonneg(d.take(i - start));
        }
        let digit = (c as u32 - '0' as u32) as u128;
        if !over {
            let next = value * 10 + digit;
            if next > max as u128 {
                over = true;
            } else {
                value = next;
            }
        }
        i += 1;
    }
    proof {
        assert(d.take(i - start) =~= d);
    }
    if over {
        None
    } else {
        Some(value as u64)
    }
}

/// A name followed by `number generation R` at token `i`.
pub open spec fn named_ref_at(toks: Seq<Seq<char>>, i: int) -> Option<(Seq<char>, ObjectId)> {
    let t = toks[i];
    if t.len() > 0 && t[0] == '/' {
        match (parse_bounded(toks[i + 1], u32::MAX as int), parse_bounded(toks[i + 2], u16::MAX as int)) {
            (Some(n), Some(g)) => if toks[i + 3] == seq!['R'] {
                Some((t.skip(1), ObjectId { number: n as u32, generation: g as u16 }))
            } else {
                None
            },
            _ => None,
        }
    } else {
        None
    }
}

/// The named references that start at the first `k` tokens.
pub open spec fn named_refs_upto(toks: Seq<Seq<char>>, k: int) -> Seq<(Seq<char>, ObjectId)>
    decreases k,
{
    if k <= 0 {
        Seq::empty()
    } else {
        let prev = named_refs_upto(toks, k - 1);
        match named_ref_at(toks, k - 1) {
            Some(x) => prev.push(x),
            None => prev,
        }
    }
}

/// Every `/Name number generation R` in the tokens of `body`, in order.
/// (The last three starting positions are not tried, as in the original
/// scan: a reference there would end past the last token anyway.)
pub open spec fn named_refs(body: Seq<char>) -> Seq<(Seq<char>, ObjectId)> {
    let toks = body_tokens_spec(body);
    named_refs_upto(toks, if toks.len() >= 3 { toks.len() - 3 } else { 0 })
}

pub open spec fn ref_views(v: Seq<(String, ObjectId)>) -> Seq<(Seq<char>, ObjectId)> {
    v.map_values(|e: (String, ObjectId)| (e.0@, e.1))
}

/// The `/Name number generation R` triples of `body`, in order.
pub fn named_references(body: &Vec<char>) -> (r: Vec<(String, ObjectId)>)
    ensures
        ref_views(r@) == named_refs(body@),
{
    let tokens = body_tokens(body);
    let ghost toks = token_views(tokens@);
    let n = tokens.len();
    let count: usize = if n >= 3 { n - 3 } else { 0 };
    let mut refs: Vec<(String, ObjectId)> = Vec::new();
    let mut i: usize = 0;
    proof {
        assert(ref_views(refs@) =~= Seq::<(Seq<char>, ObjectId)>::empty());
    }
    while i < count
        invariant
            i <= count,
            n == tokens.len(),
            count == (if n >= 3 { n - 3 } else { 0 }),
            toks == token_views(tokens@),
            ref_views(refs@) == named_refs_upto(toks, i as int),
        decreases count - i,
    {
        let t = &tokens[i];
        proof {
            assert(toks[i as int] == t@);
            assert(toks[i + 1] == tokens@[i + 1]@);
            assert(toks[i + 2] == tokens@[i + 2]@);
            assert(toks[i + 3] == tokens@[i + 3]@);
        }
        if t.len() > 0 && t[0] == '/' {
            let number = parse_unsigned(&tokens[i + 1], 0xFFFF_FFFF);
            let generation = parse_unsigned(&tokens[i + 2], 0xFFFF);
            if let (Some(number), Some(generation)) = (number, generation) {
                let r = &tokens[i + 3];
                if r.len() == 1 && r[0] == 'R' {
                    let name = string_of(sub_chars(t.as_slice(), 1, t.len()).as_slice());
                    let id = ObjectId { number: number as u32, generation: generation as u16 };
                    let ghost before = ref_views(refs@);
                    refs.push((name, id));
                    proof {
                        assert(t@.skip(1) =~= t@.subrange(1, t@.len() as int));
                        assert(toks[i + 3] =~= seq!['R']);
                        assert(toks[i as int] == t@);
                        assert(parse_bounded(toks[i + 1], u32::MAX as int) == Some(number as int));
                        assert(parse_bounded(toks[i + 2], u16::MAX as int) == Some(generation as int));
                        assert(id.number as int == number as int);
                        assert(id.generation as int == generation as int);
                        assert(name@ == t@.skip(1));
                        assert(named_ref_at(toks, i as int) == Some((name@, id)));
                        assert(ref_views(refs@) =~= before.push((name@, id)));
                    }
                } else {
                    proof {
                        assert(toks[i + 3] != seq!['R']) by {
                            if toks[i + 3] == seq!['R'] {
                                assert(toks[i + 3].len() == 1);
                            }
                        }
                    }
                }
            }
        }
        i += 1;
    }
    refs
}

/// `pat` occurs in `s` at `j`.
pub open spec fn occurs_at(s: Seq<char>, pat: Seq<char>, j: int) -> bool {
    0 <= j && j + pat.len() <= s.len() && s.subrange(j, j + pat.len()) == pat
}

/// The first position from `from` on where `pat` occurs in `s`.
pub open spec fn find_from(s: Seq<char>, pat: Seq<char>, from: int) -> Option<int>
    decreases s.len() + 1 - from,
{
    if from < 0 || from + pat.len() > s.len() {
        None
    } else if occurs_at(s, pat, from) {
        Some(from)
    } else {
        find_from(s, pat, from + 1)
    }
}

pub proof fn lemma_find_from(s: Seq<char>, pat: Seq<char>, from: int)
    ensures
        find_from(s, pat, from) matches Some(j) ==> from <= j && j + pat.len() <= s.len() && occurs_at(s, pat, j),
    decreases s.len() + 1 - from,
{
    if !(from < 0 || from + pat.len() > s.len()) && !occurs_at(s, pat, from) {
        lemma_find_from(s, pat, from + 1);
    }
}

fn occurs_here(s: &Vec<char>, pat: &Vec<char>, j: usize) -> (r: bool)
    requires
        j + pat.len() <= s.len(),
    ensures
        r == occurs_at(s@, pat@, j as int),
{
    let mut k: usize = 0;
    while k < pat.len()
        invariant
            k <= pat.len(),
            j + pat.len() <= s.len(),
            forall|m: int| 0 <= m < k ==> s@[j + m] == pat@[m],
        decreases pat.len() - k,
    {
        if s[j + k] != pat[k] {
            proof {
                assert(s@.subrange(j as int, j + pat.len())[k as int] != pat@[k as int]);
            }
            return false;
        }
        k += 1;
    }
    proof {
        assert(s@.subrange(j as int, j + pat.len()) =~= pat@);
    }
    true
}

/// The first position from `from` on where `pat` occurs in `s`.
pub fn find_chars(s: &Vec<char>, pat: &Vec<char>, from: usize) -> (r: Option<usize>)
    ensures
        match find_from(s@, pat@, from as int) {
            Some(j) => r matches Some(x) && x as int == j,
            None => r is None,
        },
        r matches Some(x) ==> from <= x && x + pat.len() <= s.len(),
{
    proof {
        lemma_find_from(s@, pat@, from as int);
    }
    if pat.len() > s.len() {
        return None;
    }
    let last = s.len() - pat.len();
    let mut j = from;
    while j <= last
        invariant
            from <= j,
            last + pat.len() == s.len(),
            find_from(s@, pat@, from as int) == find_from(s@, pat@, j as int),
        decreases last + 1 - j,
    {
        if occurs_here(s, pat, j) {
            return Some(j);
        }
        if j == last {
            return None;
        }
        j += 1;
    }
    None
}

/// `s` contains `pat`.
pub open spec fn contains_chars(s: Seq<char>, pat: Seq<char>) -> bool {
    find_from(s, pat, 0) is Some
}

/// The named references inside the first `<< ... >>` after `after`'s start.
pub open spec fn dict_refs(after: Seq<char>) -> Seq<(Seq<char>, ObjectId)> {
    match find_from(after, "<<"@, 0) {
        None => Seq::empty(),
        Some(d) => {
            let inner = after.skip(d + "<<"@.len());
            match find_from(inner, ">>"@, 0) {
                None => Seq::empty(),
                Some(e) => named_refs(inner.take(e)),
            }
        },
    }
}

/// The references in the dictionaries that follow each occurrence of `pat`
/// (taken left to right without overlap) from `from` on.
pub open spec fn scoped_refs_from(s: Seq<char>, pat: Seq<char>, from: int) -> Seq<(Seq<char>, ObjectId)>
    decreases s.len() - from,
{
    if pat.len() == 0 || from < 0 {
        Seq::empty()
    } else {
        match find_from(s, pat, from) {
            None => Seq::empty(),
            Some(j) => {
                proof {
                    lemma_find_from(s, pat, from);
                }
                dict_refs(s.skip(j + pat.len())) + scoped_refs_from(s, pat, j + pat.len())
            },
        }
    }
}

/// References named in the dictionary after each `/Font` of `body`.
pub open spec fn font_refs(body: Seq<char>) -> Seq<(Seq<char>, ObjectId)> {
    scoped_refs_from(body, "/Font"@, 0)
}

fn dictionary_references(after: &Vec<char>) -> (r: Vec<(String, ObjectId)>)
    ensures
        ref_views(r@) == dict_refs(after@),
{
    proof {
        assert(ref_views(Seq::<(String, ObjectId)>::empty()) =~= Seq::<(Seq<char>, ObjectId)>::empty());
    }
    let open_pat = chars_of("<<");
    let close_pat = chars_of(">>");
    let d = match find_chars(after, &open_pat, 0) {
        Some(d) => d,
        None => return Vec::new(),
    };
    proof {
        lemma_find_from(after@, open_pat@, 0);
    }
    let inner = sub_chars(after.as_slice(), d + open_pat.len(), after.len());
    proof {
        assert(inner@ =~= after@.skip(d + "<<"@.len()));
    }
    let e = match find_chars(&inner, &close_pat, 0) {
        Some(e) => e,
        None => return Vec::new(),
    };
    proof {
        lemma_find_from(inner@, close_pat@, 0);
    }
    let inside = sub_chars(inner.as_slice(), 0, e);
    proof {
        assert(inside@ =~= inner@.take(e as int));
    }
    named_references(&inside)
}

/// The references in the dictionary after each `/Font` in `body`, in order.
pub fn font_resource_references(body: &Vec<char>) -> (r: Vec<(String, ObjectId)>)
    ensures
        ref_views(r@) == font_refs(body@),
{
    let pat = chars_of("/Font");
    let ghost p = pat@;
    let mut out: Vec<(String, ObjectId)> = Vec::new();
    proof {
        assert(ref_views(out@) =~= Seq::<(Seq<char>, ObjectId)>::empty());
        assert(ref_views(out@) + font_refs(body@) =~= font_refs(body@));
    }
    if pat.len() == 0 {
        return out;
    }
    let mut from: usize = 0;
    while from <= body.len()
        invariant
            p == pat@,
            p == "/Font"@,
            p.len() > 0,
            ref_views(out@) + scoped_refs_from(body@, p, from as int) == font_refs(body@),
        decreases body.len() + 1 - from,
    {
        match find_chars(body, &pat, from) {
            None => {
                proof {
                    assert(ref_views(out@) + Seq::<(Seq<char>, ObjectId)>::empty() =~= ref_views(out@));
                }
                return out;
            },
            Some(j) => {
                proof {
                    lemma_find_from(body@, p, from as int);
                }
                let after = sub_chars(body.as_slice(), j + pat.len(), body.len());
                proof {
                    assert(after@ =~= body@.skip(j + p.len()));
                }
                let mut found = dictionary_references(&after);
                let ghost before = ref_views(out@);
                let ghost fv = ref_views(found@);
                out.append(&mut found);
                proof {
                    assert(ref_views(out@) =~= before + fv);
                    assert(before + fv + scoped_refs_from(body@, p, j + p.len()) =~= before + (fv
                        + scoped_refs_from(body@, p, j + p.len())));
                }
                from = j + pat.len();
            },
        }
    }
    proof {
        assert(scoped_refs_from(body@, p, from as int) =~= Seq::<(Seq<char>, ObjectId)>::empty());
        assert(ref_views(out@) + Seq::<(Seq<char>, ObjectId)>::empty() =~= ref_views(out@));
    }
    out
}

/// `s` without its leading whitespace.
pub open spec fn trim_start(s: Seq<char>) -> Seq<char>
    decreases s.len(),
{
    if s.len() > 0 && white_space(s[0]) {
        trim_start(s.drop_first())
    } else {
        s
    }
}

/// The first `n` characters of `s`, or all of them.
pub open spec fn at_most(s: Seq<char>, n: int) -> Seq<char> {
    if s.len() <= n {
        s
    } else {
        s.take(n)
    }
}

/// The tokens joined by single spaces.
pub open spec fn join_space(ts: Seq<Seq<char>>) -> Seq<char>
    decreases ts.len(),
{
    if ts.len() == 0 {
        Seq::empty()
    } else if ts.len() == 1 {
        ts[0]
    } else {
        join_space(ts.drop_last()) + seq![' '] + ts.last()
    }
}

/// The text after the first `/key` of `body`, with leading whitespace
/// skipped.
pub open spec fn after_key(body: Seq<char>, key: Seq<char>) -> Option<Seq<char>> {
    match find_from(body, seq!['/'] + key, 0) {
        None => None,
        Some(j) => Some(body.skip(j + key.len() + 1)),
    }
}

/// The value written after the first `/key` of `body`: a literal string's
/// text (at most 120 characters, `None` when unterminated), a name with its
/// slash, or else up to three words joined by spaces (at most 120
/// characters).
pub open spec fn value_after_key(body: Seq<char>, key: Seq<char>) -> Option<Seq<char>> {
    match after_key(body, key) {
        None => None,
        Some(r) => {
            let rest = trim_start(r);
            if rest.len() > 0 && rest[0] == '(' {
                match find_from(rest.drop_first(), seq![')'], 0) {
                    None => None,
                    Some(k) => Some(at_most(rest.drop_first().take(k), 120)),
                }
            } else if rest.len() > 0 && rest[0] == '/' {
                let ts = ws_tokens(rest.drop_first());
                if ts.len() > 0 {
                    Some(seq!['/'] + ts[0])
                } else {
                    None
                }
            } else {
                let ts = ws_tokens(rest);
                Some(at_most(join_space(if ts.len() <= 3 { ts } else { ts.take(3) }), 120))
            }
        },
    }
}

/// The name written after the first `/key` of `body`, without its slash.
pub open spec fn name_after_key_spec(body: Seq<char>, key: Seq<char>) -> Option<Seq<char>> {
    match value_after_key(body, key) {
        Some(v) => if v.len() > 0 && v[0] == '/' {
            Some(v.drop_first())
        } else {
            None
        },
        None => None,
    }
}

/// The reference `number generation R` that starts `rest`'s tokens.
pub open spec fn reference_at(rest: Seq<char>) -> Option<ObjectId> {
    let ts = body_tokens_spec(rest);
    if ts.len() >= 3 {
        match (parse_bounded(ts[0], u32::MAX as int), parse_bounded(ts[1], u16::MAX as int)) {
            (Some(n), Some(g)) => if ts[2] == seq!['R'] {
                Some(ObjectId { number: n as u32, generation: g as u16 })
            } else {
                None
            },
            _ => None,
        }
    } else {
        None
    }
}

/// The reference written after the first `/key` of `body`.
pub open spec fn reference_after_key_spec(body: Seq<char>, key: Seq<char>) -> Option<ObjectId> {
    match after_key(body, key) {
        None => None,
        Some(rest) => reference_at(rest),
    }
}

fn key_pattern(key: &str) -> (r: Vec<char>)
    ensures
        r@ == seq!['/'] + key@,
{
    let mut r = chars_of(key);
    r.insert(0, '/');
    proof {
        assert(r@ =~= seq!['/'] + key@);
    }
    r
}

/// The text after the first `/key` of `body`.
fn text_after_key(body: &Vec<char>, key: &str) -> (r: Option<Vec<char>>)
    ensures
        match after_key(body@, key@) {
            Some(t) => r matches Some(v) && v@ == t,
            None => r is None,
        },
{
    let pat = key_pattern(key);
    match find_chars(body, &pat, 0) {
        None => None,
        Some(j) => {
            let start = j + pat.len();
            proof {
                assert(start == j + key@.len() + 1);
            }
            let rest = sub_chars(body.as_slice(), start, body.len());
            proof {
                assert(rest@ =~= body@.skip(start as int));
            }
            Some(rest)
        },
    }
}

pub fn trim_leading(s: &Vec<char>) -> (r: Vec<char>)
    ensures
        r@ == trim_start(s@),
{
    let mut i: usize = 0;
    proof {
        assert(s@.skip(0) =~= s@);
    }
    while i < s.len() && is_white_space(s[i])
        invariant
            i <= s.len(),
            trim_start(s@) == trim_start(s@.skip(i as int)),
        decreases s.len() - i,
    {
        proof {
            assert(s@.skip(i as int)[0] == s@[i as int]);
            assert(s@.skip(i as int).drop_first() =~= s@.skip(i + 1));
        }
        i += 1;
    }
    proof {
        if i < s.len() {
            assert(s@.skip(i as int)[0] == s@[i as int]);
        }
    }
    sub_chars(s.as_slice(), i, s.len())
}

fn first_chars(s: &Vec<char>, n: usize) -> (r: Vec<char>)
    ensures
        r@ == at_most(s@, n as int),
{
    if s.len() <= n {
        sub_chars(s.as_slice(), 0, s.len())
    } else {
        sub_chars(s.as_slice(), 0, n)
    }
}

/// The value after the first `/key` of `body`, as described at
/// `value_after_key`.
pub fn value_after_pdf_name(body: &Vec<char>, key: &str) -> (r: Option<Vec<char>>)
    ensures
        match value_after_key(body@, key@) {
            Some(v) => r matches Some(x) && x@ == v,
            None => r is None,
        },
{
    let after = match text_after_key(body, key) {
        Some(a) => a,
        None => return None,
    };
    let rest = trim_leading(&after);
    if rest.len() > 0 && rest[0] == '(' {
        let inner = sub_chars(rest.as_slice(), 1, rest.len());
        proof {
            assert(inner@ =~= rest@.drop_first());
        }
        let close = chars_of(")");
        proof {
            reveal_strlit(")");
            assert(close@ =~= seq![')']);
        }
        match find_chars(&inner, &close, 0) {
            None => None,
            Some(k) => {
                let text = sub_chars(inner.as_slice(), 0, k);
                proof {
                    assert(text@ =~= inner@.take(k as int));
                }
                Some(first_chars(&text, 120))
            },
        }
    } else if rest.len() > 0 && rest[0] == '/' {
        let inner = sub_chars(rest.as_slice(), 1, rest.len());
        proof {
            assert(inner@ =~= rest@.drop_first());
        }
        let tokens = split_ws(&inner);
        if tokens.len() > 0 {
            let mut v = sub_chars(tokens[0].as_slice(), 0, tokens[0].len());
            v.insert(0, '/');
            proof {
                assert(token_views(tokens@)[0] == tokens@[0]@);
                assert(v@ =~= seq!['/'] + tokens@[0]@);
            }
            Some(v)
        } else {
            None
        }
    } else {
        let tokens = split_ws(&rest);
        let ghost ts = token_views(tokens@);
        let k = if tokens.len() <= 3 { tokens.len() } else { 3 };
        let ghost chosen = if ts.len() <= 3 { ts } else { ts.take(3) };
        proof {
            assert(chosen =~= ts.take(k as int));
        }
        let mut joined: Vec<char> = Vec::new();
        let mut i: usize = 0;
        proof {
            assert(ts.take(0) =~= Seq::<Seq<char>>::empty());
        }
        while i < k
            invariant
                i <= k,
                k <= tokens.len(),
                ts == token_views(tokens@),
                joined@ == join_space(ts.take(i as int)),
            decreases k - i,
        {
            let ghost before = joined@;
            if i > 0 {
                joined.push(' ');
            }
            let mut j: usize = 0;
            while j < tokens[i].len()
                invariant
                    i < k <= tokens.len(),
                    j <= tokens@[i as int]@.len(),
                    joined@ == (if i > 0 { before.push(' ') } else { before }) + tokens@[i as int]@.take(j as int),
                decreases tokens@[i as int]@.len() - j,
            {
                joined.push(tokens[i][j]);
                proof {
                    assert(tokens@[i as int]@.take(j + 1) =~= tokens@[i as int]@.take(j as int).push(
                        tokens@[i as int]@[j as int],
                    ));
                }
                j += 1;
            }
            proof {
                assert(tokens@[i as int]@.take(j as int) =~= tokens@[i as int]@);
                assert(ts[i as int] == tokens@[i as int]@);
                let t = ts.take(i + 1);
                assert(t.drop_last() =~= ts.take(i as int));
                assert(t.last() == ts[i as int]);
                if i == 0 {
                    assert(joined@ =~= ts[0]);
                } else {
                    assert(joined@ =~= join_space(ts.take(i as int)) + seq![' '] + ts[i as int]);
                }
            }
            i += 1;
        }
        Some(first_chars(&joined, 120))
    }
}

/// The name after the first `/key` of `body`, without its slash.
pub fn name_after_key(body: &Vec<char>, key: &str) -> (r: Option<Vec<char>>)
    ensures
        match name_after_key_spec(body@, key@) {
            Some(v) => r matches Some(x) && x@ == v,
            None => r is None,
        },
{
    match value_after_pdf_name(body, key) {
        Some(v) => {
            if v.len() > 0 && v[0] == '/' {
                let name = sub_chars(v.as_slice(), 1, v.len());
                proof {
                    assert(name@ =~= v@.drop_first());
                }
                Some(name)
            } else {
                None
            }
        },
        None => None,
    }
}

/// The reference after the first `/key` of `body`.
pub fn reference_after_key(body: &Vec<char>, key: &str) -> (r: Option<ObjectId>)
    ensures
        r == reference_after_key_spec(body@, key@),
{
    let rest = match text_after_key(body, key) {
        Some(t) => t,
        None => return None,
    };
    let tokens = body_tokens(&rest);
    let ghost ts = token_views(tokens@);
    if tokens.len() < 3 {
        return None;
    }
    proof {
        assert(ts[0] == tokens@[0]@);
        assert(ts[1] == tokens@[1]@);
        assert(ts[2] == tokens@[2]@);
    }
    let number = match parse_unsigned(&tokens[0], 0xFFFF_FFFF) {
        Some(n) => n,
        None => return None,
    };
    let generation = match parse_unsigned(&tokens[1], 0xFFFF) {
        Some(g) => g,
        None => return None,
    };
    if tokens[2].len() == 1 && tokens[2][0] == 'R' {
        proof {
            assert(ts[2] =~= seq!['R']);
        }
        Some(ObjectId { number: number as u32, generation: generation as u16 })
    } else {
        proof {
            if ts[2] == seq!['R'] {
                assert(ts[2].len() == 1);
            }
        }
        None
    }
}

/// Text that marks an object as a font.
pub open spec fn font_body(body: Seq<char>) -> bool {
    ||| contains_chars(body, "/Type /Font"@)
    ||| contains_chars(body, "/Subtype /Type0"@)
    ||| contains_chars(body, "/Subtype /Type1"@)
    ||| contains_chars(body, "/Subtype /TrueType"@)
    ||| contains_chars(body, "/Subtype /CIDFontType"@)
}

pub fn contains_text(body: &Vec<char>, pat: &str) -> (r: bool)
    ensures
        r == contains_chars(body@, pat@),
{
    let p = chars_of(pat);
    find_chars(body, &p, 0).is_some()
}

/// The object text declares a font.
pub fn is_font_object_body(body: &Vec<char>) -> (r: bool)
    ensures
        r == font_body(body@),
{
    contains_text(body, "/Type /Font") || contains_text(body, "/Subtype /Type0") || contains_text(
        body,
        "/Subtype /Type1",
    ) || contains_text(body, "/Subtype /TrueType") || contains_text(body, "/Subtype /CIDFontType")
}


/// The value written after the first `/key` of `body` as the reports read
/// it: a literal string's text (`None` when unterminated), else the first
/// word, a name without its slash; at most 120 characters.
pub open spec fn report_value_after_key(body: Seq<char>, key: Seq<char>) -> Option<Seq<char>> {
    match after_key(body, key) {
        None => None,
        Some(r) => {
            let rest = trim_start(r);
            if rest.len() > 0 && rest[0] == '(' {
                match find_from(rest.drop_first(), seq![')'], 0) {
                    None => None,
                    Some(k) => Some(at_most(rest.drop_first().take(k), 120)),
                }
            } else {
                let word_text = if rest.len() > 0 && rest[0] == '/' {
                    rest.drop_first()
                } else {
                    rest
                };
                let ts = ws_tokens(word_text);
                if ts.len() > 0 {
                    Some(at_most(ts[0], 120))
                } else {
                    None
                }
            }
        },
    }
}

/// The value after the first `/key` of `body`, as described at
/// `report_value_after_key`.
pub fn report_value_after_name(body: &Vec<char>, key: &str) -> (r: Option<Vec<char>>)
    ensures
        match report_value_after_key(body@, key@) {
            Some(v) => r matches Some(x) && x@ == v,
            None => r is None,
        },
{
    let after = match text_after_key(body, key) {
        Some(a) => a,
        None => return None,
    };
    let rest = trim_leading(&after);
    if rest.len() > 0 && rest[0] == '(' {
        let inner = sub_chars(rest.as_slice(), 1, rest.len());
        proof {
            assert(inner@ =~= rest@.drop_first());
        }
        let close = chars_of(")");
        proof {
            reveal_strlit(")");
            assert(close@ =~= seq![')']);
        }
        match find_chars(&inner, &close, 0) {
            None => None,
            Some(k) => {
                let text = sub_chars(inner.as_slice(), 0, k);
                proof {
                    assert(text@ =~= inner@.take(k as int));
                }
                Some(first_chars(&text, 120))
            },
        }
    } else {
        let word_text = if rest.len() > 0 && rest[0] == '/' {
            sub_chars(rest.as_slice(), 1, rest.len())
        } else {
            sub_chars(rest.as_slice(), 0, rest.len())
        };
        proof {
            if rest@.len() > 0 && rest@[0] == '/' {
                assert(word_text@ =~= rest@.drop_first());
            } else {
                assert(word_text@ =~= rest@);
            }
        }
        let tokens = split_ws(&word_text);
        if tokens.len() > 0 {
            proof {
                assert(token_views(tokens@)[0] == tokens@[0]@);
            }
            Some(first_chars(&tokens[0], 120))
        } else {
            None
        }
    }
}

/// The value after the first `/key` of `body` read as a `usize`.
pub open spec fn usize_after_key(body: Seq<char>, key: Seq<char>) -> Option<int> {
    match report_value_after_key(body, key) {
        Some(v) => parse_bounded(v, usize::MAX as int),
        None => None,
    }
}

/// The value after the first `/key` of `body`, parsed as `str::parse`
/// parses a `usize`.
pub fn pdf_usize_after_name(body: &Vec<char>, key: &str) -> (r: Option<usize>)
    ensures
        match usize_after_key(body@, key@) {
            Some(v) => r matches Some(x) && x as int == v,
            None => r is None,
        },
{
    match report_value_after_name(body, key) {
        None => None,
        Some(v) => match parse_unsigned(&v, usize::MAX as u64) {
            Some(x) => Some(x as usize),
            None => None,
        },
    }
}

} // verus!
