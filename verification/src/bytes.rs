//! Byte-level scanning shared by the PDF parsers.
use vstd::prelude::*;

verus! {

/// ASCII whitespace as `u8::is_ascii_whitespace` defines it: space, tab,
/// line feed, form feed and carriage return.
pub open spec fn is_ws(b: u8) -> bool {
    b == 0x20u8 || b == 0x09u8 || b == 0x0au8 || b == 0x0cu8 || b == 0x0du8
}

pub open spec fn is_digit(b: u8) -> bool {
    0x30u8 <= b && b <= 0x39u8
}

pub fn is_ascii_whitespace(b: u8) -> (r: bool)
    ensures
        r == is_ws(b),
{
    b == 0x20 || b == 0x09 || b == 0x0a || b == 0x0c || b == 0x0d
}

pub fn is_ascii_digit(b: u8) -> (r: bool)
    ensures
        r == is_digit(b),
{
    0x30 <= b && b <= 0x39
}

pub open spec fn opt_usize(o: Option<int>) -> Option<usize> {
    match o {
        Some(i) => Some(i as usize),
        None => None,
    }
}

/// `k` occurs in `s` at offset `i`.
pub open spec fn matches_at(s: Seq<u8>, i: int, k: Seq<u8>) -> bool {
    0 <= i && i + k.len() <= s.len() && s.subrange(i, i + k.len()) == k
}

/// The first offset at or after `start` where `k` occurs.
pub open spec fn find_from(s: Seq<u8>, start: int, k: Seq<u8>) -> Option<int>
    decreases s.len() + 1 - start,
{
    if start < 0 || start + k.len() > s.len() {
        None
    } else if matches_at(s, start, k) {
        Some(start)
    } else {
        find_from(s, start + 1, k)
    }
}

/// The last offset before `end` (exclusive) at which `k` starts.
pub open spec fn find_last_before(s: Seq<u8>, end: int, k: Seq<u8>) -> Option<int>
    decreases end,
{
    if end <= 0 {
        None
    } else if matches_at(s, end - 1, k) {
        Some(end - 1)
    } else {
        find_last_before(s, end - 1, k)
    }
}

/// Number of (possibly overlapping) occurrences of `k` at offsets `>= start`.
pub open spec fn count_from(s: Seq<u8>, start: int, k: Seq<u8>) -> nat
    decreases s.len() + 1 - start,
{
    if start < 0 || start + k.len() > s.len() {
        0
    } else {
        count_from(s, start + 1, k) + if matches_at(s, start, k) { 1nat } else { 0nat }
    }
}

pub proof fn lemma_find_from_props(s: Seq<u8>, start: int, k: Seq<u8>)
    requires
        0 <= start,
    ensures
        find_from(s, start, k) matches Some(i) ==> start <= i && matches_at(s, i, k)
            && forall|j: int| start <= j < i ==> !matches_at(s, j, k),
        find_from(s, start, k) is None ==> forall|j: int| start <= j ==> !matches_at(s, j, k),
    decreases s.len() + 1 - start,
{
    if start + k.len() > s.len() {
    } else if matches_at(s, start, k) {
    } else {
        lemma_find_from_props(s, start + 1, k);
    }
}

pub fn byte_matches_at(s: &[u8], i: usize, k: &[u8]) -> (r: bool)
    ensures
        r == matches_at(s@, i as int, k@),
{
    if i > s.len() || k.len() > s.len() - i {
        return false;
    }
    let mut j: usize = 0;
    while j < k.len()
        invariant
            i + k.len() <= s.len(),
            j <= k.len(),
            forall|t: int| 0 <= t < j ==> s@[i + t] == k@[t],
        decreases k.len() - j,
    {
        if s[i + j] != k[j] {
            proof {
                assert(s@.subrange(i as int, i + k.len())[j as int] != k@[j as int]);
            }
            return false;
        }
        j += 1;
    }
    proof {
        assert(s@.subrange(i as int, i + k.len()) =~= k@);
    }
    true
}

/// The first occurrence of `keyword` at or after `start`.
pub fn find_keyword(bytes: &[u8], start: usize, keyword: &[u8]) -> (r: Option<usize>)
    requires
        keyword.len() > 0,
    ensures
        r == opt_usize(find_from(bytes@, start as int, keyword@)),
        r matches Some(i) ==> start <= i && i + keyword.len() <= bytes.len(),
{
    if start > bytes.len() {
        return None;
    }
    let mut i = start;
    while i < bytes.len()
        invariant
            start <= i <= bytes.len(),
            find_from(bytes@, start as int, keyword@) == find_from(bytes@, i as int, keyword@),
        decreases bytes.len() - i,
    {
        if keyword.len() > bytes.len() - i {
            return None;
        }
        if byte_matches_at(bytes, i, keyword) {
            return Some(i);
        }
        i += 1;
    }
    None
}

/// The last occurrence of `keyword` anywhere in `bytes`.
pub fn find_last_keyword(bytes: &[u8], keyword: &[u8]) -> (r: Option<usize>)
    requires
        keyword.len() > 0,
    ensures
        r == opt_usize(find_last_before(bytes@, bytes.len() as int, keyword@)),
{
    let mut end = bytes.len();
    while end > 0
        invariant
            end <= bytes.len(),
            find_last_before(bytes@, bytes.len() as int, keyword@) == find_last_before(
                bytes@,
                end as int,
                keyword@,
            ),
        decreases end,
    {
        if byte_matches_at(bytes, end - 1, keyword) {
            return Some(end - 1);
        }
        end -= 1;
    }
    None
}

/// Number of (possibly overlapping) occurrences of `keyword`.
pub fn keyword_count(bytes: &[u8], keyword: &[u8]) -> (r: usize)
    requires
        keyword.len() > 0,
    ensures
        r == count_from(bytes@, 0, keyword@),
{
    if keyword.len() > bytes.len() {
        return 0;
    }
    let mut i = bytes.len() - keyword.len() + 1;
    let mut count: usize = 0;
    while i > 0
        invariant
            i + keyword.len() <= bytes.len() + 1,
            count == count_from(bytes@, i as int, keyword@),
            0 < keyword.len() <= bytes.len(),
            count + i <= bytes.len() - keyword.len() + 1,
        decreases i,
    {
        i -= 1;
        if byte_matches_at(bytes, i, keyword) {
            count += 1;
        }
    }
    count
}

/// Index of the first non-whitespace byte at or after `index`.
pub open spec fn skip_ws_from(s: Seq<u8>, index: int) -> int
    decreases s.len() - index,
{
    if 0 <= index < s.len() && is_ws(s[index]) {
        skip_ws_from(s, index + 1)
    } else {
        index
    }
}

pub fn skip_ascii_whitespace_bytes(bytes: &[u8], index: usize) -> (r: usize)
    ensures
        r == skip_ws_from(bytes@, index as int),
        index <= r,
        r > index ==> r <= bytes.len(),
{
    let mut i = index;
    while i < bytes.len() && is_ascii_whitespace(bytes[i])
        invariant
            index <= i,
            i > index ==> i <= bytes.len(),
            skip_ws_from(bytes@, index as int) == skip_ws_from(bytes@, i as int),
        decreases bytes.len() - i,
    {
        i += 1;
    }
    i
}

/// Start of the trimmed region: first non-whitespace byte of `s[lo..]`.
pub open spec fn trim_start_index(s: Seq<u8>) -> int {
    let i = skip_ws_from(s, 0);
    i
}

/// End of the region after trailing whitespace is dropped from `s[..end]`,
/// never going below `lo`.
pub open spec fn trim_end_index(s: Seq<u8>, lo: int, end: int) -> int
    decreases end - lo,
{
    if end > lo && 0 < end <= s.len() && is_ws(s[end - 1]) {
        trim_end_index(s, lo, end - 1)
    } else {
        end
    }
}

pub proof fn lemma_skip_ws_bounds(s: Seq<u8>, i: int)
    requires
        0 <= i <= s.len(),
    ensures
        i <= skip_ws_from(s, i) <= s.len(),
        forall|j: int| i <= j < skip_ws_from(s, i) ==> is_ws(s[j]),
        skip_ws_from(s, i) < s.len() ==> !is_ws(s[skip_ws_from(s, i)]),
    decreases s.len() - i,
{
    if i < s.len() && is_ws(s[i]) {
        lemma_skip_ws_bounds(s, i + 1);
    }
}

pub proof fn lemma_trim_end_bounds(s: Seq<u8>, lo: int, end: int)
    requires
        0 <= lo <= end <= s.len(),
    ensures
        lo <= trim_end_index(s, lo, end) <= end,
        forall|j: int| trim_end_index(s, lo, end) <= j < end ==> is_ws(s[j]),
        trim_end_index(s, lo, end) > lo ==> !is_ws(s[trim_end_index(s, lo, end) - 1]),
    decreases end - lo,
{
    if end > lo && is_ws(s[end - 1]) {
        lemma_trim_end_bounds(s, lo, end - 1);
    }
}

/// Strips leading and trailing ASCII whitespace; returns the trimmed bytes
/// and how many leading bytes were dropped.
pub fn trim_ascii(bytes: &[u8]) -> (r: (Vec<u8>, usize))
    ensures
        r.1 == trim_start_index(bytes@),
        r.0@ == bytes@.subrange(
            trim_start_index(bytes@),
            trim_end_index(bytes@, trim_start_index(bytes@), bytes@.len() as int),
        ),
{
    let start = skip_ascii_whitespace_bytes(bytes, 0);
    proof {
        lemma_skip_ws_bounds(bytes@, 0);
    }
    let end = trim_trailing_end(bytes, start, bytes.len());
    (slice_range(bytes, start, end), start)
}

/// End offset after trailing whitespace in `bytes[lo..end]` is dropped.
pub fn trim_trailing_end(bytes: &[u8], lo: usize, end: usize) -> (r: usize)
    requires
        lo <= end <= bytes.len(),
    ensures
        r == trim_end_index(bytes@, lo as int, end as int),
        lo <= r <= end,
{
    proof {
        lemma_trim_end_bounds(bytes@, lo as int, end as int);
    }
    let mut e = end;
    while e > lo && is_ascii_whitespace(bytes[e - 1])
        invariant
            lo <= e <= end,
            end <= bytes.len(),
            trim_end_index(bytes@, lo as int, end as int) == trim_end_index(bytes@, lo as int, e as int),
        decreases e,
    {
        e -= 1;
    }
    e
}

/// Copies `bytes[start..end]`.
pub fn slice_range(bytes: &[u8], start: usize, end: usize) -> (r: Vec<u8>)
    requires
        start <= end <= bytes.len(),
    ensures
        r@ == bytes@.subrange(start as int, end as int),
{
    let mut out: Vec<u8> = Vec::new();
    let mut i = start;
    while i < end
        invariant
            start <= i <= end <= bytes.len(),
            out@ == bytes@.subrange(start as int, i as int),
        decreases end - i,
    {
        out.push(bytes[i]);
        proof {
            assert(bytes@.subrange(start as int, i + 1) =~= bytes@.subrange(start as int, i as int).push(bytes@[i as int]));
        }
        i += 1;
    }
    out
}

} // verus!
