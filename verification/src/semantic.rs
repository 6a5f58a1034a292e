//! The text side of semantic nodes: the node kinds that tagged structure
//! types stand for, list markers, and the anchors (text fingerprints and
//! heading context) by which nodes are matched across documents.
use vstd::prelude::*;
use vstd::utf8::encode_utf8;
use crate::chars::{chars_of, lowercase, string_of, to_lowercase};
use crate::fmt::{hex_chars, hex_digits};
use crate::fonts::{normalized, normalize_text};
use crate::image::fnv1a;
use crate::textscan::{is_white_space, join_space, split_ws, token_views, white_space, ws_tokens};
use crate::tagged::{element_views, opt_text, ElementView, TaggedStructureElement};
use crate::surfaces::{pad4, padded4};

verus! {

/// What a semantic node is taken to be.
#[derive(Debug, Clone, Copy, PartialEq, Eq, Structural)]
pub enum SemanticNodeKind {
    Page,
    HeadingCandidate,
    Paragraph,
    ListCandidate,
    TableCandidate,
    FigureCandidate,
    HeaderCandidate,
    FooterCandidate,
    PageTemplateCandidate,
    UnknownBlock,
}

/// The node kind that a tagged structure type stands for.
pub open spec fn structure_kind(t: Seq<char>) -> SemanticNodeKind {
    if t == "H"@ || t == "H1"@ || t == "H2"@ || t == "H3"@ || t == "H4"@ || t == "H5"@ || t == "H6"@ {
        SemanticNodeKind::HeadingCandidate
    } else if t == "L"@ || t == "LI"@ || t == "Lbl"@ || t == "LBody"@ {
        SemanticNodeKind::ListCandidate
    } else if t == "Table"@ || t == "TR"@ || t == "TH"@ || t == "TD"@ || t == "THead"@ || t == "TBody"@ || t
        == "TFoot"@ {
        SemanticNodeKind::TableCandidate
    } else if t == "Figure"@ || t == "Formula"@ || t == "Form"@ {
        SemanticNodeKind::FigureCandidate
    } else if t == "Header"@ {
        SemanticNodeKind::HeaderCandidate
    } else if t == "Footer"@ {
        SemanticNodeKind::FooterCandidate
    } else if t == "P"@ || t == "Span"@ {
        SemanticNodeKind::Paragraph
    } else {
        SemanticNodeKind::UnknownBlock
    }
}

fn same_text(a: &str, b: &str) -> (r: bool)
    ensures
        r == (a@ == b@),
{
    let x = a.to_owned();
    let y = b.to_owned();
    x == y
}

fn one_of(t: &str, names: &[&str]) -> (r: bool)
    ensures
        r == exists|k: int| 0 <= k < names@.len() && (#[trigger] names@[k])@ == t@,
{
    let mut k: usize = 0;
    while k < names.len()
        invariant
            k <= names@.len(),
            forall|j: int| 0 <= j < k ==> (#[trigger] names@[j])@ != t@,
        decreases names@.len() - k,
    {
        if same_text(names[k], t) {
            return true;
        }
        k += 1;
    }
    false
}

/// The node kind for a tagged structure type.
pub fn tagged_structure_kind(structure_type: &str) -> (r: SemanticNodeKind)
    ensures
        r == structure_kind(structure_type@),
{
    let t = structure_type;
    let headings: [&str; 7] = ["H", "H1", "H2", "H3", "H4", "H5", "H6"];
    if one_of(t, &headings) {
        proof {
            let k = choose|k: int| 0 <= k < headings@.len() && (#[trigger] headings@[k])@ == t@;
            assert(k == 0 || k == 1 || k == 2 || k == 3 || k == 4 || k == 5 || k == 6);
        }
        return SemanticNodeKind::HeadingCandidate;
    }
    proof {
        assert(headings@[0]@ != t@ && headings@[1]@ != t@ && headings@[2]@ != t@ && headings@[3]@ != t@
            && headings@[4]@ != t@ && headings@[5]@ != t@ && headings@[6]@ != t@);
    }
    let lists: [&str; 4] = ["L", "LI", "Lbl", "LBody"];
    if one_of(t, &lists) {
        proof {
            let k = choose|k: int| 0 <= k < lists@.len() && (#[trigger] lists@[k])@ == t@;
            assert(k == 0 || k == 1 || k == 2 || k == 3);
        }
        return SemanticNodeKind::ListCandidate;
    }
    proof {
        assert(lists@[0]@ != t@ && lists@[1]@ != t@ && lists@[2]@ != t@ && lists@[3]@ != t@);
    }
    let tables: [&str; 7] = ["Table", "TR", "TH", "TD", "THead", "TBody", "TFoot"];
    if one_of(t, &tables) {
        proof {
            let k = choose|k: int| 0 <= k < tables@.len() && (#[trigger] tables@[k])@ == t@;
            assert(k == 0 || k == 1 || k == 2 || k == 3 || k == 4 || k == 5 || k == 6);
        }
        return SemanticNodeKind::TableCandidate;
    }
    proof {
        assert(tables@[0]@ != t@ && tables@[1]@ != t@ && tables@[2]@ != t@ && tables@[3]@ != t@ && tables@[4]@
            != t@ && tables@[5]@ != t@ && tables@[6]@ != t@);
    }
    let figures: [&str; 3] = ["Figure", "Formula", "Form"];
    if one_of(t, &figures) {
        proof {
            let k = choose|k: int| 0 <= k < figures@.len() && (#[trigger] figures@[k])@ == t@;
            assert(k == 0 || k == 1 || k == 2);
        }
        return SemanticNodeKind::FigureCandidate;
    }
    proof {
        assert(figures@[0]@ != t@ && figures@[1]@ != t@ && figures@[2]@ != t@);
    }
    if same_text(t, "Header") {
        return SemanticNodeKind::HeaderCandidate;
    }
    if same_text(t, "Footer") {
        return SemanticNodeKind::FooterCandidate;
    }
    if same_text(t, "P") || same_text(t, "Span") {
        return SemanticNodeKind::Paragraph;
    }
    SemanticNodeKind::UnknownBlock
}

/// An ASCII decimal digit.
pub open spec fn ascii_digit(c: char) -> bool {
    '0' <= c <= '9'
}

/// `text` opens with `-`, `*` or `+` and then whitespace.
pub open spec fn bullet_marker(text: Seq<char>) -> bool {
    text.len() >= 2 && (text[0] == '-' || text[0] == '*' || text[0] == '+') && white_space(text[1])
}

/// The number of ASCII digits that `text` opens with.
pub open spec fn leading_digits(text: Seq<char>) -> nat
    decreases text.len(),
{
    if text.len() > 0 && ascii_digit(text[0]) {
        1 + leading_digits(text.drop_first())
    } else {
        0
    }
}

/// `text` opens with one to three digits, then `.` or `)`, then whitespace.
pub open spec fn numbered_marker(text: Seq<char>) -> bool {
    let d = leading_digits(text) as int;
    1 <= d <= 3 && text.len() >= d + 2 && (text[d] == '.' || text[d] == ')') && white_space(text[d + 1])
}

/// Whether `text` opens with a bullet: `-`, `*` or `+` followed by
/// whitespace.
pub fn is_bullet_list_marker(text: &str) -> (r: bool)
    ensures
        r == bullet_marker(text@),
{
    let cs = chars_of(text);
    cs.len() >= 2 && (cs[0] == '-' || cs[0] == '*' || cs[0] == '+') && is_white_space(cs[1])
}

proof fn lemma_leading_digits(text: Seq<char>, i: int)
    requires
        0 <= i <= text.len(),
        forall|j: int| 0 <= j < i ==> ascii_digit(#[trigger] text[j]),
    ensures
        leading_digits(text) == i + leading_digits(text.skip(i)),
    decreases i,
{
    if i > 0 {
        lemma_leading_digits(text.drop_first(), i - 1);
        assert(text.drop_first().skip(i - 1) =~= text.skip(i));
    } else {
        assert(text.skip(0) =~= text);
    }
}

/// Whether `text` opens with a list number: one to three digits, then `.`
/// or `)`, then whitespace.
pub fn is_numbered_list_marker(text: &str) -> (r: bool)
    ensures
        r == numbered_marker(text@),
{
    let cs = chars_of(text);
    let mut d: usize = 0;
    while d < cs.len() && '0' <= cs[d] && cs[d] <= '9'
        invariant
            d <= cs@.len(),
            cs@ == text@,
            forall|j: int| 0 <= j < d ==> ascii_digit(#[trigger] cs@[j]),
        decreases cs@.len() - d,
    {
        d += 1;
    }
    proof {
        lemma_leading_digits(cs@, d as int);
        if d < cs@.len() {
            assert(cs@.skip(d as int)[0] == cs@[d as int]);
        }
        assert(leading_digits(cs@.skip(d as int)) == 0);
    }
    if d == 0 || d > 3 {
        return false;
    }
    if cs.len() < d + 2 {
        return false;
    }
    (cs[d] == '.' || cs[d] == ')') && is_white_space(cs[d + 1])
}

/// `text` without its leading whitespace.
pub open spec fn trimmed_start(text: Seq<char>) -> Seq<char>
    decreases text.len(),
{
    if text.len() > 0 && white_space(text[0]) {
        trimmed_start(text.drop_first())
    } else {
        text
    }
}

/// Whether a paragraph reads as a list item: after leading whitespace, a
/// bullet or a list number.
pub fn is_list_candidate(text: &str) -> (r: bool)
    ensures
        r == (bullet_marker(trimmed_start(text@)) || numbered_marker(trimmed_start(text@))),
{
    let cs = chars_of(text);
    let rest = crate::textscan::trim_leading(&cs);
    proof {
        lemma_trim_start_same(text@);
    }
    let s = string_of(rest.as_slice());
    is_bullet_list_marker(s.as_str()) || is_numbered_list_marker(s.as_str())
}

proof fn lemma_trim_start_same(text: Seq<char>)
    ensures
        crate::textscan::trim_start(text) == trimmed_start(text),
    decreases text.len(),
{
    if text.len() > 0 && white_space(text[0]) {
        lemma_trim_start_same(text.drop_first());
    }
}

/// The text by which anchors compare: whitespace runs collapsed to single
/// spaces, ends trimmed, lower-cased.
pub open spec fn anchor_text(text: Seq<char>) -> Seq<char> {
    lowercase(normalized(text))
}

/// The text as anchors compare it.
pub fn normalize_anchor_text(text: &str) -> (r: String)
    ensures
        r@ == anchor_text(text@),
{
    let n = normalize_text(text);
    to_lowercase(n.as_str())
}

/// The text with every run of ASCII digits written as one `#`.
pub open spec fn digit_runs_marked(cs: Seq<char>) -> Seq<char>
    decreases cs.len(),
{
    if cs.len() == 0 {
        Seq::empty()
    } else {
        let p = cs.drop_last();
        let c = cs.last();
        if ascii_digit(c) {
            if p.len() > 0 && ascii_digit(p.last()) {
                digit_runs_marked(p)
            } else {
                digit_runs_marked(p).push('#')
            }
        } else {
            digit_runs_marked(p).push(c)
        }
    }
}

/// The signature by which repeated page regions are recognized: the anchor
/// text with each run of digits (page numbers, dates) written as `#`.
pub fn repeated_region_signature(text: &str) -> (r: String)
    ensures
        r@ == digit_runs_marked(anchor_text(text@)),
{
    let norm = normalize_anchor_text(text);
    let cs = chars_of(norm.as_str());
    let mut out: Vec<char> = Vec::new();
    let mut in_digit_run = false;
    let mut i: usize = 0;
    while i < cs.len()
        invariant
            i <= cs@.len(),
            out@ == digit_runs_marked(cs@.take(i as int)),
            in_digit_run == (i > 0 && ascii_digit(cs@[i - 1])),
        decreases cs@.len() - i,
    {
        proof {
            assert(cs@.take(i + 1).drop_last() =~= cs@.take(i as int));
            assert(cs@.take(i + 1).last() == cs@[i as int]);
            if i > 0 {
                assert(cs@.take(i as int).last() == cs@[i - 1]);
            }
        }
        let c = cs[i];
        if '0' <= c && c <= '9' {
            if !in_digit_run {
                out.push('#');
                in_digit_run = true;
            }
        } else {
            in_digit_run = false;
            out.push(c);
        }
        i += 1;
    }
    proof {
        assert(cs@.take(cs@.len() as int) =~= cs@);
    }
    string_of(out.as_slice())
}

/// What `char::is_alphabetic` returns for `c` (Unicode `Alphabetic`).
pub uninterp spec fn alphabetic(c: char) -> bool;

/// `char::is_alphabetic`. Its result depends on the character alone.
#[verifier::external_body]
fn is_alphabetic(c: char) -> (r: bool)
    ensures
        r == alphabetic(c),
{
    c.is_alphabetic()
}

/// The token holds a letter.
pub open spec fn has_letter(t: Seq<char>) -> bool {
    exists|i: int| 0 <= i < t.len() && alphabetic(#[trigger] t[i])
}

/// The tokens that hold a letter, in order.
pub open spec fn letter_tokens(ts: Seq<Seq<char>>) -> Seq<Seq<char>>
    decreases ts.len(),
{
    if ts.len() == 0 {
        Seq::empty()
    } else {
        let rest = letter_tokens(ts.drop_last());
        if has_letter(ts.last()) {
            rest.push(ts.last())
        } else {
            rest
        }
    }
}

/// The weak signature of a text: the first eight words of its anchor text
/// that hold a letter, or the whole anchor text where none does. It stays
/// the same when numbers change.
pub open spec fn weak_text(text: Seq<char>) -> Seq<char> {
    let norm = anchor_text(text);
    let words = letter_tokens(ws_tokens(norm));
    if words.len() == 0 {
        norm
    } else {
        join_space(if words.len() <= 8 {
            words
        } else {
            words.take(8)
        })
    }
}

fn token_has_letter(t: &Vec<char>) -> (r: bool)
    ensures
        r == has_letter(t@),
{
    let mut i: usize = 0;
    while i < t.len()
        invariant
            i <= t@.len(),
            forall|j: int| 0 <= j < i ==> !alphabetic(#[trigger] t@[j]),
        decreases t@.len() - i,
    {
        if is_alphabetic(t[i]) {
            return true;
        }
        i += 1;
    }
    false
}

proof fn lemma_join_push(ts: Seq<Seq<char>>, t: Seq<char>)
    ensures
        join_space(ts.push(t)) == if ts.len() == 0 {
            t
        } else {
            join_space(ts) + seq![' '] + t
        },
{
    assert(ts.push(t).drop_last() =~= ts);
}

/// The weak signature of a text, as `weak_text` describes.
pub fn weak_signature_text(text: &str) -> (r: String)
    ensures
        r@ == weak_text(text@),
{
    let norm = normalize_anchor_text(text);
    let cs = chars_of(norm.as_str());
    let tokens = split_ws(&cs);
    let ghost ts = token_views(tokens@);
    let mut words: Vec<Vec<char>> = Vec::new();
    let mut i: usize = 0;
    proof {
        assert(ts.take(0) =~= Seq::<Seq<char>>::empty());
        assert(token_views(words@) =~= Seq::<Seq<char>>::empty());
    }
    while i < tokens.len()
        invariant
            i <= tokens@.len(),
            ts == token_views(tokens@),
            token_views(words@) == letter_tokens(ts.take(i as int)),
        decreases tokens@.len() - i,
    {
        proof {
            assert(ts.take(i + 1).drop_last() =~= ts.take(i as int));
            assert(ts.take(i + 1).last() == tokens@[i as int]@);
        }
        if token_has_letter(&tokens[i]) {
            let w = crate::chars::sub_chars(tokens[i].as_slice(), 0, tokens[i].len());
            let ghost before = token_views(words@);
            words.push(w);
            proof {
                assert(w@ =~= tokens@[i as int]@);
                assert(token_views(words@) =~= before.push(w@));
            }
        }
        i += 1;
    }
    proof {
        assert(ts.take(tokens@.len() as int) =~= ts);
    }
    let ghost all = token_views(words@);
    if words.len() == 0 {
        return norm;
    }
    let k = if words.len() <= 8 { words.len() } else { 8 };
    let ghost chosen = if all.len() <= 8 { all } else { all.take(8) };
    proof {
        assert(chosen =~= all.take(k as int));
    }
    let mut joined: Vec<char> = Vec::new();
    let mut j: usize = 0;
    proof {
        assert(all.take(0) =~= Seq::<Seq<char>>::empty());
    }
    while j < k
        invariant
            j <= k <= words@.len(),
            all == token_views(words@),
            joined@ == join_space(all.take(j as int)),
        decreases k - j,
    {
        let ghost before = joined@;
        if j > 0 {
            joined.push(' ');
        }
        let mut q: usize = 0;
        while q < words[j].len()
            invariant
                j < k <= words@.len(),
                q <= words@[j as int]@.len(),
                joined@ == (if j > 0 { before.push(' ') } else { before }) + words@[j as int]@.take(q as int),
            decreases words@[j as int]@.len() - q,
        {
            joined.push(words[j][q]);
            proof {
                assert(words@[j as int]@.take(q + 1) =~= words@[j as int]@.take(q as int).push(words@[j as int]@[q as int]));
            }
            q += 1;
        }
        proof {
            assert(words@[j as int]@.take(words@[j as int]@.len() as int) =~= words@[j as int]@);
            assert(all.take(j + 1) =~= all.take(j as int).push(all[j as int]));
            assert(all[j as int] == words@[j as int]@);
            lemma_join_push(all.take(j as int), all[j as int]);
            if j > 0 {
                assert(joined@ =~= before + seq![' '] + words@[j as int]@);
            } else {
                assert(joined@ =~= words@[j as int]@);
            }
        }
        j += 1;
    }
    string_of(joined.as_slice())
}

/// The FNV-1a hash of the UTF-8 form of `text`.
pub fn text_hash(text: &str) -> (r: u64)
    ensures
        r == fnv1a(encode_utf8(text@)),
{
    let bytes = text.as_bytes();
    let mut hash: u64 = 0xcbf2_9ce4_8422_2325;
    let mut i: usize = 0;
    while i < bytes.len()
        invariant
            i <= bytes@.len(),
            bytes@ == encode_utf8(text@),
            hash == fnv1a(bytes@.take(i as int)),
        decreases bytes@.len() - i,
    {
        proof {
            assert(bytes@.take(i + 1).drop_last() =~= bytes@.take(i as int));
        }
        hash = (hash ^ (bytes[i] as u64)).wrapping_mul(0x0000_0100_0000_01b3);
        i += 1;
    }
    proof {
        assert(bytes@.take(bytes@.len() as int) =~= bytes@);
    }
    hash
}

/// How a node is anchored across documents: fingerprints of its text and
/// of its text's words, a coarse position, and the fingerprint of the
/// heading above it.
#[derive(Debug, Clone, PartialEq, Eq)]
pub struct SemanticAnchor {
    pub strong_text_hash: String,
    pub weak_text_signature: String,
    pub geometry_bucket: String,
    pub heading_context: Option<String>,
}

impl SemanticAnchor {
    /// The anchor of a node about which nothing is known.
    pub fn unknown() -> (r: Self)
        ensures
            r.strong_text_hash@ == "text:0000000000000000"@,
            r.weak_text_signature@ == "weak:0000000000000000"@,
            r.geometry_bucket@ == "page-unknown:x-unknown:y-unknown"@,
            r.heading_context is None,
    {
        SemanticAnchor {
            strong_text_hash: "text:0000000000000000".to_owned(),
            weak_text_signature: "weak:0000000000000000".to_owned(),
            geometry_bucket: "page-unknown:x-unknown:y-unknown".to_owned(),
            heading_context: None,
        }
    }
}

/// The fingerprint of a node's anchor text.
pub open spec fn strong_hash(text: Seq<char>) -> Seq<char> {
    "text:"@ + hex_chars(fnv1a(encode_utf8(anchor_text(text))) as nat, 16)
}

/// The fingerprint of a node's weak signature.
pub open spec fn weak_hash(text: Seq<char>) -> Seq<char> {
    "weak:"@ + hex_chars(fnv1a(encode_utf8(weak_text(text))) as nat, 16)
}

/// The anchor of a node with text `text` (none counts as empty), at the
/// position written as `geometry_bucket`, under the heading whose
/// fingerprint is `heading_context`.
pub fn build_anchor(text: Option<&str>, geometry_bucket: String, heading_context: Option<&str>) -> (r: SemanticAnchor)
    ensures
        r.strong_text_hash@ == strong_hash(match text {
            Some(t) => t@,
            None => Seq::empty(),
        }),
        r.weak_text_signature@ == weak_hash(match text {
            Some(t) => t@,
            None => Seq::empty(),
        }),
        r.geometry_bucket@ == geometry_bucket@,
        match heading_context {
            Some(h) => r.heading_context matches Some(c) && c@ == h@,
            None => r.heading_context is None,
        },
{
    proof {
        reveal_strlit("");
    }
    let t: &str = match text {
        Some(t) => t,
        None => "",
    };
    let mut strong = "text:".to_owned();
    strong.append(hex_digits(text_hash(normalize_anchor_text(t).as_str()), 16).as_str());
    let mut weak = "weak:".to_owned();
    weak.append(hex_digits(text_hash(weak_signature_text(t).as_str()), 16).as_str());
    let heading = match heading_context {
        Some(h) => Some(h.to_owned()),
        None => None,
    };
    SemanticAnchor { strong_text_hash: strong, weak_text_signature: weak, geometry_bucket, heading_context: heading }
}

/// What anchoring reads of a node: its kind, its text, and its position
/// written as a geometry bucket.
#[derive(Debug, Clone, PartialEq, Eq)]
pub struct AnchorSubject {
    pub kind: SemanticNodeKind,
    pub text: Option<String>,
    pub geometry_bucket: String,
}

pub open spec fn subject_text(n: AnchorSubject) -> Seq<char> {
    match n.text {
        Some(t) => t@,
        None => Seq::empty(),
    }
}

/// The fingerprint of the last heading among the first `i` nodes.
pub open spec fn heading_before(nodes: Seq<AnchorSubject>, i: int) -> Option<Seq<char>>
    decreases i,
{
    if i <= 0 {
        None
    } else if nodes[i - 1].kind == SemanticNodeKind::HeadingCandidate {
        Some(strong_hash(subject_text(nodes[i - 1])))
    } else {
        heading_before(nodes, i - 1)
    }
}

/// `a` is the anchor of node `n` under the heading fingerprint `h`.
pub open spec fn anchor_is(a: SemanticAnchor, n: AnchorSubject, h: Option<Seq<char>>) -> bool {
    &&& a.strong_text_hash@ == strong_hash(subject_text(n))
    &&& a.weak_text_signature@ == weak_hash(subject_text(n))
    &&& a.geometry_bucket@ == n.geometry_bucket@
    &&& match h {
        Some(c) => a.heading_context matches Some(x) && x@ == c,
        None => a.heading_context is None,
    }
}

/// The anchors of nodes in reading order: each node's own fingerprints and
/// position, under the fingerprint of the last heading before it.
pub fn assign_semantic_anchors(nodes: &[AnchorSubject]) -> (r: Vec<SemanticAnchor>)
    ensures
        r@.len() == nodes@.len(),
        forall|i: int| 0 <= i < r@.len() ==> anchor_is(#[trigger] r@[i], nodes@[i], heading_before(nodes@, i)),
{
    let mut out: Vec<SemanticAnchor> = Vec::new();
    let mut current: Option<String> = None;
    let mut i: usize = 0;
    while i < nodes.len()
        invariant
            i <= nodes@.len(),
            out@.len() == i,
            forall|k: int| 0 <= k < i ==> anchor_is(#[trigger] out@[k], nodes@[k], heading_before(nodes@, k)),
            match current {
                Some(c) => heading_before(nodes@, i as int) == Some(c@),
                None => heading_before(nodes@, i as int) is None,
            },
        decreases nodes@.len() - i,
    {
        let node = &nodes[i];
        let text: Option<&str> = match &node.text {
            Some(t) => Some(t.as_str()),
            None => None,
        };
        let heading: Option<&str> = match &current {
            Some(c) => Some(c.as_str()),
            None => None,
        };
        let anchor = build_anchor(text, node.geometry_bucket.clone(), heading);
        if node.kind == SemanticNodeKind::HeadingCandidate {
            current = Some(anchor.strong_text_hash.clone());
        }
        out.push(anchor);
        i += 1;
    }
    out
}

/// A role-map entry: a structure type and the standard type it maps to.
#[derive(Debug, Clone, PartialEq, Eq)]
pub struct TaggedRoleMapSummary {
    pub source: String,
    pub target: String,
}

/// A structure element as the semantic layer reads it: its type, its
/// mapped type, its marked-content ids and the elements below it.
#[derive(Debug, PartialEq, Eq)]
pub struct TaggedStructureElementSummary {
    pub structure_type: String,
    pub mapped_structure_type: Option<String>,
    pub mcids: Vec<usize>,
    pub children: Vec<TaggedStructureElementSummary>,
}

impl TaggedStructureElementSummary {
    pub open spec fn view(self) -> ElementView
        decreases self,
    {
        ElementView {
            object_id: None,
            structure_type: self.structure_type@,
            mapped_structure_type: opt_text(self.mapped_structure_type),
            mcids: self.mcids@,
            children: summary_views(self.children@),
        }
    }
}

pub open spec fn summary_views(s: Seq<TaggedStructureElementSummary>) -> Seq<ElementView>
    decreases s,
{
    if s.len() == 0 {
        Seq::empty()
    } else {
        summary_views(s.subrange(0, s.len() - 1)).push(s[s.len() - 1].view())
    }
}

/// The element with its object identifiers dropped, all the way down.
pub open spec fn erase_tree(e: ElementView) -> ElementView
    decreases e,
{
    ElementView {
        object_id: None,
        structure_type: e.structure_type,
        mapped_structure_type: e.mapped_structure_type,
        mcids: e.mcids,
        children: erase_forest(e.children),
    }
}

pub open spec fn erase_forest(s: Seq<ElementView>) -> Seq<ElementView>
    decreases s,
{
    if s.len() == 0 {
        Seq::empty()
    } else {
        erase_forest(s.subrange(0, s.len() - 1)).push(erase_tree(s[s.len() - 1]))
    }
}

fn copy_mcids(v: &Vec<usize>) -> (r: Vec<usize>)
    ensures
        r@ == v@,
{
    let mut out: Vec<usize> = Vec::new();
    let mut i: usize = 0;
    while i < v.len()
        invariant
            i <= v@.len(),
            out@ == v@.take(i as int),
        decreases v@.len() - i,
    {
        out.push(v[i]);
        proof {
            assert(v@.take(i + 1) =~= v@.take(i as int).push(v@[i as int]));
        }
        i += 1;
    }
    proof {
        assert(v@.take(v@.len() as int) =~= v@);
    }
    out
}

proof fn lemma_take_views(s: Seq<TaggedStructureElement>, i: int)
    requires
        0 <= i < s.len(),
    ensures
        element_views(s.take(i + 1)) == element_views(s.take(i)).push(s[i].view()),
{
    assert(s.take(i + 1).subrange(0, i) =~= s.take(i));
}

fn summarize_element(e: &TaggedStructureElement) -> (r: TaggedStructureElementSummary)
    ensures
        r.view() == erase_tree(e.view()),
    decreases e,
{
    let mapped = match &e.mapped_structure_type {
        Some(m) => Some(m.clone()),
        None => None,
    };
    let children = semantic_tagged_elements(&e.children);
    TaggedStructureElementSummary {
        structure_type: e.structure_type.clone(),
        mapped_structure_type: mapped,
        mcids: copy_mcids(&e.mcids),
        children,
    }
}

/// The structure elements as the semantic layer reads them.
pub fn semantic_tagged_elements(elements: &Vec<TaggedStructureElement>) -> (r: Vec<TaggedStructureElementSummary>)
    ensures
        summary_views(r@) == erase_forest(element_views(elements@)),
    decreases elements,
{
    let mut out: Vec<TaggedStructureElementSummary> = Vec::new();
    let mut i: usize = 0;
    proof {
        assert(element_views(elements@.take(0)) =~= Seq::<ElementView>::empty());
        assert(summary_views(out@) =~= Seq::<ElementView>::empty());
    }
    while i < elements.len()
        invariant
            i <= elements@.len(),
            summary_views(out@) == erase_forest(element_views(elements@.take(i as int))),
        decreases elements@.len() - i,
    {
        let s = summarize_element(&elements[i]);
        let ghost before = out@;
        out.push(s);
        proof {
            lemma_take_views(elements@, i as int);
            let w = element_views(elements@.take(i as int));
            assert(w.push(elements@[i as int].view()).subrange(0, w.len() as int) =~= w);
            assert(out@.subrange(0, before.len() as int) =~= before);
        }
        i += 1;
    }
    proof {
        assert(elements@.take(elements@.len() as int) =~= elements@);
    }
    out
}

/// The type that decides an element's node kind: its mapped type, else its
/// own.
pub fn effective_tagged_structure_type(element: &TaggedStructureElementSummary) -> (r: &str)
    ensures
        r@ == match element.mapped_structure_type {
            Some(m) => m@,
            None => element.structure_type@,
        },
{
    match &element.mapped_structure_type {
        Some(m) => m.as_str(),
        None => element.structure_type.as_str(),
    }
}

/// Some element of the tree under and including `e` lists `m`.
pub open spec fn tree_has_mcid(e: ElementView, m: usize) -> bool
    decreases e,
{
    e.mcids.contains(m) || forest_has_mcid(e.children, m)
}

/// Some element of the trees of `s` lists `m`.
pub open spec fn forest_has_mcid(s: Seq<ElementView>, m: usize) -> bool
    decreases s,
{
    if s.len() == 0 {
        false
    } else {
        forest_has_mcid(s.subrange(0, s.len() - 1), m) || tree_has_mcid(s[s.len() - 1], m)
    }
}

/// The numbers strictly increase.
pub open spec fn increasing(v: Seq<usize>) -> bool {
    forall|i: int, j: int| 0 <= i < j < v.len() ==> v[i] < v[j]
}

fn insert_id(v: &mut Vec<usize>, m: usize)
    requires
        increasing(old(v)@),
    ensures
        increasing(final(v)@),
        forall|x: usize| #[trigger] final(v)@.contains(x) <==> (old(v)@.contains(x) || x == m),
{
    let mut p: usize = 0;
    while p < v.len() && v[p] < m
        invariant
            p <= v@.len(),
            v@ == old(v)@,
            forall|q: int| 0 <= q < p ==> v@[q] < m,
        decreases v@.len() - p,
    {
        p += 1;
    }
    let ghost before = v@;
    if p < v.len() && v[p] == m {
        proof {
            assert(before[p as int] == m);
        }
        return;
    }
    v.insert(p, m);
    proof {
        assert(v@ == before.insert(p as int, m));
        assert forall|a: int, b: int| 0 <= a < b < v@.len() implies v@[a] < v@[b] by {
            if b < p {
                assert(v@[a] == before[a] && v@[b] == before[b]);
            } else if b == p {
                assert(v@[a] == before[a]);
            } else if a == p {
                assert(v@[b] == before[b - 1]);
            } else if a < p {
                assert(v@[a] == before[a] && v@[b] == before[b - 1]);
            } else {
                assert(v@[a] == before[a - 1] && v@[b] == before[b - 1]);
            }
        }
        assert forall|x: usize| #[trigger] v@.contains(x) <==> (before.contains(x) || x == m) by {
            if v@.contains(x) {
                let i = choose|i: int| 0 <= i < v@.len() && #[trigger] v@[i] == x;
                if i < p {
                    assert(before[i] == x);
                } else if i > p {
                    assert(before[i - 1] == x);
                }
            }
            if before.contains(x) {
                let i = choose|i: int| 0 <= i < before.len() && #[trigger] before[i] == x;
                if i < p {
                    assert(v@[i] == x);
                } else {
                    assert(v@[i + 1] == x);
                }
            }
            if x == m {
                assert(v@[p as int] == x);
            }
        }
    }
}

fn collect_tree_mcids(e: &TaggedStructureElementSummary, v: &mut Vec<usize>)
    requires
        increasing(old(v)@),
    ensures
        increasing(final(v)@),
        forall|x: usize| #[trigger] final(v)@.contains(x) <==> (old(v)@.contains(x) || tree_has_mcid(e.view(), x)),
    decreases e,
{
    let ghost start = v@;
    let mut i: usize = 0;
    while i < e.mcids.len()
        invariant
            i <= e.mcids@.len(),
            increasing(v@),
            forall|x: usize| #[trigger] v@.contains(x) <==> (start.contains(x) || e.mcids@.take(i as int).contains(x)),
        decreases e.mcids@.len() - i,
    {
        let ghost before = v@;
        insert_id(v, e.mcids[i]);
        proof {
            assert(e.mcids@.take(i + 1) =~= e.mcids@.take(i as int).push(e.mcids@[i as int]));
            assert forall|x: usize| #[trigger] v@.contains(x) <==> (start.contains(x) || e.mcids@.take(i + 1).contains(x)) by {
                assert(before.contains(x) <==> (start.contains(x) || e.mcids@.take(i as int).contains(x)));
                if e.mcids@.take(i + 1).contains(x) && x != e.mcids@[i as int] {
                    let k = choose|k: int| 0 <= k < i + 1 && #[trigger] e.mcids@.take(i + 1)[k] == x;
                    assert(e.mcids@.take(i as int)[k] == x);
                }
                if e.mcids@.take(i as int).contains(x) {
                    let k = choose|k: int| 0 <= k < i && #[trigger] e.mcids@.take(i as int)[k] == x;
                    assert(e.mcids@.take(i + 1)[k] == x);
                }
                if x == e.mcids@[i as int] {
                    assert(e.mcids@.take(i + 1)[i as int] == x);
                }
            }
        }
        i += 1;
    }
    proof {
        assert(e.mcids@.take(e.mcids@.len() as int) =~= e.mcids@);
    }
    let ghost middle = v@;
    collect_forest_mcids(&e.children, v);
    proof {
        assert forall|x: usize| #[trigger] v@.contains(x) <==> (start.contains(x) || tree_has_mcid(e.view(), x)) by {
            assert(v@.contains(x) <==> (middle.contains(x) || forest_has_mcid(summary_views(e.children@), x)));
            assert(middle.contains(x) <==> (start.contains(x) || e.mcids@.contains(x)));
        }
    }
}

proof fn lemma_take_summaries(s: Seq<TaggedStructureElementSummary>, i: int)
    requires
        0 <= i < s.len(),
    ensures
        summary_views(s.take(i + 1)) == summary_views(s.take(i)).push(s[i].view()),
{
    assert(s.take(i + 1).subrange(0, i) =~= s.take(i));
}

fn collect_forest_mcids(es: &Vec<TaggedStructureElementSummary>, v: &mut Vec<usize>)
    requires
        increasing(old(v)@),
    ensures
        increasing(final(v)@),
        forall|x: usize| #[trigger] final(v)@.contains(x) <==> (old(v)@.contains(x) || forest_has_mcid(summary_views(es@), x)),
    decreases es,
{
    let ghost start = v@;
    let mut i: usize = 0;
    proof {
        assert(summary_views(es@.take(0)) =~= Seq::<ElementView>::empty());
    }
    while i < es.len()
        invariant
            i <= es@.len(),
            increasing(v@),
            forall|x: usize| #[trigger] v@.contains(x) <==> (start.contains(x) || forest_has_mcid(summary_views(es@.take(i as int)), x)),
        decreases es@.len() - i,
    {
        let ghost before = v@;
        collect_tree_mcids(&es[i], v);
        proof {
            lemma_take_summaries(es@, i as int);
            let w = summary_views(es@.take(i as int));
            let y = es@[i as int].view();
            assert(w.push(y).subrange(0, w.len() as int) =~= w);
            assert(w.push(y)[w.len() as int] == y);
            assert forall|x: usize| #[trigger] v@.contains(x) <==> (start.contains(x) || forest_has_mcid(
                summary_views(es@.take(i + 1)),
                x,
            )) by {
                assert(v@.contains(x) <==> (before.contains(x) || tree_has_mcid(y, x)));
                assert(before.contains(x) <==> (start.contains(x) || forest_has_mcid(w, x)));
                assert(forest_has_mcid(w.push(y), x) == (forest_has_mcid(w, x) || tree_has_mcid(y, x)));
            }
        }
        i += 1;
    }
    proof {
        assert(es@.take(es@.len() as int) =~= es@);
    }
}

/// The marked-content ids that the structure elements list, each once, in
/// increasing order.
pub fn structure_mcid_list(elements: &Vec<TaggedStructureElementSummary>) -> (r: Vec<usize>)
    ensures
        increasing(r@),
        forall|x: usize| #[trigger] r@.contains(x) <==> forest_has_mcid(summary_views(elements@), x),
{
    let mut v: Vec<usize> = Vec::new();
    collect_forest_mcids(elements, &mut v);
    v
}

/// `target` followed by `next`, with a space between where neither side
/// has whitespace at the joint and `target` is not empty.
pub open spec fn appended(target: Seq<char>, next: Seq<char>) -> Seq<char> {
    if target.len() == 0 || white_space(target.last()) || (next.len() > 0 && white_space(next[0])) {
        target + next
    } else {
        target + seq![' '] + next
    }
}

/// Appends `next` to the text of a node, with a space between where
/// neither side has whitespace at the joint.
pub fn append_text(target: &mut String, next: &str)
    ensures
        final(target)@ == appended(old(target)@, next@),
{
    let t = chars_of(target.as_str());
    let n = chars_of(next);
    let joint = t.len() == 0 || is_white_space(t[t.len() - 1]) || (n.len() > 0 && is_white_space(n[0]));
    if !joint {
        target.append(" ");
        proof {
            reveal_strlit(" ");
        }
    }
    target.append(next);
}

/// The identifiers of `count` nodes numbered in order: `n0000`, `n0001`, …
pub fn reindexed_node_ids(count: usize) -> (r: Vec<String>)
    ensures
        r@.len() == count,
        forall|i: int| 0 <= i < count ==> (#[trigger] r@[i])@ == "n"@ + padded4(i as nat),
{
    let mut out: Vec<String> = Vec::new();
    let mut i: usize = 0;
    while i < count
        invariant
            i <= count,
            out@.len() == i,
            forall|k: int| 0 <= k < i ==> (#[trigger] out@[k])@ == "n"@ + padded4(k as nat),
        decreases count - i,
    {
        let mut id = "n".to_owned();
        id.append(pad4(i).as_str());
        out.push(id);
        i += 1;
    }
    out
}

} // verus!
