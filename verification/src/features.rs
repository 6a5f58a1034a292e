//! What a document holds beyond the text that the diff compares: the
//! features that are detected but not compared, the size of its tagged
//! structure, and the incremental updates it was saved with.
use vstd::prelude::*;
use crate::chars::chars_of;
use crate::document::{IncrementalUpdateInfo, PdfDocument};
use crate::scan::PdfObject;
use crate::tagged::{code_lt, code_less, lemma_code_order, lemma_code_trans, element_views, ElementView,
    TaggedStructure, TaggedStructureElement};
use crate::textscan::{contains_chars, contains_text};
use crate::content::strs;
use crate::fmt::{decimal_chars, u64_to_decimal};
use crate::types::{Diagnostic, DiagnosticSeverity, DiagView, ObjectId, ParseConfig, ResourceLimits, diag_views, plain_diag};
use crate::fonts::{cid_or_type0, font_views, FontResourceSet, FontView};
use crate::fmt::usize_to_string;
use crate::bytes::{count_from, keyword_count};
use crate::document::{default_resource_limits, diags_agree};
use crate::scan::records;
use crate::tagged::{tagged_spec, TaggedView};
use vstd::utf8::encode_utf8;

verus! {

/// Some object text among `objs` contains `token`.
pub open spec fn has_token(objs: Seq<PdfObject>, token: Seq<char>) -> bool {
    exists|i: int| 0 <= i < objs.len() && contains_chars(#[trigger] objs[i].body@, token)
}

/// Whether the text of some object of the document contains `token`.
pub fn document_has_token(document: &PdfDocument, token: &str) -> (r: bool)
    ensures
        r == has_token(document.objects@, token@),
{
    let objects = &document.objects;
    let mut i: usize = 0;
    while i < objects.len()
        invariant
            i <= objects.len(),
            objects@ == document.objects@,
            forall|k: int| 0 <= k < i ==> !contains_chars(#[trigger] objects@[k].body@, token@),
        decreases objects.len() - i,
    {
        let body = chars_of(objects[i].body.as_str());
        if contains_text(&body, token) {
            proof {
                assert(contains_chars(document.objects@[i as int].body@, token@));
                assert(has_token(document.objects@, token@));
            }
            return true;
        }
        i += 1;
    }
    false
}

/// Whether the text of some object of the document contains one of
/// `tokens`.
pub fn document_has_any_token(document: &PdfDocument, tokens: &[&str]) -> (r: bool)
    ensures
        r == exists|k: int| 0 <= k < tokens@.len() && has_token(document.objects@, #[trigger] tokens@[k]@),
{
    let mut k: usize = 0;
    while k < tokens.len()
        invariant
            k <= tokens.len(),
            forall|j: int| 0 <= j < k ==> !has_token(document.objects@, #[trigger] tokens@[j]@),
        decreases tokens.len() - k,
    {
        if document_has_token(document, tokens[k]) {
            return true;
        }
        k += 1;
    }
    false
}

/// The number of elements in the tree under and including `e`.
pub open spec fn tree_size(e: ElementView) -> nat
    decreases e,
{
    1 + forest_size(e.children)
}

/// The number of elements in the trees of `s`.
pub open spec fn forest_size(s: Seq<ElementView>) -> nat
    decreases s,
{
    if s.len() == 0 {
        0
    } else {
        forest_size(s.subrange(0, s.len() - 1)) + tree_size(s[s.len() - 1])
    }
}

/// The number of marked-content ids in the tree under and including `e`.
pub open spec fn tree_mcids(e: ElementView) -> nat
    decreases e,
{
    e.mcids.len() + forest_mcids(e.children)
}

/// The number of marked-content ids in the trees of `s`.
pub open spec fn forest_mcids(s: Seq<ElementView>) -> nat
    decreases s,
{
    if s.len() == 0 {
        0
    } else {
        forest_mcids(s.subrange(0, s.len() - 1)) + tree_mcids(s[s.len() - 1])
    }
}

/// `n`, or the largest `usize` where it is larger.
pub open spec fn capped(n: nat) -> usize {
    if n > usize::MAX {
        usize::MAX
    } else {
        n as usize
    }
}

proof fn lemma_views_take(s: Seq<TaggedStructureElement>, i: int)
    requires
        0 <= i < s.len(),
    ensures
        element_views(s.take(i + 1)) == element_views(s.take(i)).push(s[i].view()),
{
    assert(s.take(i + 1).subrange(0, i) =~= s.take(i));
    assert(s.take(i + 1)[i] == s[i]);
}

fn tree_element_count(e: &TaggedStructureElement) -> (r: usize)
    ensures
        r == capped(tree_size(e.view())),
    decreases e,
{
    let c = forest_element_count(&e.children);
    1usize.saturating_add(c)
}

fn forest_element_count(es: &Vec<TaggedStructureElement>) -> (r: usize)
    ensures
        r == capped(forest_size(element_views(es@))),
    decreases es,
{
    let mut acc: usize = 0;
    let mut i: usize = 0;
    proof {
        assert(element_views(es@.take(0)) =~= Seq::<ElementView>::empty());
    }
    while i < es.len()
        invariant
            i <= es.len(),
            acc == capped(forest_size(element_views(es@.take(i as int)))),
        decreases es.len() - i,
    {
        proof {
            lemma_views_take(es@, i as int);
            let v = element_views(es@.take(i as int));
            assert(v.push(es@[i as int].view()).subrange(0, v.len() as int) =~= v);
        }
        let c = tree_element_count(&es[i]);
        acc = acc.saturating_add(c);
        i += 1;
    }
    proof {
        assert(es@.take(es.len() as int) =~= es@);
    }
    acc
}

fn tree_mcid_count(e: &TaggedStructureElement) -> (r: usize)
    ensures
        r == capped(tree_mcids(e.view())),
    decreases e,
{
    let c = forest_mcid_count(&e.children);
    e.mcids.len().saturating_add(c)
}

fn forest_mcid_count(es: &Vec<TaggedStructureElement>) -> (r: usize)
    ensures
        r == capped(forest_mcids(element_views(es@))),
    decreases es,
{
    let mut acc: usize = 0;
    let mut i: usize = 0;
    proof {
        assert(element_views(es@.take(0)) =~= Seq::<ElementView>::empty());
    }
    while i < es.len()
        invariant
            i <= es.len(),
            acc == capped(forest_mcids(element_views(es@.take(i as int)))),
        decreases es.len() - i,
    {
        proof {
            lemma_views_take(es@, i as int);
            let v = element_views(es@.take(i as int));
            assert(v.push(es@[i as int].view()).subrange(0, v.len() as int) =~= v);
        }
        let c = tree_mcid_count(&es[i]);
        acc = acc.saturating_add(c);
        i += 1;
    }
    proof {
        assert(es@.take(es.len() as int) =~= es@);
    }
    acc
}

/// The number of structure elements in the trees (the largest `usize`
/// where there are more).
pub fn tagged_element_count(elements: &Vec<TaggedStructureElement>) -> (r: usize)
    ensures
        r == capped(forest_size(element_views(elements@))),
{
    forest_element_count(elements)
}

/// The number of marked-content ids that the elements of the trees list
/// (the largest `usize` where there are more).
pub fn tagged_mcid_count(elements: &Vec<TaggedStructureElement>) -> (r: usize)
    ensures
        r == capped(forest_mcids(element_views(elements@))),
{
    forest_mcid_count(elements)
}

/// Some element of the tree under and including `e` has type `t`.
pub open spec fn tree_has_type(e: ElementView, t: Seq<char>) -> bool
    decreases e,
{
    e.structure_type == t || forest_has_type(e.children, t)
}

/// Some element of the trees of `s` has type `t`.
pub open spec fn forest_has_type(s: Seq<ElementView>, t: Seq<char>) -> bool
    decreases s,
{
    if s.len() == 0 {
        false
    } else {
        forest_has_type(s.subrange(0, s.len() - 1), t) || tree_has_type(s[s.len() - 1], t)
    }
}

/// The texts strictly increase in `str` order.
pub open spec fn texts_sorted(v: Seq<String>) -> bool {
    forall|i: int, j: int| 0 <= i < j < v.len() ==> code_lt(#[trigger] v[i]@, #[trigger] v[j]@)
}

/// `t` is among the texts.
pub open spec fn lists(v: Seq<String>, t: Seq<char>) -> bool {
    exists|i: int| 0 <= i < v.len() && (#[trigger] v[i])@ == t
}

fn insert_sorted(v: &mut Vec<String>, s: &String)
    requires
        texts_sorted(old(v)@),
    ensures
        texts_sorted(final(v)@),
        forall|t: Seq<char>| #[trigger] lists(final(v)@, t) <==> (lists(old(v)@, t) || t == s@),
{
    let mut p: usize = 0;
    while p < v.len() && code_less(&v[p], s)
        invariant
            p <= v@.len(),
            v@ == old(v)@,
            forall|q: int| 0 <= q < p ==> code_lt((#[trigger] v@[q])@, s@),
        decreases v@.len() - p,
    {
        p += 1;
    }
    let ghost before = v@;
    if p < v.len() && v[p] == *s {
        proof {
            assert forall|t: Seq<char>| lists(before, t) <==> (lists(before, t) || t == s@) by {
                if t == s@ {
                    assert(before[p as int]@ == t);
                }
            }
        }
        return;
    }
    proof {
        if p < before.len() {
            lemma_code_order(before[p as int]@, s@);
        }
    }
    v.insert(p, s.clone());
    proof {
        assert(v@ == before.insert(p as int, *s));
        assert forall|a: int, b: int| 0 <= a < b < v@.len() implies code_lt((#[trigger] v@[a])@, (#[trigger] v@[b])@) by {
            if b < p {
                assert(v@[a] == before[a] && v@[b] == before[b]);
            } else if b == p {
                assert(v@[a] == before[a]);
            } else if a == p {
                assert(v@[b] == before[b - 1]);
                if b - 1 > p {
                    lemma_code_trans(s@, before[p as int]@, before[b - 1]@);
                }
            } else if a < p {
                assert(v@[a] == before[a] && v@[b] == before[b - 1]);
            } else {
                assert(v@[a] == before[a - 1] && v@[b] == before[b - 1]);
            }
        }
        assert forall|t: Seq<char>| lists(v@, t) <==> (lists(before, t) || t == s@) by {
            if lists(v@, t) {
                let i = choose|i: int| 0 <= i < v@.len() && (#[trigger] v@[i])@ == t;
                if i < p {
                    assert(before[i]@ == t);
                } else if i > p {
                    assert(before[i - 1]@ == t);
                }
            }
            if lists(before, t) {
                let i = choose|i: int| 0 <= i < before.len() && (#[trigger] before[i])@ == t;
                if i < p {
                    assert(v@[i]@ == t);
                } else {
                    assert(v@[i + 1]@ == t);
                }
            }
            if t == s@ {
                assert(v@[p as int]@ == t);
            }
        }
    }
}

fn collect_tree_types(e: &TaggedStructureElement, v: &mut Vec<String>)
    requires
        texts_sorted(old(v)@),
    ensures
        texts_sorted(final(v)@),
        forall|t: Seq<char>| #[trigger] lists(final(v)@, t) <==> (lists(old(v)@, t) || tree_has_type(e.view(), t)),
    decreases e,
{
    let ghost start = v@;
    insert_sorted(v, &e.structure_type);
    collect_forest_types(&e.children, v);
}

fn collect_forest_types(es: &Vec<TaggedStructureElement>, v: &mut Vec<String>)
    requires
        texts_sorted(old(v)@),
    ensures
        texts_sorted(final(v)@),
        forall|t: Seq<char>| #[trigger] lists(final(v)@, t) <==> (lists(old(v)@, t) || forest_has_type(element_views(es@), t)),
    decreases es,
{
    let ghost start = v@;
    let mut i: usize = 0;
    proof {
        assert(element_views(es@.take(0)) =~= Seq::<ElementView>::empty());
    }
    while i < es.len()
        invariant
            i <= es.len(),
            texts_sorted(v@),
            forall|t: Seq<char>| #[trigger] lists(v@, t) <==> (lists(start, t) || forest_has_type(element_views(es@.take(i as int)), t)),
        decreases es.len() - i,
    {
        proof {
            lemma_views_take(es@, i as int);
            let w = element_views(es@.take(i as int));
            assert(w.push(es@[i as int].view()).subrange(0, w.len() as int) =~= w);
        }
        let ghost before = v@;
        collect_tree_types(&es[i], v);
        proof {
            let w = element_views(es@.take(i as int));
            let x = es@[i as int].view();
            assert(element_views(es@.take(i + 1)) == w.push(x));
            assert(w.push(x).subrange(0, w.len() as int) =~= w);
            assert(w.push(x)[w.len() as int] == x);
            assert forall|t: Seq<char>| #[trigger] forest_has_type(element_views(es@.take(i + 1)), t) == (
            forest_has_type(w, t) || tree_has_type(x, t)) by {
                assert(forest_has_type(w.push(x), t) == (forest_has_type(w, t) || tree_has_type(x, t)));
            }
            assert forall|t: Seq<char>| lists(v@, t) <==> (lists(start, t) || forest_has_type(
                element_views(es@.take(i + 1)),
                t,
            )) by {
                assert(lists(v@, t) <==> (lists(before, t) || tree_has_type(x, t)));
                assert(lists(before, t) <==> (lists(start, t) || forest_has_type(w, t)));
                assert(forest_has_type(element_views(es@.take(i + 1)), t) == (forest_has_type(w, t) || tree_has_type(x, t)));
            }
        }
        i += 1;
    }
    proof {
        assert(es@.take(es.len() as int) =~= es@);
    }
}

/// The structure types that the trees use, each once, in `str` order.
pub fn tagged_structure_types(elements: &Vec<TaggedStructureElement>) -> (r: Vec<String>)
    ensures
        texts_sorted(r@),
        forall|t: Seq<char>| #[trigger] lists(r@, t) <==> forest_has_type(element_views(elements@), t),
{
    let mut v: Vec<String> = Vec::new();
    collect_forest_types(elements, &mut v);
    v
}

/// What a report says of a document's tagged structure.
#[derive(Debug, Clone, PartialEq, Eq)]
pub struct TaggedStructureReport {
    pub detected: bool,
    pub root_object: Option<String>,
    pub element_count: usize,
    pub mcid_count: usize,
    pub parent_tree_entries: usize,
    pub structure_types: Vec<String>,
    pub diagnostics: Vec<String>,
}

/// An object reference written as `number generation R`.
pub open spec fn reference_text(id: ObjectId) -> Seq<char> {
    decimal_chars(id.number as nat) + seq![' '] + decimal_chars(id.generation as nat) + " R"@
}

pub fn reference_string(id: ObjectId) -> (r: String)
    ensures
        r@ == reference_text(id),
{
    proof {
        reveal_strlit(" ");
    }
    let mut s = u64_to_decimal(id.number as u64);
    s.append(" ");
    s.append(u64_to_decimal(id.generation as u64).as_str());
    s.append(" R");
    s
}

pub open spec fn codes_of(d: Seq<Diagnostic>) -> Seq<Seq<char>> {
    d.map_values(|x: Diagnostic| x.code@)
}

/// The report of a tagged structure: whether a root was found and its
/// reference, the numbers of elements, marked-content ids and parent-tree
/// entries, the structure types used, and the codes of its diagnostics.
pub fn tagged_structure_report(structure: &TaggedStructure) -> (r: TaggedStructureReport)
    ensures
        r.detected == (structure.root_object_id is Some),
        match structure.root_object_id {
            Some(id) => r.root_object matches Some(t) && t@ == reference_text(id),
            None => r.root_object is None,
        },
        r.element_count == capped(forest_size(element_views(structure.roots@))),
        r.mcid_count == capped(forest_mcids(element_views(structure.roots@))),
        r.parent_tree_entries == structure.parent_tree@.len(),
        texts_sorted(r.structure_types@),
        forall|t: Seq<char>| #[trigger] lists(r.structure_types@, t) <==> forest_has_type(element_views(structure.roots@), t),
        strs(r.diagnostics@) == codes_of(structure.diagnostics@),
{
    let root_object = match structure.root_object_id {
        Some(id) => Some(reference_string(id)),
        None => None,
    };
    let mut codes: Vec<String> = Vec::new();
    let mut i: usize = 0;
    while i < structure.diagnostics.len()
        invariant
            i <= structure.diagnostics@.len(),
            strs(codes@) == codes_of(structure.diagnostics@.take(i as int)),
        decreases structure.diagnostics@.len() - i,
    {
        let code = structure.diagnostics[i].code.clone();
        let ghost before = codes@;
        codes.push(code);
        proof {
            assert(strs(codes@) =~= strs(before).push(code@));
            assert(codes_of(structure.diagnostics@.take(i + 1)) =~= codes_of(structure.diagnostics@.take(i as int)).push(
                structure.diagnostics@[i as int].code@,
            ));
        }
        i += 1;
    }
    proof {
        assert(structure.diagnostics@.take(structure.diagnostics@.len() as int) =~= structure.diagnostics@);
    }
    TaggedStructureReport {
        detected: structure.root_object_id.is_some(),
        root_object,
        element_count: tagged_element_count(&structure.roots),
        mcid_count: tagged_mcid_count(&structure.roots),
        parent_tree_entries: structure.parent_tree.len(),
        structure_types: tagged_structure_types(&structure.roots),
        diagnostics: codes,
    }
}

/// What a report says of a document's incremental updates.
#[derive(Debug, Clone, PartialEq, Eq)]
pub struct IncrementalUpdateReport {
    pub detected: bool,
    pub revision_count: usize,
    pub selected_startxref_offset: Option<usize>,
    pub prior_startxref_offsets: Vec<usize>,
    pub trailer_prev_offsets: Vec<usize>,
}

fn copy_offsets(v: &Vec<usize>) -> (r: Vec<usize>)
    ensures
        r@ == v@,
{
    let mut out: Vec<usize> = Vec::new();
    let mut i: usize = 0;
    while i < v.len()
        invariant
            i <= v.len(),
            out@ == v@.take(i as int),
        decreases v.len() - i,
    {
        out.push(v[i]);
        proof {
            assert(v@.take(i + 1) =~= v@.take(i as int).push(v@[i as int]));
        }
        i += 1;
    }
    proof {
        assert(v@.take(v.len() as int) =~= v@);
    }
    out
}

/// The report of a document's incremental updates: those found, or a
/// single revision.
pub fn incremental_update_report(info: Option<&IncrementalUpdateInfo>) -> (r: IncrementalUpdateReport)
    ensures
        match info {
            Some(i) => r.detected && r.revision_count == i.revision_count && r.selected_startxref_offset
                == i.selected_startxref_offset && r.prior_startxref_offsets@ == i.prior_startxref_offsets@
                && r.trailer_prev_offsets@ == i.trailer_prev_offsets@,
            None => !r.detected && r.revision_count == 1 && r.selected_startxref_offset is None
                && r.prior_startxref_offsets@.len() == 0 && r.trailer_prev_offsets@.len() == 0,
        },
{
    match info {
        Some(i) => IncrementalUpdateReport {
            detected: true,
            revision_count: i.revision_count,
            selected_startxref_offset: i.selected_startxref_offset,
            prior_startxref_offsets: copy_offsets(&i.prior_startxref_offsets),
            trailer_prev_offsets: copy_offsets(&i.trailer_prev_offsets),
        },
        None => IncrementalUpdateReport {
            detected: false,
            revision_count: 1,
            selected_startxref_offset: None,
            prior_startxref_offsets: Vec::new(),
            trailer_prev_offsets: Vec::new(),
        },
    }
}

/// The number of composite (CID or Type0) fonts without a ToUnicode map.
pub open spec fn missing_tounicode(fv: Seq<FontView>) -> nat
    decreases fv.len(),
{
    if fv.len() == 0 {
        0
    } else {
        missing_tounicode(fv.drop_last()) + if cid_or_type0(fv.last()) && fv.last().to_unicode is None {
            1nat
        } else {
            0nat
        }
    }
}

/// The warning for `n` composite fonts without a ToUnicode map, where there
/// are any.
pub open spec fn font_part(n: nat) -> Seq<DiagView> {
    if n > 0 {
        seq![
            plain_diag(
                DiagnosticSeverity::Warning,
                "MISSING_TOUNICODE_CID_FONT"@,
                decimal_chars(n) + " CID/Type0 font objects have no ToUnicode map; extraction falls back to literal bytes with lower confidence"@,
            ),
        ]
    } else {
        Seq::empty()
    }
}

/// Warns when composite fonts have no ToUnicode map.
pub fn append_font_diagnostics(font_resources: &FontResourceSet, diagnostics: &mut Vec<Diagnostic>)
    requires
        font_resources.fonts.wf(),
    ensures
        diag_views(final(diagnostics)@) == diag_views(old(diagnostics)@) + font_part(
            missing_tounicode(font_resources.fonts.fonts_view()),
        ),
{
    let fonts = font_resources.fonts.fonts();
    let ghost fv = font_views(fonts@);
    let mut n: usize = 0;
    let mut i: usize = 0;
    while i < fonts.len()
        invariant
            i <= fonts.len(),
            fv == font_views(fonts@),
            n == missing_tounicode(fv.take(i as int)),
            n <= i,
        decreases fonts.len() - i,
    {
        proof {
            assert(fv.take(i + 1).drop_last() =~= fv.take(i as int));
            assert(fv.take(i + 1).last() == fonts@[i as int].view());
        }
        if fonts[i].is_cid_or_type0() && fonts[i].to_unicode.is_none() {
            n += 1;
        }
        i += 1;
    }
    proof {
        assert(fv.take(fonts.len() as int) =~= fv);
    }
    let ghost before = diag_views(diagnostics@);
    if n > 0 {
        let mut m = usize_to_string(n);
        m.append(" CID/Type0 font objects have no ToUnicode map; extraction falls back to literal bytes with lower confidence");
        let d = Diagnostic::warning("MISSING_TOUNICODE_CID_FONT", m.as_str());
        diagnostics.push(d);
        proof {
            assert(diag_views(diagnostics@) =~= before + font_part(n as nat));
        }
    } else {
        proof {
            assert(diag_views(diagnostics@) =~= before + font_part(n as nat));
        }
    }
}

/// The number of `/MCID` markers in the streams of `objs`.
pub open spec fn mcid_total(objs: Seq<PdfObject>) -> nat
    decreases objs.len(),
{
    if objs.len() == 0 {
        0
    } else {
        mcid_total(objs.drop_last()) + match objs.last().stream {
            Some(s) => count_from(s.bytes@, 0, encode_utf8("/MCID"@)),
            None => 0,
        }
    }
}

/// The notice of a tagged structure tree, where the document has one.
pub open spec fn structure_part(tv: TaggedView) -> Seq<DiagView> {
    if tv.root_object_id is Some {
        seq![
            plain_diag(
                DiagnosticSeverity::Info,
                "TAGGED_PDF_STRUCTURE_DETECTED"@,
                "parsed tagged PDF structure with "@ + decimal_chars(capped(forest_size(tv.roots)) as nat) + " elements and "@
                    + decimal_chars(capped(forest_mcids(tv.roots)) as nat)
                    + " MCID references; untagged layout heuristics remain the fallback when MCID mapping is incomplete"@,
            ),
        ]
    } else {
        Seq::empty()
    }
}

/// The notice of `n` marked-content ids in the content streams, where
/// there are any.
pub open spec fn mcid_part(n: nat) -> Seq<DiagView> {
    if n > 0 {
        seq![
            plain_diag(
                DiagnosticSeverity::Info,
                "TAGGED_MCID_DETECTED"@,
                "detected "@ + decimal_chars(n) + " marked-content IDs available for semantic node mapping"@,
            ),
        ]
    } else {
        Seq::empty()
    }
}

/// The tagged structure of `objs` as read with the default limits.
pub open spec fn default_tagged(objs: Seq<PdfObject>) -> TaggedView {
    tagged_spec(records(objs), ResourceLimits::default_spec())
}

fn mcid_marker_count(document: &PdfDocument) -> (r: usize)
    ensures
        r == capped(mcid_total(document.objects@)),
{
    proof {
        reveal_strlit("/MCID");
        crate::utf8text::lemma_ascii_utf8("/MCID");
    }
    let objects = &document.objects;
    let mut n: usize = 0;
    let mut i: usize = 0;
    while i < objects.len()
        invariant
            i <= objects.len(),
            n == capped(mcid_total(objects@.take(i as int))),
            encode_utf8("/MCID"@).len() > 0,
        decreases objects.len() - i,
    {
        proof {
            assert(objects@.take(i + 1).drop_last() =~= objects@.take(i as int));
            assert(objects@.take(i + 1).last() == objects@[i as int]);
        }
        match &objects[i].stream {
            Some(stream) => {
                let c = keyword_count(stream.bytes.as_slice(), "/MCID".as_bytes());
                n = n.saturating_add(c);
            },
            None => {},
        }
        i += 1;
    }
    proof {
        assert(objects@.take(objects.len() as int) =~= objects@);
    }
    n
}

/// Notes a tagged structure tree and the marked-content ids of the content
/// streams, with the structure's own warnings in between.
pub fn append_tagged_pdf_diagnostics(document: &PdfDocument, diagnostics: &mut Vec<Diagnostic>)
    ensures
        exists|d: Seq<DiagView>|
            diags_agree(d, default_tagged(document.objects@).diagnostics) && diag_views(final(diagnostics)@) == diag_views(
                old(diagnostics)@,
            ) + structure_part(default_tagged(document.objects@)) + d + mcid_part(
                capped(mcid_total(document.objects@)) as nat,
            ),
{
    let config = ParseConfig { limits: default_resource_limits() };
    let structure = document.tagged_structure(config);
    let ghost tv = default_tagged(document.objects@);
    let ghost start = diag_views(diagnostics@);
    if structure.root_object_id.is_some() {
        let mut m = "parsed tagged PDF structure with ".to_owned();
        m.append(usize_to_string(tagged_element_count(&structure.roots)).as_str());
        m.append(" elements and ");
        m.append(usize_to_string(tagged_mcid_count(&structure.roots)).as_str());
        m.append(" MCID references; untagged layout heuristics remain the fallback when MCID mapping is incomplete");
        let d = Diagnostic::info("TAGGED_PDF_STRUCTURE_DETECTED", m.as_str());
        diagnostics.push(d);
    }
    proof {
        assert(diag_views(diagnostics@) =~= start + structure_part(tv));
    }
    let ghost middle = diag_views(diagnostics@);
    let mut k: usize = 0;
    while k < structure.diagnostics.len()
        invariant
            k <= structure.diagnostics@.len(),
            diag_views(diagnostics@) == middle + diag_views(structure.diagnostics@.take(k as int)),
        decreases structure.diagnostics@.len() - k,
    {
        let d = structure.diagnostics[k].duplicate();
        let ghost before = diag_views(diagnostics@);
        diagnostics.push(d);
        proof {
            assert(d == structure.diagnostics@[k as int]);
            assert(diag_views(diagnostics@) =~= before.push(d.view()));
            assert(diag_views(structure.diagnostics@.take(k + 1)) =~= diag_views(structure.diagnostics@.take(k as int)).push(d.view()));
        }
        k += 1;
    }
    proof {
        assert(structure.diagnostics@.take(structure.diagnostics@.len() as int) =~= structure.diagnostics@);
    }
    let ghost after_structure = diag_views(diagnostics@);
    let n = mcid_marker_count(document);
    if n > 0 {
        let mut m = "detected ".to_owned();
        m.append(usize_to_string(n).as_str());
        m.append(" marked-content IDs available for semantic node mapping");
        let d = Diagnostic::info("TAGGED_MCID_DETECTED", m.as_str());
        diagnostics.push(d);
    }
    proof {
        assert(diag_views(diagnostics@) =~= after_structure + mcid_part(n as nat));
        let d = diag_views(structure.diagnostics@);
        assert(diags_agree(d, tv.diagnostics));
        assert(diag_views(diagnostics@) =~= start + structure_part(tv) + d + mcid_part(n as nat));
    }
}

/// A warning when `present`.
pub open spec fn warn_if(present: bool, code: Seq<char>, message: Seq<char>) -> Seq<DiagView> {
    if present {
        seq![plain_diag(DiagnosticSeverity::Warning, code, message)]
    } else {
        Seq::empty()
    }
}

/// The tokens that mark annotations and links.
pub open spec fn annotation_tokens() -> Seq<Seq<char>> {
    seq!["/Annots"@, "/Subtype /Link"@, "/Annot"@]
}

/// The tokens that mark interactive forms.
pub open spec fn form_tokens() -> Seq<Seq<char>> {
    seq!["/AcroForm"@, "/Widget"@]
}

pub open spec fn has_any_token(objs: Seq<PdfObject>, tokens: Seq<Seq<char>>) -> bool {
    exists|k: int| 0 <= k < tokens.len() && has_token(objs, #[trigger] tokens[k])
}

/// The warnings for what the diff detects and does not compare: vector
/// graphics, images without a text layer, annotations and links, form
/// fields; then the font and tagged-structure notices.
pub fn append_unsupported_feature_diagnostics(
    document: &PdfDocument,
    font_resources: &FontResourceSet,
    has_no_text_runs: bool,
    has_vector_graphics: bool,
    diagnostics: &mut Vec<Diagnostic>,
)
    requires
        font_resources.fonts.wf(),
    ensures
        exists|d: Seq<DiagView>|
            diags_agree(d, default_tagged(document.objects@).diagnostics) && diag_views(final(diagnostics)@) == diag_views(
                old(diagnostics)@,
            ) + warn_if(
                has_vector_graphics,
                "UNSUPPORTED_VECTOR_GRAPHIC_DIFF"@,
                "native vector path comparison is not implemented"@,
            ) + warn_if(
                has_token(document.objects@, "/Subtype /Image"@) && has_no_text_runs,
                "MISSING_TEXT_LAYER"@,
                "no extractable text layer was found and OCR did not produce text"@,
            ) + warn_if(
                has_any_token(document.objects@, annotation_tokens()),
                "UNSUPPORTED_ANNOTATION_DIFF"@,
                "annotation and link target comparison is not implemented"@,
            ) + warn_if(
                has_any_token(document.objects@, form_tokens()),
                "UNSUPPORTED_FORM_FIELD_DIFF"@,
                "interactive form field comparison is not implemented"@,
            ) + font_part(missing_tounicode(font_resources.fonts.fonts_view())) + structure_part(
                default_tagged(document.objects@),
            ) + d + mcid_part(capped(mcid_total(document.objects@)) as nat),
{
    let ghost start = diag_views(diagnostics@);
    if has_vector_graphics {
        diagnostics.push(
            Diagnostic::warning("UNSUPPORTED_VECTOR_GRAPHIC_DIFF", "native vector path comparison is not implemented"),
        );
    }
    let ghost s1 = diag_views(diagnostics@);
    proof {
        assert(s1 =~= start + warn_if(
            has_vector_graphics,
            "UNSUPPORTED_VECTOR_GRAPHIC_DIFF"@,
            "native vector path comparison is not implemented"@,
        ));
    }
    if document_has_token(document, "/Subtype /Image") && has_no_text_runs {
        diagnostics.push(
            Diagnostic::warning(
                "MISSING_TEXT_LAYER",
                "no extractable text layer was found and OCR did not produce text",
            ),
        );
    }
    let ghost s2 = diag_views(diagnostics@);
    proof {
        assert(s2 =~= s1 + warn_if(
            has_token(document.objects@, "/Subtype /Image"@) && has_no_text_runs,
            "MISSING_TEXT_LAYER"@,
            "no extractable text layer was found and OCR did not produce text"@,
        ));
    }
    let annotation_words: [&str; 3] = ["/Annots", "/Subtype /Link", "/Annot"];
    proof {
        assert(annotation_words@.map_values(|t: &str| t@) =~= annotation_tokens());
    }
    let annotated = document_has_any_token(document, &annotation_words);
    proof {
        assert(annotated == has_any_token(document.objects@, annotation_tokens())) by {
            if annotated {
                let k = choose|k: int| 0 <= k < annotation_words@.len() && has_token(document.objects@, #[trigger] annotation_words@[k]@);
                assert(annotation_tokens()[k] == annotation_words@[k]@);
            }
            if has_any_token(document.objects@, annotation_tokens()) {
                let k = choose|k: int| 0 <= k < annotation_tokens().len() && has_token(document.objects@, #[trigger] annotation_tokens()[k]);
                assert(annotation_tokens()[k] == annotation_words@[k]@);
            }
        }
    }
    if annotated {
        diagnostics.push(
            Diagnostic::warning("UNSUPPORTED_ANNOTATION_DIFF", "annotation and link target comparison is not implemented"),
        );
    }
    let ghost s3 = diag_views(diagnostics@);
    proof {
        assert(s3 =~= s2 + warn_if(
            has_any_token(document.objects@, annotation_tokens()),
            "UNSUPPORTED_ANNOTATION_DIFF"@,
            "annotation and link target comparison is not implemented"@,
        ));
    }
    let form_words: [&str; 2] = ["/AcroForm", "/Widget"];
    proof {
        assert(form_words@.map_values(|t: &str| t@) =~= form_tokens());
    }
    let forms = document_has_any_token(document, &form_words);
    proof {
        assert(forms == has_any_token(document.objects@, form_tokens())) by {
            if forms {
                let k = choose|k: int| 0 <= k < form_words@.len() && has_token(document.objects@, #[trigger] form_words@[k]@);
                assert(form_tokens()[k] == form_words@[k]@);
            }
            if has_any_token(document.objects@, form_tokens()) {
                let k = choose|k: int| 0 <= k < form_tokens().len() && has_token(document.objects@, #[trigger] form_tokens()[k]);
                assert(form_tokens()[k] == form_words@[k]@);
            }
        }
    }
    if forms {
        diagnostics.push(
            Diagnostic::warning("UNSUPPORTED_FORM_FIELD_DIFF", "interactive form field comparison is not implemented"),
        );
    }
    let ghost s4 = diag_views(diagnostics@);
    proof {
        assert(s4 =~= s3 + warn_if(
            has_any_token(document.objects@, form_tokens()),
            "UNSUPPORTED_FORM_FIELD_DIFF"@,
            "interactive form field comparison is not implemented"@,
        ));
    }
    append_font_diagnostics(font_resources, diagnostics);
    let ghost s5 = diag_views(diagnostics@);
    append_tagged_pdf_diagnostics(document, diagnostics);
    proof {
        let d = choose|d: Seq<DiagView>|
            diags_agree(d, default_tagged(document.objects@).diagnostics) && diag_views(diagnostics@) == s5
                + structure_part(default_tagged(document.objects@)) + d + mcid_part(
                capped(mcid_total(document.objects@)) as nat,
            );
        assert(diag_views(diagnostics@) =~= start + warn_if(
            has_vector_graphics,
            "UNSUPPORTED_VECTOR_GRAPHIC_DIFF"@,
            "native vector path comparison is not implemented"@,
        ) + warn_if(
            has_token(document.objects@, "/Subtype /Image"@) && has_no_text_runs,
            "MISSING_TEXT_LAYER"@,
            "no extractable text layer was found and OCR did not produce text"@,
        ) + warn_if(
            has_any_token(document.objects@, annotation_tokens()),
            "UNSUPPORTED_ANNOTATION_DIFF"@,
            "annotation and link target comparison is not implemented"@,
        ) + warn_if(
            has_any_token(document.objects@, form_tokens()),
            "UNSUPPORTED_FORM_FIELD_DIFF"@,
            "interactive form field comparison is not implemented"@,
        ) + font_part(missing_tounicode(font_resources.fonts.fonts_view())) + structure_part(
            default_tagged(document.objects@),
        ) + d + mcid_part(capped(mcid_total(document.objects@)) as nat));
    }
}

} // verus!
