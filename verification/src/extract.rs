//! Preparing content streams for text extraction: whether a page draws
//! vector graphics, the ToUnicode maps of a document's fonts, and the text
//! that those maps give to the strings a page shows.
use vstd::prelude::*;
use crate::cmap::{decode_from, decode_with_tounicode, tounicode_spec, try_parse_tounicode_cmap, CodeMap, CMapState};
use crate::content::{op_views, parse_content_stream_with_limits, program_spec, ContentOp, ContentProgram, OpShape};
use crate::document::{all_contents_spec, content_views, ContentView, PdfDocument};
use crate::pages::page_views;
use crate::fonts::{by_id, font_views, FontResourceSet, FontView};
use crate::scan::{records, ObjectRecord};
use crate::types::{diag_views, DiagView, Diagnostic, ObjectId, Provenance, ResourceLimits};

verus! {

/// The path-construction, painting, clipping and shading operators.
pub open spec fn vector_operators() -> Seq<Seq<char>> {
    seq![
        "m"@, "l"@, "c"@, "v"@, "y"@, "h"@, "re"@, "S"@, "s"@, "f"@, "F"@, "f*"@, "B"@, "B*"@, "b"@, "b*"@, "n"@, "W"@,
        "W*"@, "sh"@
    ]
}

fn same_text(a: &str, b: &str) -> (r: bool)
    ensures
        r == (a@ == b@),
{
    let x = a.to_owned();
    let y = b.to_owned();
    x == y
}

/// Whether `operator` constructs, paints or clips a path, or shades.
pub fn is_vector_graphics_operator(operator: &str) -> (r: bool)
    ensures
        r == vector_operators().contains(operator@),
{
    let names: [&str; 20] = [
        "m", "l", "c", "v", "y", "h", "re", "S", "s", "f", "F", "f*", "B", "B*", "b", "b*", "n", "W", "W*", "sh",
    ];
    let ghost spec_names = vector_operators();
    proof {
        assert(names@.map_values(|n: &str| n@) =~= spec_names);
    }
    let mut i: usize = 0;
    while i < 20
        invariant
            i <= 20,
            names@.len() == 20,
            names@.map_values(|n: &str| n@) == spec_names,
            spec_names == vector_operators(),
            forall|j: int| 0 <= j < i ==> spec_names[j] != operator@,
        decreases 20 - i,
    {
        proof {
            assert(spec_names[i as int] == names@[i as int]@);
        }
        if same_text(names[i], operator) {
            proof {
                assert(spec_names[i as int] == operator@);
            }
            return true;
        }
        i += 1;
    }
    false
}

/// The operation draws vector graphics.
pub open spec fn draws_vector(s: OpShape) -> bool {
    s matches OpShape::RecognizedNonText(o) && vector_operators().contains(o)
}

/// Whether some operation of the program draws vector graphics.
pub fn program_has_vector_graphics(program: &ContentProgram) -> (r: bool)
    ensures
        r == exists|k: int| 0 <= k < program.operations@.len() && draws_vector(#[trigger] program.operations@[k].shape()),
{
    let ops = &program.operations;
    let mut k: usize = 0;
    while k < ops.len()
        invariant
            k <= ops.len(),
            ops@ == program.operations@,
            forall|j: int| 0 <= j < k ==> !draws_vector(#[trigger] ops@[j].shape()),
        decreases ops.len() - k,
    {
        match &ops[k] {
            ContentOp::RecognizedNonText { operator, .. } => {
                if is_vector_graphics_operator(operator.as_str()) {
                    proof {
                        assert(draws_vector(program.operations@[k as int].shape()));
                    }
                    return true;
                }
            },
            _ => {},
        }
        k += 1;
    }
    false
}

/// The decoded bytes of the stream of the object `id` (its last
/// definition), where it has one.
pub open spec fn stream_of(objs: Seq<ObjectRecord>, id: ObjectId) -> Option<Seq<u8>> {
    match by_id(objs, id) {
        None => None,
        Some(i) => match objs[i].stream {
            None => None,
            Some(s) => Some(s.bytes),
        },
    }
}

/// The ToUnicode maps of the fonts `fv` (each font name with the codes its
/// CMap maps, fonts whose CMap maps nothing left out) and the warnings that
/// reading them gave; `None` when a CMap cuts a character in two where a
/// code is read.
pub open spec fn tounicode_scan(objs: Seq<ObjectRecord>, fv: Seq<FontView>) -> Option<(Seq<(Seq<char>, Map<Seq<u8>, Seq<char>>)>, Seq<DiagView>)>
    decreases fv.len(),
{
    if fv.len() == 0 {
        Some((Seq::empty(), Seq::empty()))
    } else {
        match tounicode_scan(objs, fv.drop_last()) {
            None => None,
            Some((maps, diags)) => {
                let f = fv.last();
                match f.to_unicode {
                    None => Some((maps, diags)),
                    Some(id) => match stream_of(objs, id) {
                        None => Some((maps, diags)),
                        Some(bytes) => match tounicode_spec(bytes) {
                            None => None,
                            Some(st) => Some(
                                (
                                    if st.map.dom() == Set::<Seq<u8>>::empty() {
                                        maps
                                    } else {
                                        maps.push((f.resource_name, st.map))
                                    },
                                    diags + st.diags,
                                ),
                            ),
                        },
                    },
                }
            },
        }
    }
}

proof fn lemma_scan_stuck(objs: Seq<ObjectRecord>, fv: Seq<FontView>, i: int, j: int)
    requires
        0 <= i <= j <= fv.len(),
        tounicode_scan(objs, fv.take(i)) is None,
    ensures
        tounicode_scan(objs, fv.take(j)) is None,
    decreases j - i,
{
    if j > i {
        lemma_scan_stuck(objs, fv, i, j - 1);
        assert(fv.take(j).drop_last() =~= fv.take(j - 1));
    }
}

/// The ToUnicode map of each font that has one, by font name in name order,
/// and the warnings that reading them gave.
#[derive(Debug, Clone, PartialEq, Eq)]
pub struct ToUnicodeMaps {
    pub maps: Vec<(String, CodeMap)>,
    pub diagnostics: Vec<Diagnostic>,
}

pub open spec fn map_views(v: Seq<(String, CodeMap)>) -> Seq<(Seq<char>, Map<Seq<u8>, Seq<char>>)> {
    v.map_values(|e: (String, CodeMap)| (e.0@, e.1@))
}

impl ToUnicodeMaps {
    pub open spec fn wf(self) -> bool {
        forall|k: int| 0 <= k < self.maps@.len() ==> (#[trigger] self.maps@[k]).1.wf()
    }
}

/// Reads the ToUnicode maps of the fonts of a document as `tounicode_scan`
/// describes; `None` where a CMap cuts a character in two where a code is
/// read.
pub fn font_tounicode_maps(document: &PdfDocument, font_resources: &FontResourceSet) -> (r: Option<ToUnicodeMaps>)
    requires
        font_resources.fonts.wf(),
    ensures
        match tounicode_scan(records(document.objects@), font_resources.fonts.fonts_view()) {
            None => r is None,
            Some((maps, diags)) => r matches Some(m) && m.wf() && map_views(m.maps@) == maps && diag_views(
                m.diagnostics@,
            ) == diags,
        },
{
    let ghost objs = records(document.objects@);
    let fonts = font_resources.fonts.fonts();
    let ghost fv = font_views(fonts@);
    let mut maps: Vec<(String, CodeMap)> = Vec::new();
    let mut diagnostics: Vec<Diagnostic> = Vec::new();
    let mut i: usize = 0;
    proof {
        assert(fv.take(0) =~= Seq::<FontView>::empty());
        assert(map_views(maps@) =~= Seq::<(Seq<char>, Map<Seq<u8>, Seq<char>>)>::empty());
        assert(diag_views(diagnostics@) =~= Seq::<DiagView>::empty());
    }
    while i < fonts.len()
        invariant
            i <= fonts.len(),
            fv == font_views(fonts@),
            fv == font_resources.fonts.fonts_view(),
            objs == records(document.objects@),
            tounicode_scan(objs, fv.take(i as int)) == Some((map_views(maps@), diag_views(diagnostics@))),
            forall|k: int| 0 <= k < maps@.len() ==> (#[trigger] maps@[k]).1.wf(),
        decreases fonts.len() - i,
    {
        proof {
            assert(fv.take(i + 1).drop_last() =~= fv.take(i as int));
            assert(fv.take(i + 1).last() == fonts@[i as int].view());
        }
        let font = &fonts[i];
        if let Some(id) = font.to_unicode {
            if let Some(object) = crate::fonts::object_by_id(document, id) {
                if let Some(stream) = &object.stream {
                    proof {
                        assert(stream_of(objs, id) == Some(stream.bytes@));
                    }
                    match try_parse_tounicode_cmap(stream.bytes.as_slice()) {
                        None => {
                            proof {
                                assert(tounicode_scan(objs, fv.take(i + 1)) is None);
                                lemma_scan_stuck(objs, fv, i + 1, fv.len() as int);
                                assert(fv.take(fv.len() as int) =~= fv);
                            }
                            return None;
                        },
                        Some(cmap) => {
                            let ghost before_maps = map_views(maps@);
                            let ghost before_diags = diag_views(diagnostics@);
                            let mut k: usize = 0;
                            while k < cmap.diagnostics.len()
                                invariant
                                    k <= cmap.diagnostics@.len(),
                                    diag_views(diagnostics@) == before_diags + diag_views(cmap.diagnostics@.take(k as int)),
                                decreases cmap.diagnostics@.len() - k,
                            {
                                let d = cmap.diagnostics[k].duplicate();
                                let ghost b = diag_views(diagnostics@);
                                diagnostics.push(d);
                                proof {
                                    assert(diag_views(diagnostics@) =~= b.push(d.view()));
                                    assert(diag_views(cmap.diagnostics@.take(k + 1)) =~= diag_views(
                                        cmap.diagnostics@.take(k as int),
                                    ).push(d.view()));
                                }
                                k += 1;
                            }
                            proof {
                                assert(cmap.diagnostics@.take(cmap.diagnostics@.len() as int) =~= cmap.diagnostics@);
                            }
                            if !cmap.map.is_empty() {
                                let name = font.resource_name.clone();
                                maps.push((name, cmap.map));
                                proof {
                                    assert(map_views(maps@) =~= before_maps.push((name@, cmap.map@)));
                                }
                            }
                        },
                    }
                }
            }
        }
        i += 1;
    }
    proof {
        assert(fv.take(fonts.len() as int) =~= fv);
    }
    Some(ToUnicodeMaps { maps, diagnostics })
}

/// The map of the first entry named `name`.
pub open spec fn map_for(maps: Seq<(Seq<char>, Map<Seq<u8>, Seq<char>>)>, name: Seq<char>) -> Option<Map<Seq<u8>, Seq<char>>>
    decreases maps.len(),
{
    if maps.len() == 0 {
        None
    } else if maps[0].0 == name {
        Some(maps[0].1)
    } else {
        map_for(maps.drop_first(), name)
    }
}

/// The text that the map of the current font gives to the bytes a text
/// operation shows, where it decodes them.
pub open spec fn retext(s: OpShape, font: Option<Seq<char>>, maps: Seq<(Seq<char>, Map<Seq<u8>, Seq<char>>)>) -> Option<Seq<char>> {
    let raw = match s {
        OpShape::ShowText(_, r) => Some(r),
        OpShape::ShowAdjustedText(_, r, _) => Some(r),
        _ => None,
    };
    match (raw, font) {
        (Some(r), Some(f)) => match map_for(maps, f) {
            Some(m) => decode_from(r, m, 0),
            None => None,
        },
        _ => None,
    }
}

/// The operation with its shown text replaced by `t`.
pub open spec fn with_text(s: OpShape, t: Seq<char>) -> OpShape {
    match s {
        OpShape::ShowText(_, r) => OpShape::ShowText(t, r),
        OpShape::ShowAdjustedText(_, r, a) => OpShape::ShowAdjustedText(t, r, a),
        other => other,
    }
}

/// The current font after the operation.
pub open spec fn font_after(s: OpShape, font: Option<Seq<char>>) -> Option<Seq<char>> {
    match s {
        OpShape::SetFont(name, _) => Some(name),
        _ => font,
    }
}

/// The current font, the operations so far, and whether a map gave text.
pub struct ApplyState {
    pub font: Option<Seq<char>>,
    pub shapes: Seq<OpShape>,
    pub applied: bool,
}

/// The first `n` operations with the text that the current font's map
/// gives to what they show.
pub open spec fn apply_fold(shapes: Seq<OpShape>, maps: Seq<(Seq<char>, Map<Seq<u8>, Seq<char>>)>, n: int) -> ApplyState
    decreases n,
{
    if n <= 0 {
        ApplyState { font: None, shapes: Seq::empty(), applied: false }
    } else {
        let st = apply_fold(shapes, maps, n - 1);
        let s = shapes[n - 1];
        match retext(s, st.font, maps) {
            Some(t) => ApplyState { font: st.font, shapes: st.shapes.push(with_text(s, t)), applied: true },
            None => ApplyState { font: font_after(s, st.font), shapes: st.shapes.push(s), applied: st.applied },
        }
    }
}

pub open spec fn shapes_of(ops: Seq<ContentOp>) -> Seq<OpShape> {
    ops.map_values(|o: ContentOp| o.shape())
}

pub open spec fn sources_of(ops: Seq<ContentOp>) -> Seq<Provenance> {
    ops.map_values(|o: ContentOp| o.source())
}

/// Whether a ToUnicode map gave text, and the warnings reading the maps
/// gave.
#[derive(Debug, Clone, PartialEq, Eq)]
pub struct ToUnicodeApplyResult {
    pub applied: bool,
    pub diagnostics: Vec<Diagnostic>,
}

fn decode_for_font(font: &Option<String>, maps: &Vec<(String, CodeMap)>, raw: &Vec<u8>) -> (r: Option<String>)
    requires
        forall|k: int| 0 <= k < maps@.len() ==> (#[trigger] maps@[k]).1.wf(),
    ensures
        match font {
            Some(f) => match map_for(map_views(maps@), f@) {
                Some(m) => match decode_from(raw@, m, 0) {
                    Some(t) => r matches Some(s) && s@ == t,
                    None => r is None,
                },
                None => r is None,
            },
            None => r is None,
        },
{
    let f = match font {
        Some(f) => f,
        None => return None,
    };
    let mut i: usize = 0;
    proof {
        assert(map_views(maps@).skip(0) =~= map_views(maps@));
    }
    while i < maps.len()
        invariant
            i <= maps@.len(),
            *font == Some(*f),
            forall|k: int| 0 <= k < maps@.len() ==> (#[trigger] maps@[k]).1.wf(),
            map_for(map_views(maps@), f@) == map_for(map_views(maps@).skip(i as int), f@),
        decreases maps@.len() - i,
    {
        proof {
            assert(map_views(maps@).skip(i as int)[0] == (maps@[i as int].0@, maps@[i as int].1@));
            assert(map_views(maps@).skip(i as int).drop_first() =~= map_views(maps@).skip(i + 1));
        }
        if maps[i].0 == *f {
            proof {
                assert(maps@[i as int].0@ == f@);
                assert(map_for(map_views(maps@).skip(i as int), f@) == Some(maps@[i as int].1@));
                assert(*font == Some(*f));
            }
            return decode_with_tounicode(raw.as_slice(), &maps[i].1);
        }
        i += 1;
    }
    proof {
        assert(map_views(maps@).skip(i as int).len() == 0);
    }
    None
}

/// Gives each text operation of the program the text that the ToUnicode
/// map of its font gives, where the map decodes its bytes; `None` (the
/// program unchanged) where a CMap cuts a character in two where a code is
/// read.
pub fn apply_tounicode_maps(
    program: &mut ContentProgram,
    document: &PdfDocument,
    font_resources: &FontResourceSet,
) -> (r: Option<ToUnicodeApplyResult>)
    requires
        font_resources.fonts.wf(),
    ensures
        final(program).diagnostics@ == old(program).diagnostics@,
        match tounicode_scan(records(document.objects@), font_resources.fonts.fonts_view()) {
            None => r is None && final(program).operations@ == old(program).operations@,
            Some((maps, diags)) => r matches Some(res) && diag_views(res.diagnostics@) == diags && {
                let st = apply_fold(shapes_of(old(program).operations@), maps, old(program).operations@.len() as int);
                &&& shapes_of(final(program).operations@) == st.shapes
                &&& sources_of(final(program).operations@) == sources_of(old(program).operations@)
                &&& res.applied == st.applied
            },
        },
{
    let maps = match font_tounicode_maps(document, font_resources) {
        None => return None,
        Some(m) => m,
    };
    let ghost mv = map_views(maps.maps@);
    let ghost orig = program.operations@;
    let ghost shapes = shapes_of(orig);
    let mut ops: Vec<ContentOp> = Vec::new();
    std::mem::swap(&mut ops, &mut program.operations);
    let n = ops.len();
    let mut rev: Vec<ContentOp> = Vec::new();
    while ops.len() > 0
        invariant
            ops@.len() + rev@.len() == n,
            n == orig.len(),
            ops@ == orig.subrange(0, ops@.len() as int),
            forall|q: int| 0 <= q < rev@.len() ==> rev@[q] == orig[n - 1 - q],
        decreases ops.len(),
    {
        let t = ops.pop().unwrap();
        rev.push(t);
        proof {
            assert(ops@ =~= orig.subrange(0, ops@.len() as int));
        }
    }
    let mut out: Vec<ContentOp> = Vec::new();
    let mut font: Option<String> = None;
    let mut applied = false;
    let mut k: usize = 0;
    proof {
        assert(shapes_of(out@) =~= Seq::<OpShape>::empty());
    }
    while rev.len() > 0
        invariant
            k + rev@.len() == n,
            n == orig.len(),
            shapes == shapes_of(orig),
            mv == map_views(maps.maps@),
            maps.wf(),
            forall|q: int| 0 <= q < rev@.len() ==> rev@[q] == orig[n - 1 - q],
            apply_fold(shapes, mv, k as int) == (ApplyState {
                font: match font {
                    Some(f) => Some(f@),
                    None => None,
                },
                shapes: shapes_of(out@),
                applied,
            }),
            sources_of(out@) == sources_of(orig.take(k as int)),
        decreases rev.len(),
    {
        let op = rev.pop().unwrap();
        proof {
            assert(op == orig[k as int]);
            assert(shapes[k as int] == op.shape());
        }
        let ghost before_shapes = shapes_of(out@);
        let ghost before_sources = sources_of(out@);
        let new_op = match op {
            ContentOp::SetFont { name, size, source } => {
                font = Some(name.clone());
                ContentOp::SetFont { name, size, source }
            },
            ContentOp::ShowText { text, raw_bytes, source } => {
                match decode_for_font(&font, &maps.maps, &raw_bytes) {
                    Some(t) => {
                        applied = true;
                        ContentOp::ShowText { text: t, raw_bytes, source }
                    },
                    None => ContentOp::ShowText { text, raw_bytes, source },
                }
            },
            ContentOp::ShowAdjustedText { text, raw_bytes, adjustments, source } => {
                match decode_for_font(&font, &maps.maps, &raw_bytes) {
                    Some(t) => {
                        applied = true;
                        ContentOp::ShowAdjustedText { text: t, raw_bytes, adjustments, source }
                    },
                    None => ContentOp::ShowAdjustedText { text, raw_bytes, adjustments, source },
                }
            },
            other => other,
        };
        out.push(new_op);
        proof {
            assert(shapes_of(out@) =~= before_shapes.push(new_op.shape()));
            assert(sources_of(out@) =~= before_sources.push(new_op.source()));
            assert(orig.take(k + 1) =~= orig.take(k as int).push(orig[k as int]));
            assert(sources_of(orig.take(k + 1)) =~= sources_of(orig.take(k as int)).push(orig[k as int].source()));
        }
        k += 1;
    }
    proof {
        assert(orig.take(n as int) =~= orig);
    }
    program.operations = out;
    Some(ToUnicodeApplyResult { applied, diagnostics: maps.diagnostics })
}

/// The operations and diagnostics of one page's content streams.
pub type PageProgramView = (Seq<(OpShape, Provenance)>, Seq<DiagView>);

/// The position of the first page entry for `page`.
pub open spec fn page_slot(acc: Seq<(usize, PageProgramView)>, page: usize) -> Option<int>
    decreases acc.len(),
{
    if acc.len() == 0 {
        None
    } else {
        match page_slot(acc.drop_last(), page) {
            Some(j) => Some(j),
            None => if acc.last().0 == page {
                Some(acc.len() - 1)
            } else {
                None
            },
        }
    }
}

/// The programs of the first `n` content streams, one entry per page in
/// the order pages first appear: a page's streams are read one after
/// another and their operations and diagnostics joined.
pub open spec fn merged_programs(cs: Seq<ContentView>, limits: ResourceLimits, n: int) -> Seq<(usize, PageProgramView)>
    decreases n,
{
    if n <= 0 {
        Seq::empty()
    } else {
        let acc = merged_programs(cs, limits, n - 1);
        let c = cs[n - 1];
        let p = program_spec(c.bytes, c.page_index, Some(c.stream_object_id), limits);
        match page_slot(acc, c.page_index) {
            Some(j) => acc.update(j, (c.page_index, (acc[j].1.0 + p.0, acc[j].1.1 + p.1))),
            None => acc.push((c.page_index, p)),
        }
    }
}

pub open spec fn page_program_views(v: Seq<(usize, ContentProgram)>) -> Seq<(usize, PageProgramView)> {
    v.map_values(|e: (usize, ContentProgram)| (e.0, (op_views(e.1.operations@), diag_views(e.1.diagnostics@))))
}

fn find_page(programs: &Vec<(usize, ContentProgram)>, page: usize) -> (r: Option<usize>)
    ensures
        match r {
            Some(x) => page_slot(page_program_views(programs@), page) == Some(x as int),
            None => page_slot(page_program_views(programs@), page) is None,
        },
{
    let ghost v = page_program_views(programs@);
    let mut i: usize = 0;
    while i < programs.len()
        invariant
            i <= programs@.len(),
            v == page_program_views(programs@),
            page_slot(v.take(i as int), page) is None,
        decreases programs@.len() - i,
    {
        proof {
            assert(v.take(i + 1).drop_last() =~= v.take(i as int));
            assert(v.take(i + 1).last() == v[i as int]);
        }
        if programs[i].0 == page {
            proof {
                lemma_slot_prefix(v, i as int + 1);
            }
            return Some(i);
        }
        i += 1;
    }
    proof {
        assert(v.take(programs@.len() as int) =~= v);
    }
    None
}

proof fn lemma_slot_bounds(v: Seq<(usize, PageProgramView)>, page: usize)
    ensures
        page_slot(v, page) matches Some(j) ==> 0 <= j < v.len() && v[j].0 == page,
    decreases v.len(),
{
    if v.len() > 0 {
        lemma_slot_bounds(v.drop_last(), page);
    }
}

proof fn lemma_slot_prefix(v: Seq<(usize, PageProgramView)>, k: int)
    requires
        0 < k <= v.len(),
        page_slot(v.take(k), v[k - 1].0) is Some,
    ensures
        page_slot(v, v[k - 1].0) == page_slot(v.take(k), v[k - 1].0),
    decreases v.len() - k,
{
    if k < v.len() {
        lemma_slot_prefix_grow(v, k, v[k - 1].0);
    } else {
        assert(v.take(k) =~= v);
    }
}

proof fn lemma_slot_prefix_grow(v: Seq<(usize, PageProgramView)>, k: int, page: usize)
    requires
        0 < k <= v.len(),
        page_slot(v.take(k), page) is Some,
    ensures
        page_slot(v, page) == page_slot(v.take(k), page),
    decreases v.len() - k,
{
    if k < v.len() {
        assert(v.take(k + 1).drop_last() =~= v.take(k));
        lemma_slot_prefix_grow(v, k + 1, page);
    } else {
        assert(v.take(k) =~= v);
    }
}

/// The program of each page with content: its content streams read in
/// order with `limits`, joined per page, pages in the order they first
/// appear.
pub fn page_programs(document: &PdfDocument, limits: ResourceLimits) -> (r: Vec<(usize, ContentProgram)>)
    ensures
        page_program_views(r@) == merged_programs(
            all_contents_spec(records(document.objects@), page_views(document.pages@), document.pages@.len() as int),
            limits,
            all_contents_spec(records(document.objects@), page_views(document.pages@), document.pages@.len() as int).len() as int,
        ),
{
    let contents = document.page_contents();
    let ghost cs = content_views(contents@);
    let mut programs: Vec<(usize, ContentProgram)> = Vec::new();
    let mut i: usize = 0;
    proof {
        assert(page_program_views(programs@) =~= Seq::<(usize, PageProgramView)>::empty());
    }
    while i < contents.len()
        invariant
            i <= contents@.len(),
            cs == content_views(contents@),
            page_program_views(programs@) == merged_programs(cs, limits, i as int),
        decreases contents@.len() - i,
    {
        let content = &contents[i];
        proof {
            assert(cs[i as int] == content.view());
        }
        let mut program = parse_content_stream_with_limits(
            content.bytes,
            content.page_index,
            Some(content.stream_object_id),
            limits,
        );
        let ghost before = page_program_views(programs@);
        let ghost p = (op_views(program.operations@), diag_views(program.diagnostics@));
        match find_page(&programs, content.page_index) {
            Some(j) => {
                proof {
                    lemma_slot_bounds(before, content.page_index);
                    assert(page_slot(before, content.page_index) == Some(j as int));
                    assert(before[j as int].0 == content.page_index);
                }
                let ghost old_programs = programs@;
                let mut entry = programs.remove(j);
                let ghost removed = programs@;
                let ghost e0 = (op_views(entry.1.operations@), diag_views(entry.1.diagnostics@));
                proof {
                    assert(entry == old_programs[j as int]);
                    assert(before[j as int] == (entry.0, e0));
                    assert(entry.0 == content.page_index);
                }
                entry.1.operations.append(&mut program.operations);
                entry.1.diagnostics.append(&mut program.diagnostics);
                proof {
                    assert(op_views(entry.1.operations@) =~= e0.0 + p.0);
                    assert(diag_views(entry.1.diagnostics@) =~= e0.1 + p.1);
                }
                let ghost entry_view = (entry.0, (op_views(entry.1.operations@), diag_views(entry.1.diagnostics@)));
                programs.insert(j, entry);
                proof {
                    assert(removed == old_programs.remove(j as int));
                    assert(programs@ == removed.insert(j as int, entry));
                    assert(entry_view == (content.page_index, (e0.0 + p.0, e0.1 + p.1)));
                    let target = before.update(j as int, entry_view);
                    assert forall|k: int| 0 <= k < programs@.len() implies page_program_views(programs@)[k] == target[k] by {
                        if k < j {
                            assert(programs@[k] == old_programs[k]);
                        } else if k > j {
                            assert(programs@[k] == old_programs[k]);
                        }
                    }
                    assert(page_program_views(programs@) =~= target);
                }
            },
            None => {
                programs.push((content.page_index, program));
                proof {
                    assert(page_program_views(programs@) =~= before.push((content.page_index, p)));
                }
            },
        }
        i += 1;
    }
    programs
}

/// The diagnostics of text extraction that are kept: all of them, but for
/// `MISSING_TOUNICODE` warnings where a ToUnicode map gave text.
pub open spec fn kept_diagnostics(d: Seq<DiagView>, applied: bool) -> Seq<DiagView>
    decreases d.len(),
{
    if d.len() == 0 {
        Seq::empty()
    } else {
        let rest = kept_diagnostics(d.drop_last(), applied);
        if applied && d.last().code == "MISSING_TOUNICODE"@ {
            rest
        } else {
            rest.push(d.last())
        }
    }
}

/// Drops the `MISSING_TOUNICODE` warnings of text extraction where a
/// ToUnicode map gave text.
pub fn retain_extraction_diagnostics(diagnostics: Vec<Diagnostic>, applied_tounicode: bool) -> (r: Vec<Diagnostic>)
    ensures
        diag_views(r@) == kept_diagnostics(diag_views(diagnostics@), applied_tounicode),
{
    let ghost dv = diag_views(diagnostics@);
    let mut out: Vec<Diagnostic> = Vec::new();
    let mut i: usize = 0;
    proof {
        assert(dv.take(0) =~= Seq::<DiagView>::empty());
    }
    while i < diagnostics.len()
        invariant
            i <= diagnostics@.len(),
            dv == diag_views(diagnostics@),
            diag_views(out@) == kept_diagnostics(dv.take(i as int), applied_tounicode),
        decreases diagnostics@.len() - i,
    {
        proof {
            assert(dv.take(i + 1).drop_last() =~= dv.take(i as int));
            assert(dv.take(i + 1).last() == diagnostics@[i as int].view());
        }
        let d = diagnostics[i].duplicate();
        let missing = same_text(d.code.as_str(), "MISSING_TOUNICODE");
        if !(applied_tounicode && missing) {
            let ghost before = diag_views(out@);
            out.push(d);
            proof {
                assert(diag_views(out@) =~= before.push(d.view()));
            }
        }
        i += 1;
    }
    proof {
        assert(dv.take(diagnostics@.len() as int) =~= dv);
    }
    out
}

} // verus!
