//! Pages: the catalog's page tree walked in order with inherited
//! attributes, or, without a usable tree, the `/Type /Page` objects found.
use vstd::prelude::*;
use vstd::utf8::encode_utf8;
use crate::types::{ObjectId, ParseConfig, ResourceLimits, PdfDiffError, Diagnostic, DiagnosticSeverity,
    is_limit_error, limit_error};
use crate::primitive::{PdfPrimitive, PrimitiveView, dict_lookup, dictionary_value, primitive_spec,
    parse_primitive, deep_seq, lemma_deep_seq_index, lemma_deep_seq_len, has_name, dictionary_has_name};
use crate::scan::{PdfObject, ObjectRecord, records};
use crate::store::id_after;
use crate::bytes::slice_range;
use crate::fmt::{decimal_chars, usize_to_string};
use crate::utf8text::utf8;
use crate::scan::ObjectRecord as Record;

verus! {

/// A number of a page box, kept as written: an integer or a real token.
#[derive(Debug, Clone, PartialEq, Eq)]
pub enum PdfNumber {
    Integer(i64),
    Real(Vec<u8>),
}

pub enum NumberView {
    Integer(i64),
    Real(Seq<u8>),
}

impl PdfNumber {
    pub open spec fn value(self) -> NumberView {
        match self {
            PdfNumber::Integer(i) => NumberView::Integer(i),
            PdfNumber::Real(t) => NumberView::Real(t@),
        }
    }

    pub fn copy(&self) -> (r: Self)
        ensures
            r.value() == self.value(),
    {
        match self {
            PdfNumber::Integer(i) => PdfNumber::Integer(*i),
            PdfNumber::Real(t) => {
                let c = slice_range(t.as_slice(), 0, t.len());
                assert(c@ =~= t@);
                PdfNumber::Real(c)
            },
        }
    }
}

/// A page box `[x0 y0 x1 y1]`.
#[derive(Debug, Clone, PartialEq, Eq)]
pub struct PdfRect {
    pub x0: PdfNumber,
    pub y0: PdfNumber,
    pub x1: PdfNumber,
    pub y1: PdfNumber,
}

pub struct RectView {
    pub x0: NumberView,
    pub y0: NumberView,
    pub x1: NumberView,
    pub y1: NumberView,
}

impl PdfRect {
    pub open spec fn view(self) -> RectView {
        RectView { x0: self.x0.value(), y0: self.y0.value(), x1: self.x1.value(), y1: self.y1.value() }
    }

    pub fn copy(&self) -> (r: Self)
        ensures
            r.view() == self.view(),
    {
        PdfRect { x0: self.x0.copy(), y0: self.y0.copy(), x1: self.x1.copy(), y1: self.y1.copy() }
    }
}

pub open spec fn opt_rect(r: Option<PdfRect>) -> Option<RectView> {
    match r {
        Some(x) => Some(x.view()),
        None => None,
    }
}

fn copy_opt_rect(r: &Option<PdfRect>) -> (c: Option<PdfRect>)
    ensures
        opt_rect(c) == opt_rect(*r),
{
    match r {
        Some(x) => Some(x.copy()),
        None => None,
    }
}

/// A page number that a box coordinate holds.
pub open spec fn number_of(p: PrimitiveView) -> Option<NumberView> {
    match p {
        PrimitiveView::Integer(i) => Some(NumberView::Integer(i)),
        PrimitiveView::Real(t) => Some(NumberView::Real(t)),
        _ => None,
    }
}

fn number_from_value(p: &PdfPrimitive) -> (r: Option<PdfNumber>)
    ensures
        match number_of(p.deep()) {
            Some(n) => r matches Some(x) && x.value() == n,
            None => r is None,
        },
{
    match p {
        PdfPrimitive::Integer(i) => Some(PdfNumber::Integer(*i)),
        PdfPrimitive::Real(t) => {
            let c = slice_range(t.as_slice(), 0, t.len());
            assert(c@ =~= t@);
            Some(PdfNumber::Real(c))
        },
        _ => None,
    }
}

/// A box: an array of exactly four numbers.
pub open spec fn rect_of(p: Option<PrimitiveView>) -> Option<RectView> {
    match p {
        Some(PrimitiveView::Array(items)) => if items.len() == 4 {
            match (number_of(items[0]), number_of(items[1]), number_of(items[2]), number_of(items[3])) {
                (Some(a), Some(b), Some(c), Some(d)) => Some(RectView { x0: a, y0: b, x1: c, y1: d }),
                _ => None,
            }
        } else {
            None
        },
        _ => None,
    }
}

fn rect_from_array(p: Option<&PdfPrimitive>) -> (r: Option<PdfRect>)
    ensures
        opt_rect(r) == rect_of(
            match p {
                Some(x) => Some(x.deep()),
                None => None,
            },
        ),
{
    let items = match p {
        Some(PdfPrimitive::Array(items)) => items,
        _ => return None,
    };
    proof {
        lemma_deep_seq_len(items@);
    }
    if items.len() != 4 {
        return None;
    }
    proof {
        lemma_deep_seq_index(items@, 0);
        lemma_deep_seq_index(items@, 1);
        lemma_deep_seq_index(items@, 2);
        lemma_deep_seq_index(items@, 3);
    }
    let x0 = number_from_value(&items[0]);
    let y0 = number_from_value(&items[1]);
    let x1 = number_from_value(&items[2]);
    let y1 = number_from_value(&items[3]);
    match (x0, y0, x1, y1) {
        (Some(a), Some(b), Some(c), Some(d)) => Some(PdfRect { x0: a, y0: b, x1: c, y1: d }),
        _ => None,
    }
}

pub open spec fn opt_view(p: Option<&PdfPrimitive>) -> Option<PrimitiveView> {
    match p {
        Some(x) => Some(x.deep()),
        None => None,
    }
}

/// An integer that fits in `i32`.
pub open spec fn integer_of(p: Option<PrimitiveView>) -> Option<i32> {
    match p {
        Some(PrimitiveView::Integer(v)) => if i32::MIN <= v <= i32::MAX {
            Some(v as i32)
        } else {
            None
        },
        _ => None,
    }
}

fn integer_from_value(p: Option<&PdfPrimitive>) -> (r: Option<i32>)
    ensures
        r == integer_of(opt_view(p)),
{
    match p {
        Some(PdfPrimitive::Integer(v)) => if *v >= -2147483648i64 && *v <= 2147483647i64 {
            Some(*v as i32)
        } else {
            None
        },
        _ => None,
    }
}

pub open spec fn reference_of(p: Option<PrimitiveView>) -> Option<ObjectId> {
    match p {
        Some(PrimitiveView::Reference(id)) => Some(id),
        _ => None,
    }
}

fn reference_from_value(p: Option<&PdfPrimitive>) -> (r: Option<ObjectId>)
    ensures
        r == reference_of(opt_view(p)),
{
    match p {
        Some(PdfPrimitive::Reference(id)) => Some(*id),
        _ => None,
    }
}

/// The references that `/Contents` names: one, or those of an array (other
/// entries skipped), in order.
pub open spec fn content_refs(p: Option<PrimitiveView>) -> Seq<ObjectId> {
    match p {
        Some(PrimitiveView::Reference(id)) => seq![id],
        Some(PrimitiveView::Array(items)) => refs_in(items),
        _ => Seq::empty(),
    }
}

/// The references among `items`, in order.
pub open spec fn refs_in(items: Seq<PrimitiveView>) -> Seq<ObjectId>
    decreases items.len(),
{
    if items.len() == 0 {
        Seq::empty()
    } else {
        let rest = refs_in(items.drop_last());
        match items.last() {
            PrimitiveView::Reference(id) => rest.push(id),
            _ => rest,
        }
    }
}

pub fn content_references_from_value(p: Option<&PdfPrimitive>) -> (r: Vec<ObjectId>)
    ensures
        r@ == content_refs(opt_view(p)),
{
    match p {
        Some(PdfPrimitive::Reference(id)) => {
            let mut v = Vec::new();
            v.push(*id);
            proof {
                assert(v@ =~= seq![*id]);
            }
            v
        },
        Some(PdfPrimitive::Array(items)) => {
            let ghost view = deep_seq(items@);
            proof {
                lemma_deep_seq_len(items@);
            }
            let mut out: Vec<ObjectId> = Vec::new();
            let mut i: usize = 0;
            while i < items.len()
                invariant
                    i <= items.len(),
                    view == deep_seq(items@),
                    view.len() == items.len(),
                    out@ == refs_in(view.take(i as int)),
                decreases items.len() - i,
            {
                proof {
                    lemma_deep_seq_index(items@, i as int);
                    assert(view.take(i + 1).drop_last() =~= view.take(i as int));
                }
                if let PdfPrimitive::Reference(id) = &items[i] {
                    out.push(*id);
                }
                i += 1;
            }
            proof {
                assert(view.take(items.len() as int) =~= view);
            }
            out
        },
        _ => Vec::new(),
    }
}

/// A page of the document, in reading order.
#[derive(Debug, Clone, PartialEq, Eq)]
pub struct PdfPage {
    pub page_index: usize,
    pub object_id: ObjectId,
    pub content_object_id: ObjectId,
    pub content_object_ids: Vec<ObjectId>,
    pub media_box: Option<PdfRect>,
    pub crop_box: Option<PdfRect>,
    pub rotation: i32,
    pub resources_object_id: Option<ObjectId>,
    pub has_resources: bool,
}

pub struct PageView {
    pub page_index: usize,
    pub object_id: ObjectId,
    pub content_object_id: ObjectId,
    pub content_object_ids: Seq<ObjectId>,
    pub media_box: Option<RectView>,
    pub crop_box: Option<RectView>,
    pub rotation: i32,
    pub resources_object_id: Option<ObjectId>,
    pub has_resources: bool,
}

impl PdfPage {
    pub open spec fn view(self) -> PageView {
        PageView {
            page_index: self.page_index,
            object_id: self.object_id,
            content_object_id: self.content_object_id,
            content_object_ids: self.content_object_ids@,
            media_box: opt_rect(self.media_box),
            crop_box: opt_rect(self.crop_box),
            rotation: self.rotation,
            resources_object_id: self.resources_object_id,
            has_resources: self.has_resources,
        }
    }
}

pub open spec fn page_views(s: Seq<PdfPage>) -> Seq<PageView> {
    s.map_values(|p: PdfPage| p.view())
}

/// Attributes that page-tree nodes pass down to their pages.
pub struct InheritedPageAttributes {
    pub media_box: Option<PdfRect>,
    pub crop_box: Option<PdfRect>,
    pub rotation: Option<i32>,
    pub resources_object_id: Option<ObjectId>,
    pub has_resources: bool,
}

pub struct InheritedView {
    pub media_box: Option<RectView>,
    pub crop_box: Option<RectView>,
    pub rotation: Option<i32>,
    pub resources_object_id: Option<ObjectId>,
    pub has_resources: bool,
}

impl InheritedPageAttributes {
    pub open spec fn view(self) -> InheritedView {
        InheritedView {
            media_box: opt_rect(self.media_box),
            crop_box: opt_rect(self.crop_box),
            rotation: self.rotation,
            resources_object_id: self.resources_object_id,
            has_resources: self.has_resources,
        }
    }

    pub fn none() -> (r: Self)
        ensures
            r.view() == no_inherited(),
    {
        InheritedPageAttributes {
            media_box: None,
            crop_box: None,
            rotation: None,
            resources_object_id: None,
            has_resources: false,
        }
    }

    /// These attributes with those that `value` sets itself taking over.
    pub fn merge(&self, value: &PdfPrimitive) -> (r: Self)
        ensures
            r.view() == merge_spec(self.view(), value.deep()),
    {
        let media = rect_from_array(dictionary_value(value, "MediaBox".as_bytes()));
        let crop = rect_from_array(dictionary_value(value, "CropBox".as_bytes()));
        let rotation = integer_from_value(dictionary_value(value, "Rotate".as_bytes()));
        let resources = dictionary_value(value, "Resources".as_bytes());
        let resources_id = reference_from_value(resources);
        InheritedPageAttributes {
            media_box: if media.is_some() { media } else { copy_opt_rect(&self.media_box) },
            crop_box: if crop.is_some() { crop } else { copy_opt_rect(&self.crop_box) },
            rotation: if rotation.is_some() { rotation } else { self.rotation },
            resources_object_id: if resources_id.is_some() { resources_id } else { self.resources_object_id },
            has_resources: resources.is_some() || self.has_resources,
        }
    }

    pub fn copy(&self) -> (r: Self)
        ensures
            r.view() == self.view(),
    {
        InheritedPageAttributes {
            media_box: copy_opt_rect(&self.media_box),
            crop_box: copy_opt_rect(&self.crop_box),
            rotation: self.rotation,
            resources_object_id: self.resources_object_id,
            has_resources: self.has_resources,
        }
    }
}

pub open spec fn no_inherited() -> InheritedView {
    InheritedView { media_box: None, crop_box: None, rotation: None, resources_object_id: None, has_resources: false }
}

pub open spec fn or_else<T>(a: Option<T>, b: Option<T>) -> Option<T> {
    match a {
        Some(x) => Some(x),
        None => b,
    }
}

pub open spec fn merge_spec(inh: InheritedView, v: PrimitiveView) -> InheritedView {
    InheritedView {
        media_box: or_else(rect_of(dict_lookup(v, utf8("MediaBox"))), inh.media_box),
        crop_box: or_else(rect_of(dict_lookup(v, utf8("CropBox"))), inh.crop_box),
        rotation: or_else(integer_of(dict_lookup(v, utf8("Rotate"))), inh.rotation),
        resources_object_id: or_else(reference_of(dict_lookup(v, utf8("Resources"))), inh.resources_object_id),
        has_resources: dict_lookup(v, utf8("Resources")) is Some || inh.has_resources,
    }
}

/// The page that a `/Page` dictionary describes, or `None` when it names
/// no content stream.
pub open spec fn page_spec(id: ObjectId, v: PrimitiveView, inh: InheritedView, index: usize) -> Option<PageView> {
    let refs = content_refs(dict_lookup(v, utf8("Contents")));
    if refs.len() == 0 {
        None
    } else {
        Some(
            PageView {
                page_index: index,
                object_id: id,
                content_object_id: refs[0],
                content_object_ids: refs,
                media_box: inh.media_box,
                crop_box: or_else(inh.crop_box, inh.media_box),
                rotation: match inh.rotation {
                    Some(r) => r,
                    None => 0,
                },
                resources_object_id: inh.resources_object_id,
                has_resources: inh.has_resources,
            },
        )
    }
}

pub open spec fn missing_contents(id: ObjectId) -> crate::types::DiagView {
    crate::types::object_warning("MISSING_CONTENT_STREAM"@, "page does not reference /Contents"@, id)
}

/// Builds the page for a `/Page` dictionary, or records why there is none.
fn page_from_value(
    object_id: ObjectId,
    value: &PdfPrimitive,
    inherited: &InheritedPageAttributes,
    index: usize,
    diagnostics: &mut Vec<Diagnostic>,
) -> (r: Option<PdfPage>)
    ensures
        match page_spec(object_id, value.deep(), inherited.view(), index) {
            Some(p) => r matches Some(x) && x.view() == p && final(diagnostics)@ == old(diagnostics)@,
            None => r is None && crate::types::diag_views(final(diagnostics)@) == crate::types::diag_views(
                old(diagnostics)@,
            ).push(missing_contents(object_id)),
        },
{
    let refs = content_references_from_value(dictionary_value(value, "Contents".as_bytes()));
    if refs.len() == 0 {
        let ghost before = crate::types::diag_views(diagnostics@);
        let d = Diagnostic::warning("MISSING_CONTENT_STREAM", "page does not reference /Contents").with_object(
            object_id,
        );
        diagnostics.push(d);
        proof {
            assert(crate::types::diag_views(diagnostics@) =~= before.push(d.view()));
        }
        return None;
    }
    let first = refs[0];
    Some(PdfPage {
        page_index: index,
        object_id,
        content_object_id: first,
        content_object_ids: refs,
        media_box: copy_opt_rect(&inherited.media_box),
        crop_box: if inherited.crop_box.is_some() {
            copy_opt_rect(&inherited.crop_box)
        } else {
            copy_opt_rect(&inherited.media_box)
        },
        rotation: match inherited.rotation {
            Some(r) => r,
            None => 0,
        },
        resources_object_id: inherited.resources_object_id,
        has_resources: inherited.has_resources,
    })
}

/// Index of the entry with key `id`.
pub open spec fn find_key(vals: Seq<(ObjectId, PrimitiveView)>, id: ObjectId, from: int) -> Option<int>
    decreases vals.len() - from,
{
    if from < 0 || from >= vals.len() {
        None
    } else if vals[from].0 == id {
        Some(from)
    } else {
        find_key(vals, id, from + 1)
    }
}

/// First position whose key comes after `id`.
pub open spec fn key_position(vals: Seq<(ObjectId, PrimitiveView)>, id: ObjectId, from: int) -> int
    decreases vals.len() - from,
{
    if from < 0 || from >= vals.len() {
        vals.len() as int
    } else if id_after(vals[from].0, id) {
        from
    } else {
        key_position(vals, id, from + 1)
    }
}

proof fn lemma_find_key(vals: Seq<(ObjectId, PrimitiveView)>, id: ObjectId, from: int)
    requires
        0 <= from,
    ensures
        find_key(vals, id, from) matches Some(j) ==> from <= j < vals.len() && vals[j].0 == id,
    decreases vals.len() - from,
{
    if from < vals.len() && vals[from].0 != id {
        lemma_find_key(vals, id, from + 1);
    }
}

proof fn lemma_key_position(vals: Seq<(ObjectId, PrimitiveView)>, id: ObjectId, from: int)
    requires
        0 <= from <= vals.len(),
    ensures
        from <= key_position(vals, id, from) <= vals.len(),
    decreases vals.len() - from,
{
    if from < vals.len() && !id_after(vals[from].0, id) {
        lemma_key_position(vals, id, from + 1);
    }
}

/// A map from object ids to values kept ordered by id: a later value for
/// an id replaces the earlier one.
pub open spec fn values_insert(vals: Seq<(ObjectId, PrimitiveView)>, id: ObjectId, v: PrimitiveView) -> Seq<(ObjectId, PrimitiveView)> {
    match find_key(vals, id, 0) {
        Some(j) => vals.update(j, (id, v)),
        None => vals.insert(key_position(vals, id, 0), (id, v)),
    }
}

/// The parsed value of a document object's text (default limits).
pub open spec fn record_value(r: ObjectRecord) -> Option<PrimitiveView> {
    crate::scan::body_value(encode_utf8(r.body))
}

/// The values of the objects whose text parses, by id.
pub open spec fn values_of(rs: Seq<ObjectRecord>) -> Seq<(ObjectId, PrimitiveView)>
    decreases rs.len(),
{
    if rs.len() == 0 {
        Seq::empty()
    } else {
        let prev = values_of(rs.drop_last());
        match record_value(rs.last()) {
            Some(v) => values_insert(prev, rs.last().id, v),
            None => prev,
        }
    }
}

pub open spec fn value_views(v: Seq<(ObjectId, PdfPrimitive)>) -> Seq<(ObjectId, PrimitiveView)> {
    v.map_values(|e: (ObjectId, PdfPrimitive)| (e.0, e.1.deep()))
}

/// The value stored for `id`.
pub open spec fn lookup(vals: Seq<(ObjectId, PrimitiveView)>, id: ObjectId) -> Option<PrimitiveView> {
    match find_key(vals, id, 0) {
        Some(j) => Some(vals[j].1),
        None => None,
    }
}

fn find_value_index(values: &Vec<(ObjectId, PdfPrimitive)>, id: ObjectId) -> (r: Option<usize>)
    ensures
        r is Some <==> find_key(value_views(values@), id, 0) is Some,
        r matches Some(i) ==> i < values.len() && find_key(value_views(values@), id, 0) == Some(i as int),
{
    let ghost vals = value_views(values@);
    proof {
        lemma_find_key(vals, id, 0);
    }
    let mut i: usize = 0;
    while i < values.len()
        invariant
            i <= values.len(),
            vals == value_views(values@),
            find_key(vals, id, 0) == find_key(vals, id, i as int),
        decreases values.len() - i,
    {
        assert(vals[i as int].0 == values@[i as int].0);
        if values[i].0 == id {
            return Some(i);
        }
        i += 1;
    }
    None
}

/// The value stored for `id`.
pub fn lookup_value(values: &Vec<(ObjectId, PdfPrimitive)>, id: ObjectId) -> (r: Option<&PdfPrimitive>)
    ensures
        match lookup(value_views(values@), id) {
            Some(v) => r matches Some(x) && x.deep() == v,
            None => r is None,
        },
{
    match find_value_index(values, id) {
        Some(j) => {
            proof {
                lemma_find_key(value_views(values@), id, 0);
            }
            Some(&values[j].1)
        },
        None => None,
    }
}

/// Parses the text of every object; a later object with the same id
/// replaces an earlier one.
pub fn parsed_object_values(objects: &Vec<PdfObject>) -> (r: Vec<(ObjectId, PdfPrimitive)>)
    ensures
        value_views(r@) == values_of(records(objects@)),
{
    let ghost rs = records(objects@);
    let mut values: Vec<(ObjectId, PdfPrimitive)> = Vec::new();
    proof {
        assert(value_views(values@) =~= values_of(rs.take(0)));
    }
    let mut i: usize = 0;
    while i < objects.len()
        invariant
            i <= objects.len(),
            rs == records(objects@),
            value_views(values@) == values_of(rs.take(i as int)),
        decreases objects.len() - i,
    {
        proof {
            assert(rs.take(i + 1).drop_last() =~= rs.take(i as int));
            assert(rs.take(i + 1).last() == objects@[i as int].view());
        }
        let text = objects[i].body.as_str();
        let parsed = parse_primitive(text.as_bytes(), ParseConfig::default());
        if let Ok(parsed) = parsed {
            let id = objects[i].id;
            let ghost before = value_views(values@);
            match find_value_index(&values, id) {
                Some(j) => {
                    values.set(j, (id, parsed.value));
                    proof {
                        assert(value_views(values@) =~= before.update(j as int, (id, parsed.value.deep())));
                    }
                },
                None => {
                    let ghost pos_spec = key_position(before, id, 0);
                    proof {
                        lemma_key_position(before, id, 0);
                    }
                    let mut pos: usize = 0;
                    while pos < values.len() && !crate::store::id_is_after(values[pos].0, id)
                        invariant
                            pos <= values.len(),
                            before == value_views(values@),
                            key_position(before, id, 0) == key_position(before, id, pos as int),
                        decreases values.len() - pos,
                    {
                        assert(before[pos as int].0 == values@[pos as int].0);
                        pos += 1;
                    }
                    values.insert(pos, (id, parsed.value));
                    proof {
                        assert(value_views(values@) =~= before.insert(pos as int, (id, parsed.value.deep())));
                    }
                },
            }
        }
        i += 1;
    }
    proof {
        assert(rs.take(objects.len() as int) =~= rs);
    }
    values
}

/// The `/Pages` reference of the first catalog (in id order) that has one.
pub open spec fn catalog_pages(vals: Seq<(ObjectId, PrimitiveView)>, from: int) -> Option<ObjectId>
    decreases vals.len() - from,
{
    if from < 0 || from >= vals.len() {
        None
    } else if has_name(vals[from].1, utf8("Type"), utf8("Catalog")) && reference_of(
        dict_lookup(vals[from].1, utf8("Pages")),
    ) is Some {
        reference_of(dict_lookup(vals[from].1, utf8("Pages")))
    } else {
        catalog_pages(vals, from + 1)
    }
}

fn catalog_pages_root_id(values: &Vec<(ObjectId, PdfPrimitive)>) -> (r: Option<ObjectId>)
    ensures
        r == catalog_pages(value_views(values@), 0),
{
    let ghost vals = value_views(values@);
    let mut i: usize = 0;
    while i < values.len()
        invariant
            i <= values.len(),
            vals == value_views(values@),
            catalog_pages(vals, 0) == catalog_pages(vals, i as int),
        decreases values.len() - i,
    {
        assert(vals[i as int].1 == values@[i as int].1.deep());
        let v = &values[i].1;
        if dictionary_has_name(v, "Type".as_bytes(), "Catalog".as_bytes()) {
            if let Some(id) = reference_from_value(dictionary_value(v, "Pages".as_bytes())) {
                return Some(id);
            }
        }
        i += 1;
    }
    None
}

/// Diagnostics and pages gathered while walking the page tree.
pub struct WalkState {
    pub diags: Seq<crate::types::DiagView>,
    pub pages: Seq<PageView>,
}

pub open spec fn warn(st: WalkState, code: Seq<char>, message: Seq<char>, id: ObjectId) -> WalkState {
    WalkState { diags: st.diags.push(crate::types::object_warning(code, message, id)), pages: st.pages }
}

/// Adds the page a `/Page` node describes, or the diagnostic for one
/// without content.
pub open spec fn add_page(st: WalkState, id: ObjectId, v: PrimitiveView, inh: InheritedView) -> WalkState {
    match page_spec(id, v, inh, st.pages.len() as usize) {
        Some(p) => WalkState { diags: st.diags, pages: st.pages.push(p) },
        None => WalkState { diags: st.diags.push(missing_contents(id)), pages: st.pages },
    }
}

pub open spec fn page_limit_failure() -> crate::object::Failure {
    crate::object::Failure::Limit("RESOURCE_LIMIT_PAGE_COUNT"@)
}

/// Walks the page-tree node `id` with the ids on the current path in
/// `seen`.
pub open spec fn walk(
    vals: Seq<(ObjectId, PrimitiveView)>,
    id: ObjectId,
    inh: InheritedView,
    max_pages: int,
    seen: Seq<ObjectId>,
    st: WalkState,
) -> Result<WalkState, crate::object::Failure>
    decreases vals.len() + 1 - seen.len(), 0int, 0int,
{
    if seen.len() > vals.len() {
        Ok(st)
    } else if st.pages.len() > max_pages {
        Err(page_limit_failure())
    } else if seen.contains(id) {
        Ok(warn(st, "PAGE_TREE_CYCLE"@, "page tree cycle detected at object "@ + decimal_chars(id.number as nat), id))
    } else {
        match lookup(vals, id) {
            None => Ok(
                warn(st, "PAGE_TREE_OBJECT_MISSING"@, "page tree references missing object "@ + decimal_chars(
                    id.number as nat,
                ), id),
            ),
            Some(v) => {
                let inh2 = merge_spec(inh, v);
                if has_name(v, utf8("Type"), utf8("Pages")) {
                    match dict_lookup(v, utf8("Kids")) {
                        Some(PrimitiveView::Array(kids)) => post_kids(
                            walk_kids(vals, kids, 0, id, inh2, max_pages, seen.push(id), st),
                            max_pages,
                        ),
                        _ => Ok(warn(st, "PAGE_TREE_KIDS_MISSING"@, "pages node has no /Kids array"@, id)),
                    }
                } else {
                    let st2 = if has_name(v, utf8("Type"), utf8("Page")) {
                        add_page(st, id, v, inh2)
                    } else {
                        warn(
                            st,
                            "PAGE_TREE_NODE_INVALID"@,
                            "page tree reference does not point to a /Page or /Pages node"@,
                            id,
                        )
                    };
                    if st2.pages.len() > max_pages {
                        Err(page_limit_failure())
                    } else {
                        Ok(st2)
                    }
                }
            },
        }
    }
}

/// Walks the kids `kids[i..]` of node `node`.
pub open spec fn walk_kids(
    vals: Seq<(ObjectId, PrimitiveView)>,
    kids: Seq<PrimitiveView>,
    i: int,
    node: ObjectId,
    inh: InheritedView,
    max_pages: int,
    seen: Seq<ObjectId>,
    st: WalkState,
) -> Result<WalkState, crate::object::Failure>
    decreases vals.len() + 1 - seen.len(), 1int, kids.len() - i,
{
    if i < 0 || i >= kids.len() || seen.len() > vals.len() + 1 {
        Ok(st)
    } else {
        match kids[i] {
            PrimitiveView::Reference(kid) => match walk(vals, kid, inh, max_pages, seen, st) {
                Err(f) => Err(f),
                Ok(st2) => walk_kids(vals, kids, i + 1, node, inh, max_pages, seen, st2),
            },
            _ => walk_kids(
                vals,
                kids,
                i + 1,
                node,
                inh,
                max_pages,
                seen,
                warn(st, "PAGE_TREE_KID_INVALID"@, "pages node contains a non-reference /Kids entry"@, node),
            ),
        }
    }
}

pub open spec fn post_kids(r: Result<WalkState, crate::object::Failure>, max_pages: int) -> Result<WalkState, crate::object::Failure> {
    match r {
        Err(f) => Err(f),
        Ok(st2) => if st2.pages.len() > max_pages {
            Err(page_limit_failure())
        } else {
            Ok(st2)
        },
    }
}

pub open spec fn walk_state(diags: Seq<Diagnostic>, pages: Seq<PdfPage>) -> WalkState {
    WalkState { diags: crate::types::diag_views(diags), pages: page_views(pages) }
}

fn page_count_limit_error(count: usize, limit: usize) -> (e: PdfDiffError)
    ensures
        is_limit_error(e, "RESOURCE_LIMIT_PAGE_COUNT"@),
{
    let a = usize_to_string(count);
    let b = usize_to_string(limit);
    let detail = crate::fmt::concat(&["file has ", a.as_str(), " pages, limit is ", b.as_str()]);
    limit_error("RESOURCE_LIMIT_PAGE_COUNT", detail.as_str())
}

fn push_object_warning(diagnostics: &mut Vec<Diagnostic>, code: &str, message: &str, id: ObjectId)
    ensures
        crate::types::diag_views(final(diagnostics)@) == crate::types::diag_views(old(diagnostics)@).push(
            crate::types::object_warning(code@, message@, id),
        ),
{
    let ghost before = crate::types::diag_views(diagnostics@);
    let d = Diagnostic::warning(code, message).with_object(id);
    diagnostics.push(d);
    proof {
        assert(crate::types::diag_views(diagnostics@) =~= before.push(d.view()));
    }
}

fn contains_id(seen: &Vec<ObjectId>, id: ObjectId) -> (r: bool)
    ensures
        r == seen@.contains(id),
{
    let mut i: usize = 0;
    while i < seen.len()
        invariant
            i <= seen.len(),
            forall|j: int| 0 <= j < i ==> seen@[j] != id,
        decreases seen.len() - i,
    {
        if seen[i] == id {
            return true;
        }
        i += 1;
    }
    false
}

/// Walks the page-tree node `object_id`, appending its pages in order.
fn append_pages_from_tree(
    object_id: ObjectId,
    values: &Vec<(ObjectId, PdfPrimitive)>,
    inherited: InheritedPageAttributes,
    limits: ResourceLimits,
    diagnostics: &mut Vec<Diagnostic>,
    seen: &mut Vec<ObjectId>,
    pages: &mut Vec<PdfPage>,
) -> (r: Result<(), PdfDiffError>)
    ensures
        match walk(
            value_views(values@),
            object_id,
            inherited.view(),
            limits.max_pages as int,
            old(seen)@,
            walk_state(old(diagnostics)@, old(pages)@),
        ) {
            Ok(st) => r is Ok && walk_state(final(diagnostics)@, final(pages)@) == st && final(seen)@ == old(
                seen,
            )@,
            Err(f) => r matches Err(e) && crate::object::failure_is(f, e),
        },
    decreases values@.len() + 1 - old(seen)@.len(), 0int, 0int,
{
    let ghost vals = value_views(values@);
    let ghost d0 = diagnostics@;
    let ghost p0 = pages@;
    let ghost s0 = seen@;
    let ghost inh0 = inherited.view();
    let ghost full = walk(vals, object_id, inh0, limits.max_pages as int, s0, walk_state(d0, p0));
    if seen.len() > values.len() {
        return Ok(());
    }
    if pages.len() > limits.max_pages {
        return Err(page_count_limit_error(pages.len(), limits.max_pages));
    }
    if contains_id(seen, object_id) {
        let n = usize_to_string(object_id.number as usize);
        let msg = crate::fmt::concat2("page tree cycle detected at object ", n.as_str());
        push_object_warning(diagnostics, "PAGE_TREE_CYCLE", msg.as_str(), object_id);
        return Ok(());
    }
    let value = match lookup_value(values, object_id) {
        Some(v) => v,
        None => {
            let n = usize_to_string(object_id.number as usize);
            let msg = crate::fmt::concat2("page tree references missing object ", n.as_str());
            push_object_warning(diagnostics, "PAGE_TREE_OBJECT_MISSING", msg.as_str(), object_id);
            return Ok(());
        },
    };
    let merged = inherited.merge(value);
    if dictionary_has_name(value, "Type".as_bytes(), "Pages".as_bytes()) {
        let kids = match dictionary_value(value, "Kids".as_bytes()) {
            Some(PdfPrimitive::Array(kids)) => kids,
            _ => {
                push_object_warning(diagnostics, "PAGE_TREE_KIDS_MISSING", "pages node has no /Kids array", object_id);
                return Ok(());
            },
        };
        let ghost kv = deep_seq(kids@);
        proof {
            lemma_deep_seq_len(kids@);
        }
        let ghost path = seen@.push(object_id);
        let ghost start_state = walk_state(diagnostics@, pages@);
        assert(full == post_kids(
            walk_kids(vals, kv, 0, object_id, merged.view(), limits.max_pages as int, path, start_state),
            limits.max_pages as int,
        ));
        seen.push(object_id);
        let mut i: usize = 0;
        while i < kids.len()
            invariant
                i <= kids.len(),
                kv == deep_seq(kids@),
                kv.len() == kids.len(),
                vals == value_views(values@),
                seen@ == path,
                s0 == old(seen)@,
                inh0 == inherited.view(),
                full == walk(vals, object_id, inh0, limits.max_pages as int, s0, walk_state(d0, p0)),
                d0 == old(diagnostics)@,
                p0 == old(pages)@,
                path == s0.push(object_id),
                s0.len() <= vals.len(),
                full == post_kids(
                    walk_kids(vals, kv, 0, object_id, merged.view(), limits.max_pages as int, path, start_state),
                    limits.max_pages as int,
                ),
                path.len() <= vals.len() + 1,
                walk_kids(vals, kv, 0, object_id, merged.view(), limits.max_pages as int, path, start_state)
                    == walk_kids(
                    vals,
                    kv,
                    i as int,
                    object_id,
                    merged.view(),
                    limits.max_pages as int,
                    path,
                    walk_state(diagnostics@, pages@),
                ),
            decreases kids.len() - i,
        {
            proof {
                lemma_deep_seq_index(kids@, i as int);
            }
            match &kids[i] {
                PdfPrimitive::Reference(kid) => {
                    append_pages_from_tree(*kid, values, merged.copy(), limits, diagnostics, seen, pages)?;
                },
                _ => {
                    push_object_warning(
                        diagnostics,
                        "PAGE_TREE_KID_INVALID",
                        "pages node contains a non-reference /Kids entry",
                        object_id,
                    );
                },
            }
            i += 1;
        }
        seen.pop();
        proof {
            assert(seen@ =~= path.drop_last());
        }
    } else {
        if dictionary_has_name(value, "Type".as_bytes(), "Page".as_bytes()) {
            let index = pages.len();
            let ghost before = page_views(pages@);
            if let Some(page) = page_from_value(object_id, value, &merged, index, diagnostics) {
                pages.push(page);
                proof {
                    assert(page_views(pages@) =~= before.push(page.view()));
                }
            }
        } else {
            push_object_warning(
                diagnostics,
                "PAGE_TREE_NODE_INVALID",
                "page tree reference does not point to a /Page or /Pages node",
                object_id,
            );
        }
    }
    if pages.len() > limits.max_pages {
        return Err(page_count_limit_error(pages.len(), limits.max_pages));
    }
    Ok(())
}

/// Pages found among the first `m` objects, by their own `/Type /Page`.
pub open spec fn scan_pages(rs: Seq<Record>, vals: Seq<(ObjectId, PrimitiveView)>, m: int, st: WalkState) -> WalkState
    decreases m,
{
    if m <= 0 {
        st
    } else {
        let prev = scan_pages(rs, vals, m - 1, st);
        let r = rs[m - 1];
        match lookup(vals, r.id) {
            Some(v) => if has_name(v, utf8("Type"), utf8("Page")) {
                add_page(prev, r.id, v, merge_spec(no_inherited(), v))
            } else {
                prev
            },
            None => prev,
        }
    }
}

pub open spec fn scanned_result(rs: Seq<Record>, vals: Seq<(ObjectId, PrimitiveView)>, max_pages: int, st: WalkState) -> Result<WalkState, crate::object::Failure> {
    let done = scan_pages(rs, vals, rs.len() as int, st);
    if done.pages.len() > max_pages {
        Err(page_limit_failure())
    } else {
        Ok(done)
    }
}

/// The pages of a document with objects `rs`, after the diagnostics
/// `diags`: the catalog's page tree when it yields pages, else the page
/// objects found by scanning.
#[verifier::opaque]
pub open spec fn resolve_pages_spec(rs: Seq<Record>, limits: ResourceLimits, diags: Seq<crate::types::DiagView>) -> Result<WalkState, crate::object::Failure> {
    let vals = values_of(rs);
    let max = limits.max_pages as int;
    let start = WalkState { diags, pages: Seq::empty() };
    match catalog_pages(vals, 0) {
        Some(root) => match walk(vals, root, no_inherited(), max, Seq::empty(), start) {
            Err(f) => Err(f),
            Ok(st) => if st.pages.len() > 0 {
                Ok(st)
            } else {
                scanned_result(
                    rs,
                    vals,
                    max,
                    WalkState {
                        diags: st.diags.push(
                            crate::types::plain_diag(
                                DiagnosticSeverity::Warning,
                                "PAGE_TREE_EMPTY"@,
                                "catalog /Pages tree resolved without page entries; falling back to scanned page objects"@,
                            ),
                        ),
                        pages: st.pages,
                    },
                )
            },
        },
        None => scanned_result(rs, vals, max, start),
    }
}

fn scanned_pages_from_objects(
    objects: &Vec<PdfObject>,
    values: &Vec<(ObjectId, PdfPrimitive)>,
    limits: ResourceLimits,
    diagnostics: &mut Vec<Diagnostic>,
) -> (r: Result<Vec<PdfPage>, PdfDiffError>)
    ensures
        match scanned_result(
            records(objects@),
            value_views(values@),
            limits.max_pages as int,
            walk_state(old(diagnostics)@, Seq::empty()),
        ) {
            Ok(st) => r matches Ok(pages) && walk_state(final(diagnostics)@, pages@) == st,
            Err(f) => r matches Err(e) && crate::object::failure_is(f, e),
        },
{
    let ghost rs = records(objects@);
    let ghost vals = value_views(values@);
    let ghost st0 = walk_state(diagnostics@, Seq::empty());
    let mut pages: Vec<PdfPage> = Vec::new();
    proof {
        assert(walk_state(diagnostics@, pages@) =~= st0) by {
            assert(page_views(pages@) =~= Seq::<PageView>::empty());
        }
    }
    let mut i: usize = 0;
    while i < objects.len()
        invariant
            i <= objects.len(),
            rs == records(objects@),
            vals == value_views(values@),
            st0 == walk_state(old(diagnostics)@, Seq::empty()),
            walk_state(diagnostics@, pages@) == scan_pages(rs, vals, i as int, st0),
        decreases objects.len() - i,
    {
        let id = objects[i].id;
        assert(rs[i as int].id == id);
        if let Some(value) = lookup_value(values, id) {
            if dictionary_has_name(value, "Type".as_bytes(), "Page".as_bytes()) {
                let inherited = InheritedPageAttributes::none().merge(value);
                let index = pages.len();
                let ghost before = page_views(pages@);
                if let Some(page) = page_from_value(id, value, &inherited, index, diagnostics) {
                    pages.push(page);
                    proof {
                        assert(page_views(pages@) =~= before.push(page.view()));
                    }
                }
            }
        }
        i += 1;
    }
    if pages.len() > limits.max_pages {
        return Err(page_count_limit_error(pages.len(), limits.max_pages));
    }
    Ok(pages)
}

/// Resolves the pages of a document and appends what it finds worth
/// reporting to `diagnostics`.
pub fn resolve_pages(
    objects: &Vec<PdfObject>,
    limits: ResourceLimits,
    diagnostics: &mut Vec<Diagnostic>,
) -> (r: Result<Vec<PdfPage>, PdfDiffError>)
    ensures
        match resolve_pages_spec(records(objects@), limits, crate::types::diag_views(old(diagnostics)@)) {
            Ok(st) => r matches Ok(pages) && walk_state(final(diagnostics)@, pages@) == st,
            Err(f) => r matches Err(e) && crate::object::failure_is(f, e),
        },
{
    proof {
        reveal(resolve_pages_spec);
    }
    proof {
        assert(page_views(Seq::<PdfPage>::empty()) =~= Seq::<PageView>::empty());
    }
    let values = parsed_object_values(objects);
    if let Some(root) = catalog_pages_root_id(&values) {
        let mut pages: Vec<PdfPage> = Vec::new();
        let mut seen: Vec<ObjectId> = Vec::new();
        proof {
            assert(page_views(pages@) =~= Seq::<PageView>::empty());
        }
        append_pages_from_tree(root, &values, InheritedPageAttributes::none(), limits, diagnostics, &mut seen, &mut pages)?;
        if pages.len() > 0 {
            return Ok(pages);
        }
        let ghost before = crate::types::diag_views(diagnostics@);
        let d = Diagnostic::warning(
            "PAGE_TREE_EMPTY",
            "catalog /Pages tree resolved without page entries; falling back to scanned page objects",
        );
        diagnostics.push(d);
        proof {
            assert(crate::types::diag_views(diagnostics@) =~= before.push(d.view()));
            assert(page_views(pages@) =~= Seq::<PageView>::empty());
        }
    }
    scanned_pages_from_objects(objects, &values, limits, diagnostics)
}

} // verus!
