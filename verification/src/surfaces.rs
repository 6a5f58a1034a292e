//! The document surfaces that a text diff does not cover (annotations, form
//! fields, outlines, metadata, attachments) and image payloads: which
//! objects carry them, and the changes between two documents' lists, compared
//! position by position by fingerprint.
use vstd::prelude::*;
use vstd::utf8::encode_utf8;
use crate::chars::chars_of;
use crate::document::PdfDocument;
use crate::fmt::{decimal_chars, hex_chars, u64_to_decimal, usize_to_string};
use crate::image::{fnv1a, stable_hash, image_streams, image_payloads, payload_is, ImagePayload};
use crate::scan::PdfObject;
use crate::textscan::{contains_chars, contains_text, report_value_after_key, report_value_after_name};
use crate::chars::string_of;
use crate::types::{ByteRange, ChangeKind, FileRole, ObjectId, Provenance};

verus! {

/// The kinds of surface compared object by object.
#[derive(Debug, Clone, Copy, PartialEq, Eq, Structural)]
pub enum SurfaceCategory {
    Annotation,
    FormField,
    Outline,
    Metadata,
    Attachment,
}

pub open spec fn kind_of(c: SurfaceCategory) -> ChangeKind {
    match c {
        SurfaceCategory::Annotation | SurfaceCategory::Attachment => ChangeKind::AnnotationChanged,
        SurfaceCategory::FormField => ChangeKind::FormFieldChanged,
        SurfaceCategory::Outline | SurfaceCategory::Metadata => ChangeKind::MetadataChanged,
    }
}

pub open spec fn label_of(c: SurfaceCategory) -> Seq<char> {
    match c {
        SurfaceCategory::Annotation => "annotation/link surface"@,
        SurfaceCategory::FormField => "form field surface"@,
        SurfaceCategory::Outline => "outline/bookmark surface"@,
        SurfaceCategory::Metadata => "metadata/XMP surface"@,
        SurfaceCategory::Attachment => "embedded attachment surface"@,
    }
}

pub open spec fn prefix_of(c: SurfaceCategory) -> Seq<char> {
    match c {
        SurfaceCategory::Annotation => "annotation"@,
        SurfaceCategory::FormField => "form"@,
        SurfaceCategory::Outline => "outline"@,
        SurfaceCategory::Metadata => "metadata"@,
        SurfaceCategory::Attachment => "attachment"@,
    }
}

impl SurfaceCategory {
    /// The kind of change a difference in this surface is.
    pub fn change_kind(self) -> (r: ChangeKind)
        ensures
            r == kind_of(self),
    {
        match self {
            SurfaceCategory::Annotation | SurfaceCategory::Attachment => ChangeKind::AnnotationChanged,
            SurfaceCategory::FormField => ChangeKind::FormFieldChanged,
            SurfaceCategory::Outline | SurfaceCategory::Metadata => ChangeKind::MetadataChanged,
        }
    }

    /// The surface's name in reports.
    pub fn report_label(self) -> (r: &'static str)
        ensures
            r@ == label_of(self),
    {
        match self {
            SurfaceCategory::Annotation => "annotation/link surface",
            SurfaceCategory::FormField => "form field surface",
            SurfaceCategory::Outline => "outline/bookmark surface",
            SurfaceCategory::Metadata => "metadata/XMP surface",
            SurfaceCategory::Attachment => "embedded attachment surface",
        }
    }

    /// The prefix of the surface's evidence node identifiers.
    pub fn node_prefix(self) -> (r: &'static str)
        ensures
            r@ == prefix_of(self),
    {
        match self {
            SurfaceCategory::Annotation => "annotation",
            SurfaceCategory::FormField => "form",
            SurfaceCategory::Outline => "outline",
            SurfaceCategory::Metadata => "metadata",
            SurfaceCategory::Attachment => "attachment",
        }
    }
}

/// The object text `body` carries a surface of category `c`.
pub open spec fn matches_category(body: Seq<char>, c: SurfaceCategory) -> bool {
    match c {
        SurfaceCategory::Annotation => contains_chars(body, "/Subtype /Link"@) || (contains_chars(body, "/Type /Annot"@)
            && !contains_chars(body, "/Subtype /Widget"@)),
        SurfaceCategory::FormField => contains_chars(body, "/AcroForm"@) || contains_chars(body, "/Subtype /Widget"@),
        SurfaceCategory::Outline => contains_chars(body, "/Outlines"@) || (contains_chars(body, "/Title"@) && (
        contains_chars(body, "/Dest"@) || contains_chars(body, "/Parent"@) || contains_chars(body, "/First"@)
            || contains_chars(body, "/Next"@))),
        SurfaceCategory::Metadata => contains_chars(body, "/Type /Metadata"@) || contains_chars(body, "/Metadata"@)
            || contains_chars(body, "/Info"@),
        SurfaceCategory::Attachment => contains_chars(body, "/EmbeddedFiles"@) || contains_chars(body, "/Filespec"@)
            || contains_chars(body, "/Subtype /FileAttachment"@),
    }
}

/// Whether an object's text carries a surface of `category`.
pub fn surface_matches_category(body: &Vec<char>, category: SurfaceCategory) -> (r: bool)
    ensures
        r == matches_category(body@, category),
{
    match category {
        SurfaceCategory::Annotation => contains_text(body, "/Subtype /Link") || (contains_text(body, "/Type /Annot")
            && !contains_text(body, "/Subtype /Widget")),
        SurfaceCategory::FormField => contains_text(body, "/AcroForm") || contains_text(body, "/Subtype /Widget"),
        SurfaceCategory::Outline => contains_text(body, "/Outlines") || (contains_text(body, "/Title") && (
        contains_text(body, "/Dest") || contains_text(body, "/Parent") || contains_text(body, "/First")
            || contains_text(body, "/Next"))),
        SurfaceCategory::Metadata => contains_text(body, "/Type /Metadata") || contains_text(body, "/Metadata")
            || contains_text(body, "/Info"),
        SurfaceCategory::Attachment => contains_text(body, "/EmbeddedFiles") || contains_text(body, "/Filespec")
            || contains_text(body, "/Subtype /FileAttachment"),
    }
}

/// ` key=value` for the value after `/key`, or nothing.
pub open spec fn key_part(body: Seq<char>, key: Seq<char>) -> Seq<char> {
    match report_value_after_key(body, key) {
        Some(v) => seq![' '] + key + seq!['='] + v,
        None => Seq::empty(),
    }
}

/// The summary of a surface: its label, then `key=value` for each of the
/// keys `Subtype`, `URI`, `Title`, `F`, `Desc`, `Contents`, `T`, `V` that
/// has a value, separated by spaces.
pub open spec fn surface_summary(body: Seq<char>, c: SurfaceCategory) -> Seq<char> {
    label_of(c) + key_part(body, "Subtype"@) + key_part(body, "URI"@) + key_part(body, "Title"@) + key_part(body, "F"@)
        + key_part(body, "Desc"@) + key_part(body, "Contents"@) + key_part(body, "T"@) + key_part(body, "V"@)
}

fn push_key_part(out: &mut String, body: &Vec<char>, key: &str)
    ensures
        final(out)@ == old(out)@ + key_part(body@, key@),
{
    proof {
        reveal_strlit(" ");
        reveal_strlit("=");
    }
    match report_value_after_name(body, key) {
        Some(v) => {
            out.append(" ");
            out.append(key);
            out.append("=");
            out.append(string_of(v.as_slice()).as_str());
        },
        None => {
            proof {
                assert(old(out)@ + key_part(body@, key@) =~= old(out)@);
            }
        },
    }
}

/// The summary of a surface, as `surface_summary` describes.
pub fn summarize_surface(body: &Vec<char>, category: SurfaceCategory) -> (r: String)
    ensures
        r@ == surface_summary(body@, category),
{
    let mut out = category.report_label().to_owned();
    push_key_part(&mut out, body, "Subtype");
    push_key_part(&mut out, body, "URI");
    push_key_part(&mut out, body, "Title");
    push_key_part(&mut out, body, "F");
    push_key_part(&mut out, body, "Desc");
    push_key_part(&mut out, body, "Contents");
    push_key_part(&mut out, body, "T");
    push_key_part(&mut out, body, "V");
    out
}

/// One surface of a document: its category and position among the
/// surfaces of that category, its object, summary, fingerprint (of its
/// stream, else of its text) and where its stream lies.
#[derive(Debug, Clone, PartialEq, Eq)]
pub struct DocumentSurface {
    pub category: SurfaceCategory,
    pub index: usize,
    pub object_id: ObjectId,
    pub summary: String,
    pub hash: String,
    pub byte_range: Option<ByteRange>,
}

/// The bytes a surface's fingerprint is taken of.
pub open spec fn surface_bytes(o: PdfObject) -> Seq<u8> {
    match o.stream {
        Some(s) => s.bytes@,
        None => encode_utf8(o.body@),
    }
}

/// The objects of `objs` that carry a surface of category `c`, in order.
pub open spec fn surface_objects(objs: Seq<PdfObject>, c: SurfaceCategory) -> Seq<PdfObject>
    decreases objs.len(),
{
    if objs.len() == 0 {
        Seq::empty()
    } else {
        let rest = surface_objects(objs.drop_last(), c);
        if matches_category(objs.last().body@, c) {
            rest.push(objs.last())
        } else {
            rest
        }
    }
}

/// `s` is the surface of category `c` at position `index`, carried by `o`.
pub open spec fn surface_is(s: DocumentSurface, c: SurfaceCategory, index: int, o: PdfObject) -> bool {
    &&& s.category == c
    &&& s.index == index
    &&& s.object_id == o.id
    &&& s.summary@ == surface_summary(o.body@, c)
    &&& s.hash@ == hex_chars(fnv1a(surface_bytes(o)) as nat, 16)
    &&& s.byte_range == match o.stream {
        Some(st) => Some(st.byte_range),
        None => None,
    }
}

/// The surfaces of category `category` in a document, in document order.
pub fn document_surfaces(document: &PdfDocument, category: SurfaceCategory) -> (r: Vec<DocumentSurface>)
    ensures
        r@.len() == surface_objects(document.objects@, category).len(),
        forall|i: int|
            0 <= i < r@.len() ==> surface_is(#[trigger] r@[i], category, i, surface_objects(document.objects@, category)[i]),
{
    let objects = &document.objects;
    let mut out: Vec<DocumentSurface> = Vec::new();
    let mut i: usize = 0;
    while i < objects.len()
        invariant
            i <= objects.len(),
            out@.len() == surface_objects(objects@.take(i as int), category).len(),
            forall|k: int|
                0 <= k < out@.len() ==> surface_is(#[trigger] out@[k], category, k, surface_objects(objects@.take(i as int), category)[k]),
        decreases objects.len() - i,
    {
        let ghost prefix = objects@.take(i as int);
        proof {
            assert(objects@.take(i + 1).drop_last() =~= prefix);
            assert(objects@.take(i + 1).last() == objects@[i as int]);
        }
        let object = &objects[i];
        let body = chars_of(object.body.as_str());
        if surface_matches_category(&body, category) {
            let index = out.len();
            let hash = match &object.stream {
                Some(stream) => stable_hash(stream.bytes.as_slice()),
                None => stable_hash(object.body.as_str().as_bytes()),
            };
            let byte_range = match &object.stream {
                Some(stream) => Some(stream.byte_range),
                None => None,
            };
            let surface = DocumentSurface {
                category,
                index,
                object_id: object.id,
                summary: summarize_surface(&body, category),
                hash,
                byte_range,
            };
            out.push(surface);
            proof {
                let next = surface_objects(objects@.take(i + 1), category);
                assert(next == surface_objects(prefix, category).push(objects@[i as int]));
                assert forall|k: int| 0 <= k < out@.len() implies surface_is(#[trigger] out@[k], category, k, next[k]) by {
                    if k < index {
                        assert(next[k] == surface_objects(prefix, category)[k]);
                    }
                }
            }
        }
        i += 1;
    }
    proof {
        assert(objects@.take(objects.len() as int) =~= objects@);
    }
    out
}

/// `n` in decimal, padded with zeros to four digits.
pub open spec fn padded4(n: nat) -> Seq<char> {
    let d = decimal_chars(n);
    if d.len() >= 4 {
        d
    } else {
        Seq::new((4 - d.len()) as nat, |i: int| '0') + d
    }
}

/// `n` in decimal, at least four digits.
pub fn pad4(n: usize) -> (r: String)
    ensures
        r@ == padded4(n as nat),
{
    let digits = usize_to_string(n);
    let count = digits.as_str().unicode_len();
    if count >= 4 {
        return digits;
    }
    let mut out = String::new();
    let mut k: usize = 0;
    proof {
        reveal_strlit("0");
    }
    while k < 4 - count
        invariant
            count < 4,
            k <= 4 - count,
            out@ == Seq::new(k as nat, |i: int| '0'),
        decreases 4 - count - k,
    {
        let ghost before = out@;
        out.append("0");
        proof {
            reveal_strlit("0");
            assert(out@ == before + "0"@);
            assert(out@ =~= Seq::new((k + 1) as nat, |i: int| '0'));
        }
        k += 1;
    }
    out.append(digits.as_str());
    out
}

/// Evidence of a surface or payload in one of the two files: the node it
/// stands for, its page, its text and where it came from.
#[derive(Debug, Clone, PartialEq, Eq)]
pub struct NodeEvidence {
    pub node_id: String,
    pub page: usize,
    pub text: Option<String>,
    pub source: Vec<Provenance>,
}

/// A change of a surface or payload between the two files; it carries no
/// text hunks and no layout difference.
#[derive(Debug, Clone, PartialEq, Eq)]
pub struct SurfaceChange {
    pub kind: ChangeKind,
    pub old_node: Option<NodeEvidence>,
    pub new_node: Option<NodeEvidence>,
    pub reason: String,
}

/// Where the evidence of object `id` in file `role` came from.
pub open spec fn object_source(role: FileRole, id: ObjectId, range: Option<ByteRange>) -> Provenance {
    Provenance {
        file_role: Some(role),
        object_id: Some(id),
        page_index: None,
        stream_object_id: Some(id),
        content_op_index: None,
        byte_range: range,
    }
}

/// `e` is the evidence of surface `s` in file `role`.
pub open spec fn surface_evidence_is(e: NodeEvidence, role: FileRole, s: DocumentSurface) -> bool {
    &&& e.node_id@ == prefix_of(s.category) + seq!['-'] + padded4(s.index as nat)
    &&& e.page == 0
    &&& e.text matches Some(t) && t@ == label_of(s.category) + " object "@ + decimal_chars(s.object_id.number as nat)
        + " 0 R hash="@ + s.hash@ + seq![' '] + s.summary@
    &&& e.source@ == seq![object_source(role, s.object_id, s.byte_range)]
}

/// The evidence of a surface in file `role`.
pub fn surface_evidence(file_role: FileRole, surface: &DocumentSurface) -> (r: NodeEvidence)
    ensures
        surface_evidence_is(r, file_role, *surface),
{
    proof {
        reveal_strlit("-");
        reveal_strlit(" ");
    }
    let mut node_id = surface.category.node_prefix().to_owned();
    node_id.append("-");
    node_id.append(pad4(surface.index).as_str());
    let mut text = surface.category.report_label().to_owned();
    text.append(" object ");
    text.append(u64_to_decimal(surface.object_id.number as u64).as_str());
    text.append(" 0 R hash=");
    text.append(surface.hash.as_str());
    text.append(" ");
    text.append(surface.summary.as_str());
    let source = Provenance {
        file_role: Some(file_role),
        object_id: Some(surface.object_id),
        page_index: None,
        stream_object_id: Some(surface.object_id),
        content_op_index: None,
        byte_range: surface.byte_range,
    };
    let mut sources: Vec<Provenance> = Vec::new();
    sources.push(source);
    proof {
        assert(sources@ =~= seq![object_source(file_role, surface.object_id, surface.byte_range)]);
        assert(node_id@ == prefix_of(surface.category) + seq!['-'] + padded4(surface.index as nat));
        assert(text@ == label_of(surface.category) + " object "@ + decimal_chars(surface.object_id.number as nat)
            + " 0 R hash="@ + surface.hash@ + seq![' '] + surface.summary@);
    }
    NodeEvidence { node_id, page: 0, text: Some(text), source: sources }
}

/// What a surface's comparison reads of it.
pub struct SurfaceView {
    pub object_id: ObjectId,
    pub summary: Seq<char>,
    pub hash: Seq<char>,
    pub byte_range: Option<ByteRange>,
}

/// The surface of category `c` that object `o` carries.
pub open spec fn surface_view(c: SurfaceCategory, o: PdfObject) -> SurfaceView {
    SurfaceView {
        object_id: o.id,
        summary: surface_summary(o.body@, c),
        hash: hex_chars(fnv1a(surface_bytes(o)) as nat, 16),
        byte_range: match o.stream {
            Some(st) => Some(st.byte_range),
            None => None,
        },
    }
}

/// The surfaces of category `c` among `objs`, in order.
pub open spec fn surface_views(objs: Seq<PdfObject>, c: SurfaceCategory) -> Seq<SurfaceView> {
    surface_objects(objs, c).map_values(|o: PdfObject| surface_view(c, o))
}

/// What a change's comparison reads of the evidence of one side.
pub struct EvidenceView {
    pub node_id: Seq<char>,
    pub page: usize,
    pub text: Option<Seq<char>>,
    pub source: Seq<Provenance>,
}

/// What a surface change states.
pub struct ChangeView {
    pub kind: ChangeKind,
    pub old_node: Option<EvidenceView>,
    pub new_node: Option<EvidenceView>,
    pub reason: Seq<char>,
}

impl NodeEvidence {
    pub open spec fn view(self) -> EvidenceView {
        EvidenceView {
            node_id: self.node_id@,
            page: self.page,
            text: match self.text {
                Some(t) => Some(t@),
                None => None,
            },
            source: self.source@,
        }
    }
}

pub open spec fn opt_evidence(e: Option<NodeEvidence>) -> Option<EvidenceView> {
    match e {
        Some(n) => Some(n.view()),
        None => None,
    }
}

impl SurfaceChange {
    pub open spec fn view(self) -> ChangeView {
        ChangeView {
            kind: self.kind,
            old_node: opt_evidence(self.old_node),
            new_node: opt_evidence(self.new_node),
            reason: self.reason@,
        }
    }
}

pub open spec fn change_views(s: Seq<SurfaceChange>) -> Seq<ChangeView> {
    s.map_values(|c: SurfaceChange| c.view())
}

/// The evidence of the surface of category `c` at position `i` in file
/// `role`.
pub open spec fn surface_evidence_view(role: FileRole, c: SurfaceCategory, i: int, s: SurfaceView) -> EvidenceView {
    EvidenceView {
        node_id: prefix_of(c) + seq!['-'] + padded4(i as nat),
        page: 0,
        text: Some(
            label_of(c) + " object "@ + decimal_chars(s.object_id.number as nat) + " 0 R hash="@ + s.hash + seq![' ']
                + s.summary,
        ),
        source: seq![object_source(role, s.object_id, s.byte_range)],
    }
}

/// The change at position `i` between the old and new surfaces of category
/// `c`: none where both have the same fingerprint or neither exists.
pub open spec fn surface_change_at(c: SurfaceCategory, olds: Seq<SurfaceView>, news: Seq<SurfaceView>, i: int) -> Option<ChangeView> {
    if i < olds.len() && i < news.len() {
        if olds[i].hash == news[i].hash {
            None
        } else {
            Some(ChangeView {
                kind: kind_of(c),
                old_node: Some(surface_evidence_view(FileRole::Old, c, i, olds[i])),
                new_node: Some(surface_evidence_view(FileRole::New, c, i, news[i])),
                reason: label_of(c) + " differs at index "@ + decimal_chars(i as nat),
            })
        }
    } else if i < olds.len() {
        Some(ChangeView {
            kind: kind_of(c),
            old_node: Some(surface_evidence_view(FileRole::Old, c, i, olds[i])),
            new_node: None,
            reason: label_of(c) + " exists only in old document at index "@ + decimal_chars(i as nat),
        })
    } else if i < news.len() {
        Some(ChangeView {
            kind: kind_of(c),
            old_node: None,
            new_node: Some(surface_evidence_view(FileRole::New, c, i, news[i])),
            reason: label_of(c) + " exists only in new document at index "@ + decimal_chars(i as nat),
        })
    } else {
        None
    }
}

/// The changes at positions `0..n`.
pub open spec fn category_changes(c: SurfaceCategory, olds: Seq<SurfaceView>, news: Seq<SurfaceView>, n: int) -> Seq<ChangeView>
    decreases n,
{
    if n <= 0 {
        Seq::empty()
    } else {
        let rest = category_changes(c, olds, news, n - 1);
        match surface_change_at(c, olds, news, n - 1) {
            Some(ch) => rest.push(ch),
            None => rest,
        }
    }
}

/// The changes of category `c` between the two object lists.
pub open spec fn changes_of_category(old_objs: Seq<PdfObject>, new_objs: Seq<PdfObject>, c: SurfaceCategory) -> Seq<ChangeView> {
    let olds = surface_views(old_objs, c);
    let news = surface_views(new_objs, c);
    category_changes(c, olds, news, if olds.len() >= news.len() {
        olds.len() as int
    } else {
        news.len() as int
    })
}

/// The surface changes between two documents: annotations, form fields,
/// outlines, metadata, attachments, each compared position by position.
pub open spec fn surface_changes_spec(old_objs: Seq<PdfObject>, new_objs: Seq<PdfObject>) -> Seq<ChangeView> {
    changes_of_category(old_objs, new_objs, SurfaceCategory::Annotation) + changes_of_category(
        old_objs,
        new_objs,
        SurfaceCategory::FormField,
    ) + changes_of_category(old_objs, new_objs, SurfaceCategory::Outline) + changes_of_category(
        old_objs,
        new_objs,
        SurfaceCategory::Metadata,
    ) + changes_of_category(old_objs, new_objs, SurfaceCategory::Attachment)
}

impl DocumentSurface {
    pub open spec fn view(self) -> SurfaceView {
        SurfaceView { object_id: self.object_id, summary: self.summary@, hash: self.hash@, byte_range: self.byte_range }
    }
}

fn same_string(a: &String, b: &String) -> (r: bool)
    ensures
        r == (a@ == b@),
{
    *a == *b
}

fn index_reason(label: &str, middle: &str, i: usize) -> (r: String)
    ensures
        r@ == label@ + middle@ + decimal_chars(i as nat),
{
    let mut s = label.to_owned();
    s.append(middle);
    s.append(usize_to_string(i).as_str());
    s
}

fn append_category_changes(
    changes: &mut Vec<SurfaceChange>,
    old_document: &PdfDocument,
    new_document: &PdfDocument,
    category: SurfaceCategory,
)
    ensures
        change_views(final(changes)@) == change_views(old(changes)@) + changes_of_category(
            old_document.objects@,
            new_document.objects@,
            category,
        ),
{
    let olds = document_surfaces(old_document, category);
    let news = document_surfaces(new_document, category);
    let ghost ov = surface_views(old_document.objects@, category);
    let ghost nv = surface_views(new_document.objects@, category);
    proof {
        assert forall|k: int| 0 <= k < olds@.len() implies (#[trigger] olds@[k]).view() == ov[k] && olds@[k].index == k by {}
        assert forall|k: int| 0 <= k < news@.len() implies (#[trigger] news@[k]).view() == nv[k] && news@[k].index == k by {}
    }
    let n = if olds.len() >= news.len() {
        olds.len()
    } else {
        news.len()
    };
    let ghost start = change_views(changes@);
    let label = category.report_label();
    let mut i: usize = 0;
    proof {
        assert(change_views(changes@) =~= start + category_changes(category, ov, nv, 0));
    }
    while i < n
        invariant
            i <= n,
            n == (if olds@.len() >= news@.len() {
                olds@.len()
            } else {
                news@.len()
            }),
            ov.len() == olds@.len(),
            nv.len() == news@.len(),
            forall|k: int| 0 <= k < olds@.len() ==> (#[trigger] olds@[k]).view() == ov[k] && olds@[k].index == k,
            forall|k: int| 0 <= k < news@.len() ==> (#[trigger] news@[k]).view() == nv[k] && news@[k].index == k,
            olds@.len() > 0 ==> olds@[0].category == category,
            forall|k: int| 0 <= k < olds@.len() ==> (#[trigger] olds@[k]).category == category,
            forall|k: int| 0 <= k < news@.len() ==> (#[trigger] news@[k]).category == category,
            label@ == label_of(category),
            change_views(changes@) == start + category_changes(category, ov, nv, i as int),
        decreases n - i,
    {
        let ghost before = change_views(changes@);
        let ghost expected = surface_change_at(category, ov, nv, i as int);
        if i < olds.len() && i < news.len() {
            if !same_string(&olds[i].hash, &news[i].hash) {
                let change = SurfaceChange {
                    kind: category.change_kind(),
                    old_node: Some(surface_evidence(FileRole::Old, &olds[i])),
                    new_node: Some(surface_evidence(FileRole::New, &news[i])),
                    reason: index_reason(label, " differs at index ", i),
                };
                changes.push(change);
                proof {
                    assert(change.view() == expected->0);
                    assert(change_views(changes@) =~= before.push(change.view()));
                }
            } else {
                proof {
                    assert(olds@[i as int].view().hash == nv[i as int].hash);
                    assert(expected is None);
                }
            }
        } else if i < olds.len() {
            let change = SurfaceChange {
                kind: category.change_kind(),
                old_node: Some(surface_evidence(FileRole::Old, &olds[i])),
                new_node: None,
                reason: index_reason(label, " exists only in old document at index ", i),
            };
            changes.push(change);
            proof {
                assert(change.view() == expected->0);
                assert(change_views(changes@) =~= before.push(change.view()));
            }
        } else if i < news.len() {
            let change = SurfaceChange {
                kind: category.change_kind(),
                old_node: None,
                new_node: Some(surface_evidence(FileRole::New, &news[i])),
                reason: index_reason(label, " exists only in new document at index ", i),
            };
            changes.push(change);
            proof {
                assert(change.view() == expected->0);
                assert(change_views(changes@) =~= before.push(change.view()));
            }
        }
        proof {
            assert(change_views(changes@) =~= start + category_changes(category, ov, nv, i + 1));
        }
        i += 1;
    }
}

/// The surface changes between two documents, as `surface_changes_spec`
/// describes.
pub fn surface_changes(old_document: &PdfDocument, new_document: &PdfDocument) -> (r: Vec<SurfaceChange>)
    ensures
        change_views(r@) == surface_changes_spec(old_document.objects@, new_document.objects@),
{
    let mut changes: Vec<SurfaceChange> = Vec::new();
    proof {
        assert(change_views(changes@) =~= Seq::<ChangeView>::empty());
    }
    append_category_changes(&mut changes, old_document, new_document, SurfaceCategory::Annotation);
    append_category_changes(&mut changes, old_document, new_document, SurfaceCategory::FormField);
    append_category_changes(&mut changes, old_document, new_document, SurfaceCategory::Outline);
    append_category_changes(&mut changes, old_document, new_document, SurfaceCategory::Metadata);
    append_category_changes(&mut changes, old_document, new_document, SurfaceCategory::Attachment);
    changes
}

/// What the payload comparison reads of an image.
pub struct PayloadView {
    pub object_id: ObjectId,
    pub byte_range: ByteRange,
    pub byte_len: nat,
    pub hash: Seq<char>,
}

/// The payload of image object `o`.
pub open spec fn payload_view(o: PdfObject) -> PayloadView {
    PayloadView {
        object_id: o.id,
        byte_range: o.stream->0.byte_range,
        byte_len: o.stream->0.bytes@.len(),
        hash: hex_chars(fnv1a(o.stream->0.bytes@) as nat, 16),
    }
}

/// The payloads of the image objects among `objs`, in order.
pub open spec fn payload_views(objs: Seq<PdfObject>) -> Seq<PayloadView> {
    image_streams(objs).map_values(|o: PdfObject| payload_view(o))
}

/// The evidence of the image at position `i` in file `role`.
pub open spec fn image_evidence_view(role: FileRole, i: int, p: PayloadView) -> EvidenceView {
    EvidenceView {
        node_id: "image-"@ + padded4(i as nat),
        page: 0,
        text: Some(
            "image XObject "@ + decimal_chars(p.object_id.number as nat) + " 0 R bytes="@ + decimal_chars(p.byte_len)
                + " hash="@ + p.hash,
        ),
        source: seq![object_source(role, p.object_id, Some(p.byte_range))],
    }
}

/// The change at image position `i`: none where both payloads have the
/// same fingerprint or neither exists.
pub open spec fn image_change_at(olds: Seq<PayloadView>, news: Seq<PayloadView>, i: int) -> Option<ChangeView> {
    if i < olds.len() && i < news.len() {
        if olds[i].hash == news[i].hash {
            None
        } else {
            Some(ChangeView {
                kind: ChangeKind::ObjectChanged,
                old_node: Some(image_evidence_view(FileRole::Old, i, olds[i])),
                new_node: Some(image_evidence_view(FileRole::New, i, news[i])),
                reason: "image payload differs at image index "@ + decimal_chars(i as nat) + " (old hash "@ + olds[i].hash
                    + " -> new hash "@ + news[i].hash + seq![')'],
            })
        }
    } else if i < olds.len() {
        Some(ChangeView {
            kind: ChangeKind::ObjectChanged,
            old_node: Some(image_evidence_view(FileRole::Old, i, olds[i])),
            new_node: None,
            reason: "image payload at index "@ + decimal_chars(i as nat) + " exists only in old document"@,
        })
    } else if i < news.len() {
        Some(ChangeView {
            kind: ChangeKind::ObjectChanged,
            old_node: None,
            new_node: Some(image_evidence_view(FileRole::New, i, news[i])),
            reason: "image payload at index "@ + decimal_chars(i as nat) + " exists only in new document"@,
        })
    } else {
        None
    }
}

/// The image changes at positions `0..n`.
pub open spec fn image_changes(olds: Seq<PayloadView>, news: Seq<PayloadView>, n: int) -> Seq<ChangeView>
    decreases n,
{
    if n <= 0 {
        Seq::empty()
    } else {
        let rest = image_changes(olds, news, n - 1);
        match image_change_at(olds, news, n - 1) {
            Some(ch) => rest.push(ch),
            None => rest,
        }
    }
}

/// The image payload changes between two object lists, compared position by
/// position.
pub open spec fn image_changes_spec(old_objs: Seq<PdfObject>, new_objs: Seq<PdfObject>) -> Seq<ChangeView> {
    let olds = payload_views(old_objs);
    let news = payload_views(new_objs);
    image_changes(olds, news, if olds.len() >= news.len() {
        olds.len() as int
    } else {
        news.len() as int
    })
}

impl ImagePayload {
    pub open spec fn view(self) -> PayloadView {
        PayloadView {
            object_id: self.object_id,
            byte_range: self.byte_range,
            byte_len: self.byte_len as nat,
            hash: self.hash@,
        }
    }
}

/// The evidence of an image payload in file `role`.
pub fn image_payload_evidence(file_role: FileRole, image: &ImagePayload) -> (r: NodeEvidence)
    ensures
        r.view() == image_evidence_view(file_role, image.index as int, image.view()),
{
    let mut node_id = "image-".to_owned();
    node_id.append(pad4(image.index).as_str());
    let mut text = "image XObject ".to_owned();
    text.append(u64_to_decimal(image.object_id.number as u64).as_str());
    text.append(" 0 R bytes=");
    text.append(usize_to_string(image.byte_len).as_str());
    text.append(" hash=");
    text.append(image.hash.as_str());
    let source = Provenance {
        file_role: Some(file_role),
        object_id: Some(image.object_id),
        page_index: None,
        stream_object_id: Some(image.object_id),
        content_op_index: None,
        byte_range: Some(image.byte_range),
    };
    let mut sources: Vec<Provenance> = Vec::new();
    sources.push(source);
    proof {
        assert(sources@ =~= seq![object_source(file_role, image.object_id, Some(image.byte_range))]);
    }
    NodeEvidence { node_id, page: 0, text: Some(text), source: sources }
}

fn differs_reason(i: usize, old_hash: &String, new_hash: &String) -> (r: String)
    ensures
        r@ == "image payload differs at image index "@ + decimal_chars(i as nat) + " (old hash "@ + old_hash@
            + " -> new hash "@ + new_hash@ + seq![')'],
{
    proof {
        reveal_strlit(")");
    }
    let mut s = "image payload differs at image index ".to_owned();
    s.append(usize_to_string(i).as_str());
    s.append(" (old hash ");
    s.append(old_hash.as_str());
    s.append(" -> new hash ");
    s.append(new_hash.as_str());
    s.append(")");
    s
}

fn only_reason(i: usize, tail: &str) -> (r: String)
    ensures
        r@ == "image payload at index "@ + decimal_chars(i as nat) + tail@,
{
    let mut s = "image payload at index ".to_owned();
    s.append(usize_to_string(i).as_str());
    s.append(tail);
    s
}

/// The image payload changes between two documents, as
/// `image_changes_spec` describes.
pub fn image_payload_changes(old_document: &PdfDocument, new_document: &PdfDocument) -> (r: Vec<SurfaceChange>)
    ensures
        change_views(r@) == image_changes_spec(old_document.objects@, new_document.objects@),
{
    let olds = image_payloads(old_document);
    let news = image_payloads(new_document);
    let ghost ov = payload_views(old_document.objects@);
    let ghost nv = payload_views(new_document.objects@);
    proof {
        assert forall|k: int| 0 <= k < olds@.len() implies (#[trigger] olds@[k]).view() == ov[k] && olds@[k].index == k by {
            assert(payload_is(olds@[k], k, image_streams(old_document.objects@)[k]));
        }
        assert forall|k: int| 0 <= k < news@.len() implies (#[trigger] news@[k]).view() == nv[k] && news@[k].index == k by {
            assert(payload_is(news@[k], k, image_streams(new_document.objects@)[k]));
        }
    }
    let n = if olds.len() >= news.len() {
        olds.len()
    } else {
        news.len()
    };
    let mut changes: Vec<SurfaceChange> = Vec::new();
    let mut i: usize = 0;
    proof {
        assert(change_views(changes@) =~= image_changes(ov, nv, 0));
    }
    while i < n
        invariant
            i <= n,
            n == (if olds@.len() >= news@.len() {
                olds@.len()
            } else {
                news@.len()
            }),
            ov.len() == olds@.len(),
            nv.len() == news@.len(),
            forall|k: int| 0 <= k < olds@.len() ==> (#[trigger] olds@[k]).view() == ov[k] && olds@[k].index == k,
            forall|k: int| 0 <= k < news@.len() ==> (#[trigger] news@[k]).view() == nv[k] && news@[k].index == k,
            change_views(changes@) == image_changes(ov, nv, i as int),
        decreases n - i,
    {
        let ghost before = change_views(changes@);
        let ghost expected = image_change_at(ov, nv, i as int);
        if i < olds.len() && i < news.len() {
            if !same_string(&olds[i].hash, &news[i].hash) {
                let change = SurfaceChange {
                    kind: ChangeKind::ObjectChanged,
                    old_node: Some(image_payload_evidence(FileRole::Old, &olds[i])),
                    new_node: Some(image_payload_evidence(FileRole::New, &news[i])),
                    reason: differs_reason(i, &olds[i].hash, &news[i].hash),
                };
                changes.push(change);
                proof {
                    assert(change.view() == expected->0);
                    assert(change_views(changes@) =~= before.push(change.view()));
                }
            } else {
                proof {
                    assert(olds@[i as int].view().hash == nv[i as int].hash);
                    assert(expected is None);
                }
            }
        } else if i < olds.len() {
            let change = SurfaceChange {
                kind: ChangeKind::ObjectChanged,
                old_node: Some(image_payload_evidence(FileRole::Old, &olds[i])),
                new_node: None,
                reason: only_reason(i, " exists only in old document"),
            };
            changes.push(change);
            proof {
                assert(change.view() == expected->0);
                assert(change_views(changes@) =~= before.push(change.view()));
            }
        } else if i < news.len() {
            let change = SurfaceChange {
                kind: ChangeKind::ObjectChanged,
                old_node: None,
                new_node: Some(image_payload_evidence(FileRole::New, &news[i])),
                reason: only_reason(i, " exists only in new document"),
            };
            changes.push(change);
            proof {
                assert(change.view() == expected->0);
                assert(change_views(changes@) =~= before.push(change.view()));
            }
        }
        proof {
            assert(change_views(changes@) =~= image_changes(ov, nv, i + 1));
        }
        i += 1;
    }
    changes
}

} // verus!
