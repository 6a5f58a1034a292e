//! The logical structure of tagged PDF: the structure tree under the
//! catalog's `/StructTreeRoot`, its role map and its parent tree.
use vstd::prelude::*;
use vstd::utf8::{encode_utf8, encode_utf8_decode_utf8};
use crate::types::{ObjectId, ParseConfig, ResourceLimits, PdfDiffError, Diagnostic, DiagnosticSeverity, DiagView,
    diag_views, object_warning};
use crate::primitive::{PdfPrimitive, PrimitiveView, dict_lookup, dictionary_value, primitive_spec,
    parse_primitive, has_name, dictionary_has_name, deep_seq, deep_entries, lemma_deep_seq_index,
    lemma_deep_seq_len, lemma_deep_entries_index, lemma_deep_entries_len};
use crate::scan::{PdfObject, ObjectRecord, records};
use crate::document::{PdfDocument, first_record, diags_agree, diag_agrees};
use crate::fmt::{decimal_chars, usize_to_string, concat, concat2};
use crate::utf8text::{utf8, utf8_lossy, lossy_string};

verus! {

/// A role-map entry: a custom structure type and the type it stands for.
#[derive(Debug, Clone, PartialEq, Eq)]
pub struct TaggedRoleMapEntry {
    pub source: String,
    pub target: String,
}

/// A structure element with the marked-content ids and elements below it.
#[derive(Debug, PartialEq, Eq)]
pub struct TaggedStructureElement {
    pub object_id: Option<ObjectId>,
    pub structure_type: String,
    pub mapped_structure_type: Option<String>,
    pub mcids: Vec<usize>,
    pub children: Vec<TaggedStructureElement>,
}

/// A parent-tree entry: the elements that own the marked content of one
/// `/StructParents` key.
#[derive(Debug, Clone, PartialEq, Eq)]
pub struct TaggedParentTreeEntry {
    pub struct_parent: usize,
    pub element_object_ids: Vec<ObjectId>,
}

/// The structure tree of a tagged document.
#[derive(Debug, PartialEq, Eq)]
pub struct TaggedStructure {
    pub root_object_id: Option<ObjectId>,
    pub role_map: Vec<TaggedRoleMapEntry>,
    pub roots: Vec<TaggedStructureElement>,
    pub parent_tree: Vec<TaggedParentTreeEntry>,
    pub diagnostics: Vec<Diagnostic>,
}

pub struct ElementView {
    pub object_id: Option<ObjectId>,
    pub structure_type: Seq<char>,
    pub mapped_structure_type: Option<Seq<char>>,
    pub mcids: Seq<usize>,
    pub children: Seq<ElementView>,
}

pub open spec fn opt_text(o: Option<String>) -> Option<Seq<char>> {
    match o {
        Some(s) => Some(s@),
        None => None,
    }
}

impl TaggedStructureElement {
    pub open spec fn view(self) -> ElementView
        decreases self,
    {
        ElementView {
            object_id: self.object_id,
            structure_type: self.structure_type@,
            mapped_structure_type: opt_text(self.mapped_structure_type),
            mcids: self.mcids@,
            children: element_views(self.children@),
        }
    }
}

pub open spec fn element_views(s: Seq<TaggedStructureElement>) -> Seq<ElementView>
    decreases s,
{
    if s.len() == 0 {
        Seq::empty()
    } else {
        element_views(s.subrange(0, s.len() - 1)).push(s[s.len() - 1].view())
    }
}

pub open spec fn role_views(s: Seq<TaggedRoleMapEntry>) -> Seq<(Seq<char>, Seq<char>)> {
    s.map_values(|e: TaggedRoleMapEntry| (e.source@, e.target@))
}

pub open spec fn parent_views(s: Seq<TaggedParentTreeEntry>) -> Seq<(usize, Seq<ObjectId>)> {
    s.map_values(|e: TaggedParentTreeEntry| (e.struct_parent, e.element_object_ids@))
}

/// The value written in a document object's text, parsed with `limits`.
pub open spec fn object_value(body: Seq<char>, limits: ResourceLimits) -> Option<PrimitiveView> {
    let b = encode_utf8(body);
    if b.len() > limits.max_file_bytes {
        None
    } else {
        match primitive_spec(b, limits.max_indirect_depth as int) {
            Ok((v, _, _)) => Some(v),
            Err(_) => None,
        }
    }
}

fn parse_object_value(object: &PdfObject, config: ParseConfig) -> (r: Result<PdfPrimitive, PdfDiffError>)
    ensures
        match object_value(object.body@, config.limits) {
            Some(v) => r matches Ok(p) && p.deep() == v,
            None => r is Err,
        },
{
    match parse_primitive(object.body.as_str().as_bytes(), config) {
        Ok(parsed) => Ok(parsed.value),
        Err(e) => Err(e),
    }
}

/// A warning about an object whose message no contract fixes.
pub open spec fn free_warning(code: Seq<char>, object: ObjectId) -> DiagView {
    object_warning(code, Seq::empty(), object)
}

/// The `/StructTreeRoot` reference of the first catalog that has one, after
/// the diagnostics for catalogs whose entry is not a reference.
pub open spec fn root_id_spec(objs: Seq<ObjectRecord>, limits: ResourceLimits, m: int, diags: Seq<DiagView>) -> (Option<ObjectId>, Seq<DiagView>)
    decreases objs.len() - m,
{
    if m < 0 || m >= objs.len() {
        (None, diags)
    } else {
        match object_value(objs[m].body, limits) {
            Some(v) => if has_name(v, utf8("Type"), utf8("Catalog")) {
                match dict_lookup(v, utf8("StructTreeRoot")) {
                    Some(PrimitiveView::Reference(id)) => (Some(id), diags),
                    Some(_) => root_id_spec(
                        objs,
                        limits,
                        m + 1,
                        diags.push(
                            object_warning(
                                "TAGGED_STRUCTURE_MALFORMED"@,
                                "catalog /StructTreeRoot is not an indirect reference"@,
                                objs[m].id,
                            ),
                        ),
                    ),
                    None => root_id_spec(objs, limits, m + 1, diags),
                }
            } else {
                root_id_spec(objs, limits, m + 1, diags)
            },
            None => root_id_spec(objs, limits, m + 1, diags),
        }
    }
}

fn push_warning(diagnostics: &mut Vec<Diagnostic>, code: &str, message: &str, id: ObjectId)
    ensures
        diag_views(final(diagnostics)@) == diag_views(old(diagnostics)@).push(object_warning(code@, message@, id)),
{
    let ghost before = diag_views(diagnostics@);
    let d = Diagnostic::warning(code, message).with_object(id);
    diagnostics.push(d);
    proof {
        assert(diag_views(diagnostics@) =~= before.push(d.view()));
    }
}

fn struct_tree_root_id(document: &PdfDocument, config: ParseConfig, diagnostics: &mut Vec<Diagnostic>) -> (r: Option<ObjectId>)
    ensures
        root_id_spec(records(document.objects@), config.limits, 0, diag_views(old(diagnostics)@)) == (
            r,
            diag_views(final(diagnostics)@),
        ),
{
    let ghost objs = records(document.objects@);
    let ghost d0 = diag_views(diagnostics@);
    let mut m: usize = 0;
    while m < document.objects.len()
        invariant
            m <= document.objects.len(),
            objs == records(document.objects@),
            d0 == diag_views(old(diagnostics)@),
            root_id_spec(objs, config.limits, 0, d0) == root_id_spec(objs, config.limits, m as int, diag_views(diagnostics@)),
        decreases document.objects.len() - m,
    {
        let object = &document.objects[m];
        assert(objs[m as int] == object.view());
        if let Ok(value) = parse_object_value(object, config) {
            if dictionary_has_name(&value, "Type".as_bytes(), "Catalog".as_bytes()) {
                match dictionary_value(&value, "StructTreeRoot".as_bytes()) {
                    Some(PdfPrimitive::Reference(id)) => {
                        return Some(*id);
                    },
                    Some(_) => {
                        push_warning(
                            diagnostics,
                            "TAGGED_STRUCTURE_MALFORMED",
                            "catalog /StructTreeRoot is not an indirect reference",
                            object.id,
                        );
                    },
                    None => {},
                }
            }
        }
        m += 1;
    }
    None
}

/// The type a role map gives `structure_type`, unless it maps to itself.
pub open spec fn mapped_spec(structure_type: Seq<char>, roles: Seq<(Seq<char>, Seq<char>)>, from: int) -> Option<Seq<char>>
    decreases roles.len() - from,
{
    if from < 0 || from >= roles.len() {
        None
    } else if roles[from].0 == structure_type {
        if roles[from].1 == structure_type {
            None
        } else {
            Some(roles[from].1)
        }
    } else {
        mapped_spec(structure_type, roles, from + 1)
    }
}

fn same_string(a: &String, b: &String) -> (r: bool)
    ensures
        r == (a@ == b@),
{
    *a == *b
}

pub fn mapped_structure_type(structure_type: &String, role_map: &Vec<TaggedRoleMapEntry>) -> (r: Option<String>)
    ensures
        opt_text(r) == mapped_spec(structure_type@, role_views(role_map@), 0),
{
    let ghost roles = role_views(role_map@);
    let mut i: usize = 0;
    while i < role_map.len()
        invariant
            i <= role_map.len(),
            roles == role_views(role_map@),
            mapped_spec(structure_type@, roles, 0) == mapped_spec(structure_type@, roles, i as int),
        decreases role_map.len() - i,
    {
        if same_string(&role_map[i].source, structure_type) {
            if same_string(&role_map[i].target, structure_type) {
                return None;
            }
            return Some(role_map[i].target.as_str().to_owned());
        }
        i += 1;
    }
    None
}

/// Byte-wise lexicographic order, as `String`'s `Ord` compares.
pub open spec fn bytes_lt(a: Seq<u8>, b: Seq<u8>) -> bool
    decreases a.len(),
{
    if a.len() == 0 {
        b.len() > 0
    } else if b.len() == 0 {
        false
    } else if a[0] != b[0] {
        a[0] < b[0]
    } else {
        bytes_lt(a.drop_first(), b.drop_first())
    }
}

pub proof fn lemma_bytes_lt_irrefl(a: Seq<u8>)
    ensures
        !bytes_lt(a, a),
    decreases a.len(),
{
    if a.len() > 0 {
        lemma_bytes_lt_irrefl(a.drop_first());
    }
}

pub proof fn lemma_bytes_lt_asym(a: Seq<u8>, b: Seq<u8>)
    ensures
        bytes_lt(a, b) ==> !bytes_lt(b, a),
    decreases a.len(),
{
    if a.len() > 0 && b.len() > 0 && a[0] == b[0] {
        lemma_bytes_lt_asym(a.drop_first(), b.drop_first());
    }
}

pub proof fn lemma_bytes_lt_trans(a: Seq<u8>, b: Seq<u8>, c: Seq<u8>)
    ensures
        bytes_lt(a, b) && bytes_lt(b, c) ==> bytes_lt(a, c),
    decreases a.len(),
{
    if a.len() > 0 && b.len() > 0 && c.len() > 0 && a[0] == b[0] && b[0] == c[0] {
        lemma_bytes_lt_trans(a.drop_first(), b.drop_first(), c.drop_first());
    }
}

pub proof fn lemma_bytes_lt_total(a: Seq<u8>, b: Seq<u8>)
    ensures
        a == b || bytes_lt(a, b) || bytes_lt(b, a),
    decreases a.len(),
{
    if a.len() > 0 && b.len() > 0 && a[0] == b[0] {
        let ta = a.subrange(1, a.len() as int);
        let tb = b.subrange(1, b.len() as int);
        assert(ta =~= a.drop_first());
        assert(tb =~= b.drop_first());
        lemma_bytes_lt_total(ta, tb);
        if ta == tb {
            assert forall|i: int| 0 <= i < a.len() implies a[i] == b[i] by {
                if i > 0 {
                    assert(a[i] == ta[i - 1]);
                    assert(b[i] == tb[i - 1]);
                }
            }
            assert(a =~= b);
        }
    } else if a.len() == 0 && b.len() == 0 {
        assert(a =~= b);
    }
}

/// Text ordered as `str` orders it: byte-wise on the UTF-8 form.
pub open spec fn code_lt(a: Seq<char>, b: Seq<char>) -> bool {
    bytes_lt(encode_utf8(a), encode_utf8(b))
}

pub proof fn lemma_code_order(a: Seq<char>, b: Seq<char>)
    ensures
        !code_lt(a, a),
        code_lt(a, b) ==> !code_lt(b, a),
        a == b || code_lt(a, b) || code_lt(b, a),
{
    lemma_bytes_lt_irrefl(encode_utf8(a));
    lemma_bytes_lt_asym(encode_utf8(a), encode_utf8(b));
    lemma_bytes_lt_total(encode_utf8(a), encode_utf8(b));
    encode_utf8_decode_utf8(a);
    encode_utf8_decode_utf8(b);
}

pub proof fn lemma_code_trans(a: Seq<char>, b: Seq<char>, c: Seq<char>)
    ensures
        code_lt(a, b) && code_lt(b, c) ==> code_lt(a, c),
{
    lemma_bytes_lt_trans(encode_utf8(a), encode_utf8(b), encode_utf8(c));
}

pub fn code_less(a: &String, b: &String) -> (r: bool)
    ensures
        r == code_lt(a@, b@),
{
    bytes_less(a.as_str().as_bytes(), b.as_str().as_bytes())
}

pub(crate) fn bytes_less(a: &[u8], b: &[u8]) -> (r: bool)
    ensures
        r == bytes_lt(a@, b@),
{
    let mut i: usize = 0;
    proof {
        assert(a@.skip(0) =~= a@);
        assert(b@.skip(0) =~= b@);
    }
    while i < a.len() && i < b.len()
        invariant
            i <= a.len(),
            i <= b.len(),
            bytes_lt(a@, b@) == bytes_lt(a@.skip(i as int), b@.skip(i as int)),
        decreases a.len() - i,
    {
        if a[i] != b[i] {
            proof {
                assert(a@.skip(i as int)[0] == a@[i as int]);
                assert(b@.skip(i as int)[0] == b@[i as int]);
            }
            return a[i] < b[i];
        }
        proof {
            assert(a@.skip(i as int).drop_first() =~= a@.skip(i + 1));
            assert(b@.skip(i as int).drop_first() =~= b@.skip(i + 1));
            assert(a@.skip(i as int)[0] == a@[i as int]);
            assert(b@.skip(i as int)[0] == b@[i as int]);
        }
        i += 1;
    }
    proof {
        if i == a.len() {
            assert(a@.skip(i as int).len() == 0);
        }
    }
    i == a.len() && i < b.len()
}

/// `a` sorts after `b`: by source, then by target, byte-wise.
pub open spec fn role_after(a: (Seq<char>, Seq<char>), b: (Seq<char>, Seq<char>)) -> bool {
    bytes_lt(encode_utf8(b.0), encode_utf8(a.0)) || (encode_utf8(a.0) == encode_utf8(b.0) && bytes_lt(
        encode_utf8(b.1),
        encode_utf8(a.1),
    ))
}

fn role_is_after(a: &TaggedRoleMapEntry, b: &TaggedRoleMapEntry) -> (r: bool)
    ensures
        r == role_after((a.source@, a.target@), (b.source@, b.target@)),
{
    let a0 = a.source.as_str().as_bytes();
    let a1 = a.target.as_str().as_bytes();
    let b0 = b.source.as_str().as_bytes();
    let b1 = b.target.as_str().as_bytes();
    bytes_less(b0, a0) || (crate::primitive::bytes_equal(a0, b0) && bytes_less(b1, a1))
}

pub open spec fn role_position(s: Seq<(Seq<char>, Seq<char>)>, x: (Seq<char>, Seq<char>), from: int) -> int
    decreases s.len() - from,
{
    if from < 0 || from >= s.len() {
        s.len() as int
    } else if role_after(s[from], x) {
        from
    } else {
        role_position(s, x, from + 1)
    }
}

proof fn lemma_role_position(s: Seq<(Seq<char>, Seq<char>)>, x: (Seq<char>, Seq<char>), from: int)
    requires
        0 <= from <= s.len(),
    ensures
        from <= role_position(s, x, from) <= s.len(),
    decreases s.len() - from,
{
    if from < s.len() && !role_after(s[from], x) {
        lemma_role_position(s, x, from + 1);
    }
}

/// Stable sort of role-map entries by (source, target).
pub open spec fn sort_roles(s: Seq<(Seq<char>, Seq<char>)>) -> Seq<(Seq<char>, Seq<char>)>
    decreases s.len(),
{
    if s.len() == 0 {
        Seq::empty()
    } else {
        let prev = sort_roles(s.drop_last());
        prev.insert(role_position(prev, s.last(), 0), s.last())
    }
}

proof fn lemma_sort_roles_len(s: Seq<(Seq<char>, Seq<char>)>)
    ensures
        sort_roles(s).len() == s.len(),
    decreases s.len(),
{
    if s.len() > 0 {
        lemma_sort_roles_len(s.drop_last());
        lemma_role_position(sort_roles(s.drop_last()), s.last(), 0);
    }
}

/// Drops each entry equal to the one before it.
pub open spec fn dedup_roles(s: Seq<(Seq<char>, Seq<char>)>) -> Seq<(Seq<char>, Seq<char>)>
    decreases s.len(),
{
    if s.len() == 0 {
        Seq::empty()
    } else {
        let prev = dedup_roles(s.drop_last());
        if s.len() >= 2 && s[s.len() - 2] == s.last() {
            prev
        } else {
            prev.push(s.last())
        }
    }
}

fn sort_role_entries(entries: Vec<TaggedRoleMapEntry>) -> (r: Vec<TaggedRoleMapEntry>)
    ensures
        role_views(r@) == sort_roles(role_views(entries@)),
{
    let ghost orig = role_views(entries@);
    let _n = entries.len();
    let mut rest = entries;
    let mut out: Vec<TaggedRoleMapEntry> = Vec::new();
    let mut done: usize = 0;
    proof {
        assert(role_views(out@) =~= sort_roles(orig.take(0)));
        assert(role_views(rest@) =~= orig.skip(0));
    }
    while rest.len() > 0
        invariant
            orig.len() == done + rest@.len(),
            orig.len() <= usize::MAX,
            role_views(out@) == sort_roles(orig.take(done as int)),
            role_views(rest@) == orig.skip(done as int),
        decreases rest.len(),
    {
        let ghost old_rest = rest@;
        let item = rest.remove(0);
        proof {
            assert forall|j: int| 0 <= j < rest@.len() implies role_views(rest@)[j] == orig.skip(done + 1)[j] by {
                assert(rest@[j] == old_rest[j + 1]);
                assert(role_views(old_rest)[j + 1] == orig.skip(done as int)[j + 1]);
            }
            assert(role_views(rest@) =~= orig.skip(done + 1));
            assert((item.source@, item.target@) == orig[done as int]) by {
                assert(orig.skip(done as int)[0] == orig[done as int]);
            }
            lemma_sort_roles_len(orig.take(done as int));
        }
        let mut pos: usize = 0;
        while pos < out.len() && !role_is_after(&out[pos], &item)
            invariant
                pos <= out.len(),
                role_position(role_views(out@), (item.source@, item.target@), 0) == role_position(
                    role_views(out@),
                    (item.source@, item.target@),
                    pos as int,
                ),
            decreases out.len() - pos,
        {
            pos += 1;
        }
        let ghost before = role_views(out@);
        out.insert(pos, item);
        proof {
            assert(role_views(out@) =~= before.insert(pos as int, (item.source@, item.target@)));
            assert(orig.take(done + 1).drop_last() =~= orig.take(done as int));
            assert(orig.take(done + 1).last() == orig[done as int]);
        }
        done += 1;
    }
    proof {
        assert(orig.take(done as int) =~= orig);
    }
    out
}

fn dedup_role_entries(entries: Vec<TaggedRoleMapEntry>) -> (r: Vec<TaggedRoleMapEntry>)
    ensures
        role_views(r@) == dedup_roles(role_views(entries@)),
{
    let ghost orig = role_views(entries@);
    let _n = entries.len();
    let mut rest = entries;
    let mut out: Vec<TaggedRoleMapEntry> = Vec::new();
    let mut done: usize = 0;
    proof {
        assert(role_views(out@) =~= dedup_roles(orig.take(0)));
        assert(role_views(rest@) =~= orig.skip(0));
    }
    while rest.len() > 0
        invariant
            orig.len() == done + rest@.len(),
            orig.len() <= usize::MAX,
            role_views(out@) == dedup_roles(orig.take(done as int)),
            role_views(rest@) == orig.skip(done as int),
            done > 0 ==> out@.len() > 0 && (out@.last().source@, out@.last().target@) == orig[done - 1],
        decreases rest.len(),
    {
        let ghost old_rest = rest@;
        let item = rest.remove(0);
        proof {
            assert forall|j: int| 0 <= j < rest@.len() implies role_views(rest@)[j] == orig.skip(done + 1)[j] by {
                assert(rest@[j] == old_rest[j + 1]);
                assert(role_views(old_rest)[j + 1] == orig.skip(done as int)[j + 1]);
            }
            assert(role_views(rest@) =~= orig.skip(done + 1));
            assert((item.source@, item.target@) == orig[done as int]) by {
                assert(orig.skip(done as int)[0] == orig[done as int]);
            }
            let t = orig.take(done + 1);
            assert(t.drop_last() =~= orig.take(done as int));
            assert(t.last() == orig[done as int]);
            if done >= 1 {
                assert(t[t.len() - 2] == orig[done - 1]);
            }
        }
        let n = out.len();
        let duplicate = n > 0 && same_string(&out[n - 1].source, &item.source) && same_string(
            &out[n - 1].target,
            &item.target,
        );
        if !duplicate {
            let ghost before = role_views(out@);
            out.push(item);
            proof {
                assert(role_views(out@) =~= before.push((item.source@, item.target@)));
            }
        }
        done += 1;
    }
    proof {
        assert(orig.take(done as int) =~= orig);
    }
    out
}

/// The value of the first object with id `id`, parsed with `limits`.
pub open spec fn value_of_object(objs: Seq<ObjectRecord>, id: ObjectId, limits: ResourceLimits) -> Option<PrimitiveView> {
    match first_record(objs, id, 0) {
        Some(i) => object_value(objs[i].body, limits),
        None => None,
    }
}

fn find_object<'a>(document: &'a PdfDocument, id: ObjectId) -> (r: Option<&'a PdfObject>)
    ensures
        match first_record(records(document.objects@), id, 0) {
            Some(i) => r matches Some(o) && o.view() == records(document.objects@)[i],
            None => r is None,
        },
{
    let ghost objs = records(document.objects@);
    let mut i: usize = 0;
    while i < document.objects.len()
        invariant
            i <= document.objects.len(),
            objs == records(document.objects@),
            first_record(objs, id, 0) == first_record(objs, id, i as int),
        decreases document.objects.len() - i,
    {
        assert(objs[i as int] == document.objects@[i as int].view());
        if document.objects[i].id == id {
            return Some(&document.objects[i]);
        }
        i += 1;
    }
    None
}

/// Role-map entries read from the first `m` dictionary entries, and the
/// diagnostics for entries that do not map to a name.
pub open spec fn role_entries(es: Seq<(Seq<u8>, PrimitiveView)>, m: int, root: ObjectId, diags: Seq<DiagView>) -> (Seq<(Seq<char>, Seq<char>)>, Seq<DiagView>)
    decreases m,
{
    if m <= 0 {
        (Seq::empty(), diags)
    } else {
        let (roles, ds) = role_entries(es, m - 1, root, diags);
        match es[m - 1].1 {
            PrimitiveView::Name(t) => (roles.push((utf8_lossy(es[m - 1].0), utf8_lossy(t))), ds),
            _ => (
                roles,
                ds.push(
                    object_warning(
                        "TAGGED_ROLE_MAP_MALFORMED"@,
                        "tagged /RoleMap entry /"@ + utf8_lossy(es[m - 1].0) + " does not map to a name"@,
                        root,
                    ),
                ),
            ),
        }
    }
}

/// The role map of the structure tree root: its entries sorted, without
/// repeats.
pub open spec fn role_map_spec(objs: Seq<ObjectRecord>, root: ObjectId, limits: ResourceLimits, diags: Seq<DiagView>) -> (Seq<(Seq<char>, Seq<char>)>, Seq<DiagView>) {
    match value_of_object(objs, root, limits) {
        None => (Seq::empty(), diags),
        Some(v) => match dict_lookup(v, utf8("RoleMap")) {
            None => (Seq::empty(), diags),
            Some(PrimitiveView::Dictionary(es)) => {
                let (roles, ds) = role_entries(es, es.len() as int, root, diags);
                (dedup_roles(sort_roles(roles)), ds)
            },
            Some(_) => (
                Seq::empty(),
                diags.push(
                    object_warning("TAGGED_ROLE_MAP_MALFORMED"@, "tagged /RoleMap is not a dictionary"@, root),
                ),
            ),
        },
    }
}

fn parse_structure_role_map(
    document: &PdfDocument,
    root_object_id: ObjectId,
    config: ParseConfig,
    diagnostics: &mut Vec<Diagnostic>,
) -> (r: Vec<TaggedRoleMapEntry>)
    ensures
        role_map_spec(records(document.objects@), root_object_id, config.limits, diag_views(old(diagnostics)@)) == (
            role_views(r@),
            diag_views(final(diagnostics)@),
        ),
{
    proof {
        assert(role_views(Seq::<TaggedRoleMapEntry>::empty()) =~= Seq::<(Seq<char>, Seq<char>)>::empty());
    }
    let root_object = match find_object(document, root_object_id) {
        Some(o) => o,
        None => return Vec::new(),
    };
    let root_value = match parse_object_value(root_object, config) {
        Ok(v) => v,
        Err(_) => return Vec::new(),
    };
    let entries = match dictionary_value(&root_value, "RoleMap".as_bytes()) {
        None => return Vec::new(),
        Some(PdfPrimitive::Dictionary(entries)) => entries,
        Some(_) => {
            push_warning(diagnostics, "TAGGED_ROLE_MAP_MALFORMED", "tagged /RoleMap is not a dictionary", root_object_id);
            return Vec::new();
        },
    };
    let ghost es = deep_entries(entries@);
    proof {
        lemma_deep_entries_len(entries@);
    }
    let ghost d0 = diag_views(diagnostics@);
    let mut roles: Vec<TaggedRoleMapEntry> = Vec::new();
    let mut i: usize = 0;
    while i < entries.len()
        invariant
            i <= entries.len(),
            es == deep_entries(entries@),
            es.len() == entries.len(),
            role_entries(es, i as int, root_object_id, d0) == (role_views(roles@), diag_views(diagnostics@)),
        decreases entries.len() - i,
    {
        proof {
            lemma_deep_entries_index(entries@, i as int);
        }
        let source = &entries[i].0;
        match &entries[i].1 {
            PdfPrimitive::Name(target) => {
                let entry = TaggedRoleMapEntry {
                    source: lossy_string(source.as_slice()),
                    target: lossy_string(target.as_slice()),
                };
                let ghost before = role_views(roles@);
                roles.push(entry);
                proof {
                    assert(role_views(roles@) =~= before.push((entry.source@, entry.target@)));
                }
            },
            _ => {
                let text = lossy_string(source.as_slice());
                let message = concat(&["tagged /RoleMap entry /", text.as_str(), " does not map to a name"]);
                proof {
                    reveal_with_fuel(crate::fmt::concat_spec, 4);
                }
                push_warning(diagnostics, "TAGGED_ROLE_MAP_MALFORMED", message.as_str(), root_object_id);
            },
        }
        i += 1;
    }
    let sorted = sort_role_entries(roles);
    dedup_role_entries(sorted)
}

/// Elements and marked-content ids found under a structure value, with the
/// diagnostics gathered so far.
pub struct SOut {
    pub elements: Seq<ElementView>,
    pub mcids: Seq<usize>,
    pub diags: Seq<DiagView>,
}

pub open spec fn empty_out(diags: Seq<DiagView>) -> SOut {
    SOut { elements: Seq::empty(), mcids: Seq::empty(), diags }
}

/// `depth + 1`, saturating at `usize::MAX`.
pub open spec fn sat_inc(depth: int) -> int {
    if depth >= usize::MAX {
        depth
    } else {
        depth + 1
    }
}

/// References left before the depth limit.
pub open spec fn fuel(depth: int, max: int) -> int {
    if depth <= max + 1 {
        max + 1 - depth
    } else {
        0
    }
}

/// A reference `refv` to object `id` in the structure tree; the
/// diagnostics in the result are those this reference gives rise to.
pub open spec fn s_reference(
    objs: Seq<ObjectRecord>,
    roles: Seq<(Seq<char>, Seq<char>)>,
    limits: ResourceLimits,
    refv: PrimitiveView,
    id: ObjectId,
    depth: int,
    seen: Seq<ObjectId>,
) -> SOut
    decreases fuel(depth, limits.max_indirect_depth as int), refv, 0int, 0int,
{
    let max = limits.max_indirect_depth as int;
    if depth > max || depth >= usize::MAX {
        empty_out(
            seq![
                object_warning(
                    "TAGGED_STRUCTURE_DEPTH_LIMIT"@,
                    "tagged structure exceeds reference depth limit of "@ + decimal_chars(max as nat),
                    id,
                ),
            ],
        )
    } else if seen.contains(id) {
        empty_out(
            seq![
                object_warning(
                    "TAGGED_STRUCTURE_CYCLE"@,
                    "tagged structure contains a cycle at object "@ + decimal_chars(id.number as nat),
                    id,
                ),
            ],
        )
    } else {
        match first_record(objs, id, 0) {
            None => empty_out(
                seq![
                    object_warning(
                        "TAGGED_STRUCTURE_MISSING_OBJECT"@,
                        "tagged structure references missing object "@ + decimal_chars(id.number as nat),
                        id,
                    ),
                ],
            ),
            Some(i) => match object_value(objs[i].body, limits) {
                None => empty_out(seq![free_warning("TAGGED_STRUCTURE_MALFORMED"@, id)]),
                Some(v) => s_value(objs, roles, limits, v, Some(id), depth + 1, seen.push(id)),
            },
        }
    }
}

/// A structure value: a reference, an array of kids, an MCID or a
/// structure element dictionary.
pub open spec fn s_value(
    objs: Seq<ObjectRecord>,
    roles: Seq<(Seq<char>, Seq<char>)>,
    limits: ResourceLimits,
    v: PrimitiveView,
    obj: Option<ObjectId>,
    depth: int,
    seen: Seq<ObjectId>,
) -> SOut
    decreases fuel(depth, limits.max_indirect_depth as int), v, 2int, 0int,
{
    match v {
        PrimitiveView::Reference(id) => s_reference(objs, roles, limits, v, id, depth, seen),
        PrimitiveView::Array(items) => s_items(objs, roles, limits, items, 0, depth, seen, empty_out(Seq::empty())),
        PrimitiveView::Integer(m) => if 0 <= m <= usize::MAX {
            SOut { elements: Seq::empty(), mcids: seq![m as usize], diags: Seq::empty() }
        } else {
            match obj {
                Some(o) => empty_out(
                    seq![
                        object_warning(
                            "TAGGED_STRUCTURE_MALFORMED"@,
                            "tagged structure contains a negative MCID"@,
                            o,
                        ),
                    ],
                ),
                None => empty_out(Seq::empty()),
            }
        },
        PrimitiveView::Dictionary(_) => s_dict(objs, roles, limits, v, obj, depth, seen),
        _ => empty_out(Seq::empty()),
    }
}

/// The kids `items[i..]`, after `acc`.
pub open spec fn s_items(
    objs: Seq<ObjectRecord>,
    roles: Seq<(Seq<char>, Seq<char>)>,
    limits: ResourceLimits,
    items: Seq<PrimitiveView>,
    i: int,
    depth: int,
    seen: Seq<ObjectId>,
    acc: SOut,
) -> SOut
    decreases fuel(depth, limits.max_indirect_depth as int), items, 1int, items.len() - i,
{
    if i < 0 || i >= items.len() {
        acc
    } else {
        let child = s_value(objs, roles, limits, items[i], None, depth, seen);
        s_items(
            objs,
            roles,
            limits,
            items,
            i + 1,
            depth,
            seen,
            SOut {
                elements: acc.elements + child.elements,
                mcids: acc.mcids + child.mcids,
                diags: acc.diags + child.diags,
            },
        )
    }
}

/// A structure dictionary: a marked-content reference (`/MCID`), or an
/// element (`/S`) with its kids (`/K`).
pub open spec fn s_dict(
    objs: Seq<ObjectRecord>,
    roles: Seq<(Seq<char>, Seq<char>)>,
    limits: ResourceLimits,
    v: PrimitiveView,
    obj: Option<ObjectId>,
    depth: int,
    seen: Seq<ObjectId>,
) -> SOut
    decreases fuel(depth, limits.max_indirect_depth as int), v, 1int, 0int,
{
    match dict_lookup(v, utf8("MCID")) {
        Some(PrimitiveView::Integer(m)) => if 0 <= m <= usize::MAX {
            SOut { elements: Seq::empty(), mcids: seq![m as usize], diags: Seq::empty() }
        } else {
            empty_out(Seq::empty())
        },
        _ => {
            let children = match dict_lookup(v, utf8("K")) {
                Some(k) => {
                    proof {
                        crate::primitive::lemma_lookup_decreases(v, utf8("K"));
                        assert(fuel(sat_inc(depth), limits.max_indirect_depth as int) <= fuel(
                            depth,
                            limits.max_indirect_depth as int,
                        ));
                    }
                    s_value(objs, roles, limits, k, None, sat_inc(depth), seen)
                },
                None => empty_out(Seq::empty()),
            };
            match dict_lookup(v, utf8("S")) {
                Some(PrimitiveView::Name(st)) => SOut {
                    elements: seq![
                        ElementView {
                            object_id: obj,
                            structure_type: utf8_lossy(st),
                            mapped_structure_type: mapped_spec(utf8_lossy(st), roles, 0),
                            mcids: children.mcids,
                            children: children.elements,
                        },
                    ],
                    mcids: Seq::empty(),
                    diags: children.diags,
                },
                _ => children,
            }
        },
    }
}

/// `actual` agrees with `before` followed by the diagnostics of `out`, and
/// `r` found what `out` says.
pub open spec fn parsed_as(r: StructureParseResult, before: Seq<Diagnostic>, actual: Seq<Diagnostic>, out: SOut) -> bool {
    &&& element_views(r.elements@) == out.elements
    &&& r.mcids@ == out.mcids
    &&& diags_agree(diag_views(actual), diag_views(before) + out.diags)
}

proof fn lemma_agree_trans(a: Seq<DiagView>, b: Seq<DiagView>, c: Seq<DiagView>)
    requires
        diags_agree(a, b),
        diags_agree(b, c),
    ensures
        diags_agree(a, c),
{
    assert forall|i: int| 0 <= i < a.len() implies diag_agrees(#[trigger] a[i], c[i]) by {
        assert(diag_agrees(a[i], b[i]));
        assert(diag_agrees(b[i], c[i]));
    }
}

proof fn lemma_agree_refl(a: Seq<DiagView>)
    ensures
        diags_agree(a, a),
{
    assert forall|i: int| 0 <= i < a.len() implies diag_agrees(#[trigger] a[i], a[i]) by {}
}

proof fn lemma_agree_append(a: Seq<DiagView>, b: Seq<DiagView>, c: Seq<DiagView>)
    requires
        diags_agree(a, b),
    ensures
        diags_agree(a + c, b + c),
{
    assert forall|i: int| 0 <= i < (a + c).len() implies diag_agrees(#[trigger] (a + c)[i], (b + c)[i]) by {
        if i < a.len() {
            assert((a + c)[i] == a[i]);
            assert((b + c)[i] == b[i]);
        } else {
            assert((a + c)[i] == c[i - a.len()]);
            assert((b + c)[i] == c[i - b.len()]);
        }
    }
}

/// What parsing a structure value found.
pub struct StructureParseResult {
    pub elements: Vec<TaggedStructureElement>,
    pub mcids: Vec<usize>,
}


proof fn lemma_element_views_push(s: Seq<TaggedStructureElement>, x: TaggedStructureElement)
    ensures
        element_views(s.push(x)) == element_views(s).push(x.view()),
{
    assert(s.push(x).subrange(0, s.len() as int) =~= s);
}

proof fn lemma_element_views_append(a: Seq<TaggedStructureElement>, b: Seq<TaggedStructureElement>)
    ensures
        element_views(a + b) == element_views(a) + element_views(b),
    decreases b.len(),
{
    if b.len() == 0 {
        assert(a + b =~= a);
        assert(element_views(b) =~= Seq::<ElementView>::empty());
        assert(element_views(a) + element_views(b) =~= element_views(a));
    } else {
        let b2 = b.subrange(0, b.len() - 1);
        lemma_element_views_append(a, b2);
        assert((a + b).subrange(0, (a + b).len() - 1) =~= a + b2);
        assert((a + b)[(a + b).len() - 1] == b[b.len() - 1]);
        assert(element_views(a) + element_views(b) =~= (element_views(a) + element_views(b2)).push(
            b[b.len() - 1].view(),
        ));
    }
}

fn empty_result() -> (r: StructureParseResult)
    ensures
        element_views(r.elements@) == Seq::<ElementView>::empty(),
        r.mcids@ == Seq::<usize>::empty(),
{
    let r = StructureParseResult { elements: Vec::new(), mcids: Vec::new() };
    proof {
        assert(element_views(r.elements@) =~= Seq::<ElementView>::empty());
    }
    r
}

fn contains_id(seen: &Vec<ObjectId>, id: ObjectId) -> (r: bool)
    ensures
        r == seen@.contains(id),
{
    let mut i: usize = 0;
    while i < seen.len()
        invariant
            i <= seen.len(),
            forall|j: int| 0 <= j < i ==> seen@[j] != id,
        decreases seen.len() - i,
    {
        if seen[i] == id {
            return true;
        }
        i += 1;
    }
    false
}

proof fn lemma_pushed(before: Seq<Diagnostic>, actual: Seq<Diagnostic>, w: DiagView)
    requires
        diag_views(actual) == diag_views(before).push(w),
    ensures
        diags_agree(diag_views(actual), diag_views(before) + seq![w]),
{
    assert(diag_views(before) + seq![w] =~= diag_views(before).push(w));
    lemma_agree_refl(diag_views(actual));
}

proof fn lemma_nothing(before: Seq<Diagnostic>)
    ensures
        diags_agree(diag_views(before), diag_views(before) + Seq::<DiagView>::empty()),
{
    assert(diag_views(before) + Seq::<DiagView>::empty() =~= diag_views(before));
    lemma_agree_refl(diag_views(before));
}

fn parse_structure_reference(
    document: &PdfDocument,
    reference: &PdfPrimitive,
    object_id: ObjectId,
    depth: usize,
    seen: &mut Vec<ObjectId>,
    config: ParseConfig,
    role_map: &Vec<TaggedRoleMapEntry>,
    diagnostics: &mut Vec<Diagnostic>,
) -> (r: StructureParseResult)
    ensures
        parsed_as(
            r,
            old(diagnostics)@,
            final(diagnostics)@,
            s_reference(
                records(document.objects@),
                role_views(role_map@),
                config.limits,
                reference.deep(),
                object_id,
                depth as int,
                old(seen)@,
            ),
        ),
        final(seen)@ == old(seen)@,
    decreases fuel(depth as int, config.limits.max_indirect_depth as int), reference.deep(), 0int, 0int,
{
    let ghost before = diagnostics@;
    let max = config.limits.max_indirect_depth;
    if depth > max || depth == usize::MAX {
        let m = usize_to_string(max);
        let message = concat2("tagged structure exceeds reference depth limit of ", m.as_str());
        push_warning(diagnostics, "TAGGED_STRUCTURE_DEPTH_LIMIT", message.as_str(), object_id);
        proof {
            lemma_pushed(before, diagnostics@, object_warning("TAGGED_STRUCTURE_DEPTH_LIMIT"@, message@, object_id));
        }
        return empty_result();
    }
    if contains_id(seen, object_id) {
        let n = usize_to_string(object_id.number as usize);
        let message = concat2("tagged structure contains a cycle at object ", n.as_str());
        push_warning(diagnostics, "TAGGED_STRUCTURE_CYCLE", message.as_str(), object_id);
        proof {
            lemma_pushed(before, diagnostics@, object_warning("TAGGED_STRUCTURE_CYCLE"@, message@, object_id));
        }
        return empty_result();
    }
    let object = match find_object(document, object_id) {
        Some(o) => o,
        None => {
            let n = usize_to_string(object_id.number as usize);
            let message = concat2("tagged structure references missing object ", n.as_str());
            push_warning(diagnostics, "TAGGED_STRUCTURE_MISSING_OBJECT", message.as_str(), object_id);
            proof {
                lemma_pushed(before, diagnostics@, object_warning("TAGGED_STRUCTURE_MISSING_OBJECT"@, message@, object_id));
            }
            return empty_result();
        },
    };
    let value = match parse_object_value(object, config) {
        Ok(v) => v,
        Err(error) => {
            let n = usize_to_string(object_id.number as usize);
            let shown = error.to_display_string();
            let message = concat(&["tagged structure object ", n.as_str(), " could not be parsed: ", shown.as_str()]);
            let d = Diagnostic::warning("TAGGED_STRUCTURE_MALFORMED", message.as_str()).with_object(object_id);
            diagnostics.push(d);
            proof {
                let w = free_warning("TAGGED_STRUCTURE_MALFORMED"@, object_id);
                assert(diag_views(diagnostics@) =~= diag_views(before).push(d.view()));
                assert(diag_views(before) + seq![w] =~= diag_views(before).push(w));
                assert forall|i: int| 0 <= i < diag_views(diagnostics@).len() implies diag_agrees(
                    #[trigger] diag_views(diagnostics@)[i],
                    (diag_views(before) + seq![w])[i],
                ) by {}
            }
            return empty_result();
        },
    };
    seen.push(object_id);
    let result = parse_structure_value(document, &value, Some(object_id), depth + 1, seen, config, role_map, diagnostics);
    seen.pop();
    proof {
        assert(seen@ =~= old(seen)@);
    }
    result
}

fn parse_structure_value(
    document: &PdfDocument,
    value: &PdfPrimitive,
    object_id: Option<ObjectId>,
    depth: usize,
    seen: &mut Vec<ObjectId>,
    config: ParseConfig,
    role_map: &Vec<TaggedRoleMapEntry>,
    diagnostics: &mut Vec<Diagnostic>,
) -> (r: StructureParseResult)
    ensures
        parsed_as(
            r,
            old(diagnostics)@,
            final(diagnostics)@,
            s_value(
                records(document.objects@),
                role_views(role_map@),
                config.limits,
                value.deep(),
                object_id,
                depth as int,
                old(seen)@,
            ),
        ),
        final(seen)@ == old(seen)@,
    decreases fuel(depth as int, config.limits.max_indirect_depth as int), value.deep(), 2int, 0int,
{
    let ghost before = diagnostics@;
    let ghost objs = records(document.objects@);
    let ghost roles = role_views(role_map@);
    match value {
        PdfPrimitive::Reference(id) => {
            parse_structure_reference(document, value, *id, depth, seen, config, role_map, diagnostics)
        },
        PdfPrimitive::Array(items) => {
            let ghost iv = deep_seq(items@);
            proof {
                lemma_deep_seq_len(items@);
            }
            let ghost s0 = seen@;
            let mut result = empty_result();
            let ghost mut acc_diags: Seq<DiagView> = Seq::empty();
            proof {
                lemma_nothing(before);
            }
            let mut i: usize = 0;
            while i < items.len()
                invariant
                    i <= items.len(),
                    iv == deep_seq(items@),
                    iv.len() == items.len(),
                    value.deep() == PrimitiveView::Array(iv),
                    seen@ == s0,
                    s0 == old(seen)@,
                    before == old(diagnostics)@,
                    objs == records(document.objects@),
                    roles == role_views(role_map@),
                    s_items(objs, roles, config.limits, iv, 0, depth as int, s0, empty_out(Seq::empty())) == s_items(
                        objs,
                        roles,
                        config.limits,
                        iv,
                        i as int,
                        depth as int,
                        s0,
                        SOut { elements: element_views(result.elements@), mcids: result.mcids@, diags: acc_diags },
                    ),
                    diags_agree(diag_views(diagnostics@), diag_views(before) + acc_diags),
                decreases items.len() - i,
            {
                proof {
                    lemma_deep_seq_index(items@, i as int);
                    assert(decreases_to!(value.deep() => value.deep()->Array_0));
                    assert(decreases_to!(iv => iv[i as int]));
                }
                let ghost mid = diagnostics@;
                let child = parse_structure_value(document, &items[i], None, depth, seen, config, role_map, diagnostics);
                let ghost cs = s_value(objs, roles, config.limits, iv[i as int], None, depth as int, s0);
                let mut child = child;
                let ghost el0 = result.elements@;
                let ghost ce = child.elements@;
                result.elements.append(&mut child.elements);
                result.mcids.append(&mut child.mcids);
                proof {
                    lemma_element_views_append(el0, ce);
                    assert(result.elements@ =~= el0 + ce);
                    lemma_agree_append(diag_views(mid), diag_views(before) + acc_diags, cs.diags);
                    assert(diag_views(before) + acc_diags + cs.diags =~= diag_views(before) + (acc_diags + cs.diags));
                    lemma_agree_trans(diag_views(diagnostics@), diag_views(mid) + cs.diags, diag_views(before) + (acc_diags + cs.diags));
                    acc_diags = acc_diags + cs.diags;
                }
                i += 1;
            }
            result
        },
        PdfPrimitive::Integer(mcid) => {
            proof {
                lemma_nothing(before);
            }
            if *mcid >= 0 && (*mcid as u64) <= (usize::MAX as u64) {
                let mut mcids = Vec::new();
                mcids.push(*mcid as usize);
                let r = StructureParseResult { elements: Vec::new(), mcids };
                proof {
                    assert(element_views(r.elements@) =~= Seq::<ElementView>::empty());
                    assert(r.mcids@ =~= seq![*mcid as usize]);
                }
                r
            } else {
                if let Some(o) = object_id {
                    push_warning(diagnostics, "TAGGED_STRUCTURE_MALFORMED", "tagged structure contains a negative MCID", o);
                    proof {
                        lemma_pushed(before, diagnostics@, object_warning(
                            "TAGGED_STRUCTURE_MALFORMED"@,
                            "tagged structure contains a negative MCID"@,
                            o,
                        ));
                    }
                }
                empty_result()
            }
        },
        PdfPrimitive::Dictionary(_) => {
            parse_structure_dictionary(document, value, object_id, depth, seen, config, role_map, diagnostics)
        },
        _ => {
            proof {
                lemma_nothing(before);
            }
            empty_result()
        },
    }
}

fn parse_structure_dictionary(
    document: &PdfDocument,
    value: &PdfPrimitive,
    object_id: Option<ObjectId>,
    depth: usize,
    seen: &mut Vec<ObjectId>,
    config: ParseConfig,
    role_map: &Vec<TaggedRoleMapEntry>,
    diagnostics: &mut Vec<Diagnostic>,
) -> (r: StructureParseResult)
    ensures
        parsed_as(
            r,
            old(diagnostics)@,
            final(diagnostics)@,
            s_dict(
                records(document.objects@),
                role_views(role_map@),
                config.limits,
                value.deep(),
                object_id,
                depth as int,
                old(seen)@,
            ),
        ),
        final(seen)@ == old(seen)@,
    decreases fuel(depth as int, config.limits.max_indirect_depth as int), value.deep(), 1int, 0int,
{
    let ghost before = diagnostics@;
    if let Some(PdfPrimitive::Integer(mcid)) = dictionary_value(value, "MCID".as_bytes()) {
        proof {
            lemma_nothing(before);
        }
        if *mcid >= 0 && (*mcid as u64) <= (usize::MAX as u64) {
            let mut mcids = Vec::new();
            mcids.push(*mcid as usize);
            let r = StructureParseResult { elements: Vec::new(), mcids };
            proof {
                assert(element_views(r.elements@) =~= Seq::<ElementView>::empty());
                assert(r.mcids@ =~= seq![*mcid as usize]);
            }
            return r;
        }
        return empty_result();
    }
    let children = match dictionary_value(value, "K".as_bytes()) {
        Some(kids) => {
            proof {
                crate::primitive::lemma_lookup_decreases(value.deep(), utf8("K"));
            }
            let next = if depth == usize::MAX { depth } else { depth + 1 };
            parse_structure_value(document, kids, None, next, seen, config, role_map, diagnostics)
        },
        None => {
            proof {
                lemma_nothing(before);
            }
            empty_result()
        },
    };
    match dictionary_value(value, "S".as_bytes()) {
        Some(PdfPrimitive::Name(name)) => {
            let structure_type = lossy_string(name.as_slice());
            let mapped = mapped_structure_type(&structure_type, role_map);
            let element = TaggedStructureElement {
                object_id,
                structure_type,
                mapped_structure_type: mapped,
                mcids: children.mcids,
                children: children.elements,
            };
            let mut elements = Vec::new();
            elements.push(element);
            let r = StructureParseResult { elements, mcids: Vec::new() };
            proof {
                lemma_element_views_push(Seq::<TaggedStructureElement>::empty(), element);
                assert(Seq::<TaggedStructureElement>::empty().push(element) =~= r.elements@);
                assert(element_views(Seq::<TaggedStructureElement>::empty()) =~= Seq::<ElementView>::empty());
            }
            r
        },
        _ => children,
    }
}

/// The object ids among the first `n` items that are references.
pub open spec fn ref_ids(items: Seq<PrimitiveView>, n: int) -> Seq<ObjectId>
    decreases n,
{
    if n <= 0 {
        Seq::empty()
    } else {
        let prev = ref_ids(items, n - 1);
        match items[n - 1] {
            PrimitiveView::Reference(id) => prev.push(id),
            _ => prev,
        }
    }
}

/// The elements a parent-tree value names: the object it refers to, or the
/// references among the items of an array.
pub open spec fn value_ids(v: PrimitiveView) -> Seq<ObjectId> {
    match v {
        PrimitiveView::Reference(id) => seq![id],
        PrimitiveView::Array(items) => ref_ids(items, items.len() as int),
        _ => Seq::empty(),
    }
}

/// Entries of the first `k` key/value pairs of a `/Nums` array: those whose
/// key is a non-negative integer and whose value names an element.
pub open spec fn nums_entries(items: Seq<PrimitiveView>, k: int) -> Seq<(usize, Seq<ObjectId>)>
    decreases k,
{
    if k <= 0 {
        Seq::empty()
    } else {
        let prev = nums_entries(items, k - 1);
        let ids = value_ids(items[2 * k - 1]);
        match items[2 * k - 2] {
            PrimitiveView::Integer(key) => if 0 <= key <= usize::MAX && ids.len() > 0 {
                prev.push((key as usize, ids))
            } else {
                prev
            },
            _ => prev,
        }
    }
}

/// Entries of a `/Nums` value; a trailing key without a value is ignored.
pub open spec fn nums_spec(v: PrimitiveView) -> Seq<(usize, Seq<ObjectId>)> {
    match v {
        PrimitiveView::Array(items) => nums_entries(items, (items.len() / 2) as int),
        _ => Seq::empty(),
    }
}

fn parent_tree_value_object_ids(value: &PdfPrimitive) -> (r: Vec<ObjectId>)
    ensures
        r@ == value_ids(value.deep()),
{
    match value {
        PdfPrimitive::Reference(id) => {
            let mut ids = Vec::new();
            ids.push(*id);
            proof {
                assert(ids@ =~= seq![*id]);
            }
            ids
        },
        PdfPrimitive::Array(items) => {
            let ghost iv = deep_seq(items@);
            proof {
                lemma_deep_seq_len(items@);
            }
            let mut ids: Vec<ObjectId> = Vec::new();
            let mut i: usize = 0;
            while i < items.len()
                invariant
                    i <= items.len(),
                    iv == deep_seq(items@),
                    iv.len() == items.len(),
                    ids@ == ref_ids(iv, i as int),
                decreases items.len() - i,
            {
                proof {
                    lemma_deep_seq_index(items@, i as int);
                }
                if let PdfPrimitive::Reference(id) = &items[i] {
                    ids.push(*id);
                }
                i += 1;
            }
            ids
        },
        _ => Vec::new(),
    }
}

fn parse_parent_tree_nums(value: &PdfPrimitive) -> (r: Vec<TaggedParentTreeEntry>)
    ensures
        parent_views(r@) == nums_spec(value.deep()),
{
    proof {
        assert(parent_views(Seq::<TaggedParentTreeEntry>::empty()) =~= Seq::<(usize, Seq<ObjectId>)>::empty());
    }
    let items = match value {
        PdfPrimitive::Array(items) => items,
        _ => return Vec::new(),
    };
    let ghost iv = deep_seq(items@);
    proof {
        lemma_deep_seq_len(items@);
    }
    let mut entries: Vec<TaggedParentTreeEntry> = Vec::new();
    let pairs = items.len() / 2;
    let mut k: usize = 0;
    while k < pairs
        invariant
            k <= pairs,
            pairs == items.len() / 2,
            iv == deep_seq(items@),
            iv.len() == items.len(),
            parent_views(entries@) == nums_entries(iv, k as int),
        decreases pairs - k,
    {
        proof {
            lemma_deep_seq_index(items@, 2 * k as int);
            lemma_deep_seq_index(items@, 2 * k + 1);
        }
        let key_item = &items[2 * k];
        let ids = parent_tree_value_object_ids(&items[2 * k + 1]);
        if let PdfPrimitive::Integer(key) = key_item {
            if *key >= 0 && (*key as u64) <= (usize::MAX as u64) && ids.len() > 0 {
                let entry = TaggedParentTreeEntry { struct_parent: *key as usize, element_object_ids: ids };
                let ghost before = parent_views(entries@);
                entries.push(entry);
                proof {
                    assert(parent_views(entries@) =~= before.push((entry.struct_parent, entry.element_object_ids@)));
                }
            }
        }
        k += 1;
    }
    entries
}

/// Parent-tree entries under a value, and the diagnostics it gives rise to.
pub open spec fn p_value(
    objs: Seq<ObjectRecord>,
    limits: ResourceLimits,
    v: PrimitiveView,
    depth: int,
    seen: Seq<ObjectId>,
) -> (Seq<(usize, Seq<ObjectId>)>, Seq<DiagView>)
    decreases fuel(depth, limits.max_indirect_depth as int), v, 2int, 0int,
{
    let max = limits.max_indirect_depth as int;
    match v {
        PrimitiveView::Reference(id) => if depth > max || depth >= usize::MAX || seen.contains(id) {
            (
                Seq::empty(),
                seq![
                    object_warning(
                        "TAGGED_PARENT_TREE_LIMIT"@,
                        "tagged parent tree exceeded reference limits or contained a cycle"@,
                        id,
                    ),
                ],
            )
        } else {
            match first_record(objs, id, 0) {
                None => (
                    Seq::empty(),
                    seq![
                        object_warning(
                            "TAGGED_PARENT_TREE_MISSING_OBJECT"@,
                            "tagged parent tree references missing object "@ + decimal_chars(id.number as nat),
                            id,
                        ),
                    ],
                ),
                Some(i) => match object_value(objs[i].body, limits) {
                    None => (
                        Seq::empty(),
                        seq![
                            object_warning(
                                "TAGGED_PARENT_TREE_MALFORMED"@,
                                "tagged parent tree object "@ + decimal_chars(id.number as nat)
                                    + " could not be parsed"@,
                                id,
                            ),
                        ],
                    ),
                    Some(p) => p_value(objs, limits, p, depth + 1, seen.push(id)),
                },
            }
        },
        PrimitiveView::Dictionary(_) => {
            proof {
                assert(fuel(sat_inc(depth), max) <= fuel(depth, max));
            }
            p_dict(objs, limits, v, sat_inc(depth), seen)
        },
        _ => (Seq::empty(), Seq::empty()),
    }
}

/// A parent-tree node: its `/Nums` entries, then those of its `/Kids`.
pub open spec fn p_dict(
    objs: Seq<ObjectRecord>,
    limits: ResourceLimits,
    v: PrimitiveView,
    depth: int,
    seen: Seq<ObjectId>,
) -> (Seq<(usize, Seq<ObjectId>)>, Seq<DiagView>)
    decreases fuel(depth, limits.max_indirect_depth as int), v, 1int, 0int,
{
    let nums = match dict_lookup(v, utf8("Nums")) {
        Some(n) => nums_spec(n),
        None => Seq::empty(),
    };
    match dict_lookup(v, utf8("Kids")) {
        Some(PrimitiveView::Array(kids)) => {
            proof {
                crate::primitive::lemma_lookup_decreases(v, utf8("Kids"));
                assert(decreases_to!(PrimitiveView::Array(kids) => kids));
                assert(fuel(sat_inc(depth), limits.max_indirect_depth as int) <= fuel(
                    depth,
                    limits.max_indirect_depth as int,
                ));
            }
            p_kids(objs, limits, kids, 0, sat_inc(depth), seen, (nums, Seq::empty()))
        },
        _ => (nums, Seq::empty()),
    }
}

/// The entries of `kids[i..]`, after `acc`.
pub open spec fn p_kids(
    objs: Seq<ObjectRecord>,
    limits: ResourceLimits,
    kids: Seq<PrimitiveView>,
    i: int,
    depth: int,
    seen: Seq<ObjectId>,
    acc: (Seq<(usize, Seq<ObjectId>)>, Seq<DiagView>),
) -> (Seq<(usize, Seq<ObjectId>)>, Seq<DiagView>)
    decreases fuel(depth, limits.max_indirect_depth as int), kids, 1int, kids.len() - i,
{
    if i < 0 || i >= kids.len() {
        acc
    } else {
        let c = p_value(objs, limits, kids[i], depth, seen);
        p_kids(objs, limits, kids, i + 1, depth, seen, (acc.0 + c.0, acc.1 + c.1))
    }
}

proof fn lemma_append_empty<T>(a: Seq<T>)
    ensures
        a + Seq::<T>::empty() == a,
{
    assert(a + Seq::<T>::empty() =~= a);
}

fn parse_parent_tree_value(
    document: &PdfDocument,
    value: &PdfPrimitive,
    config: ParseConfig,
    depth: usize,
    seen: &mut Vec<ObjectId>,
    diagnostics: &mut Vec<Diagnostic>,
) -> (r: Vec<TaggedParentTreeEntry>)
    ensures
        ({
            let out = p_value(records(document.objects@), config.limits, value.deep(), depth as int, old(seen)@);
            &&& parent_views(r@) == out.0
            &&& diag_views(final(diagnostics)@) == diag_views(old(diagnostics)@) + out.1
        }),
        final(seen)@ == old(seen)@,
    decreases fuel(depth as int, config.limits.max_indirect_depth as int), value.deep(), 2int, 0int,
{
    let ghost before = diag_views(diagnostics@);
    proof {
        assert(parent_views(Seq::<TaggedParentTreeEntry>::empty()) =~= Seq::<(usize, Seq<ObjectId>)>::empty());
        lemma_append_empty(before);
    }
    match value {
        PdfPrimitive::Reference(object_id) => {
            let object_id = *object_id;
            if depth > config.limits.max_indirect_depth || depth == usize::MAX || contains_id(seen, object_id) {
                push_warning(
                    diagnostics,
                    "TAGGED_PARENT_TREE_LIMIT",
                    "tagged parent tree exceeded reference limits or contained a cycle",
                    object_id,
                );
                proof {
                    assert(before + seq![object_warning(
                        "TAGGED_PARENT_TREE_LIMIT"@,
                        "tagged parent tree exceeded reference limits or contained a cycle"@,
                        object_id,
                    )] =~= diag_views(diagnostics@));
                }
                return Vec::new();
            }
            let object = match find_object(document, object_id) {
                Some(o) => o,
                None => {
                    let n = usize_to_string(object_id.number as usize);
                    let message = concat2("tagged parent tree references missing object ", n.as_str());
                    push_warning(diagnostics, "TAGGED_PARENT_TREE_MISSING_OBJECT", message.as_str(), object_id);
                    proof {
                        assert(before + seq![object_warning("TAGGED_PARENT_TREE_MISSING_OBJECT"@, message@, object_id)]
                            =~= diag_views(diagnostics@));
                    }
                    return Vec::new();
                },
            };
            let parsed = match parse_object_value(object, config) {
                Ok(v) => v,
                Err(_) => {
                    let n = usize_to_string(object_id.number as usize);
                    let message = concat(&["tagged parent tree object ", n.as_str(), " could not be parsed"]);
                    proof {
                        reveal_with_fuel(crate::fmt::concat_spec, 4);
                    }
                    push_warning(diagnostics, "TAGGED_PARENT_TREE_MALFORMED", message.as_str(), object_id);
                    proof {
                        assert(before + seq![object_warning("TAGGED_PARENT_TREE_MALFORMED"@, message@, object_id)]
                            =~= diag_views(diagnostics@));
                    }
                    return Vec::new();
                },
            };
            seen.push(object_id);
            let entries = parse_parent_tree_value(document, &parsed, config, depth + 1, seen, diagnostics);
            seen.pop();
            proof {
                assert(seen@ =~= old(seen)@);
            }
            entries
        },
        PdfPrimitive::Dictionary(_) => {
            let next = if depth == usize::MAX { depth } else { depth + 1 };
            parse_parent_tree_dictionary(document, value, config, next, seen, diagnostics)
        },
        _ => Vec::new(),
    }
}

fn parse_parent_tree_dictionary(
    document: &PdfDocument,
    value: &PdfPrimitive,
    config: ParseConfig,
    depth: usize,
    seen: &mut Vec<ObjectId>,
    diagnostics: &mut Vec<Diagnostic>,
) -> (r: Vec<TaggedParentTreeEntry>)
    ensures
        ({
            let out = p_dict(records(document.objects@), config.limits, value.deep(), depth as int, old(seen)@);
            &&& parent_views(r@) == out.0
            &&& diag_views(final(diagnostics)@) == diag_views(old(diagnostics)@) + out.1
        }),
        final(seen)@ == old(seen)@,
    decreases fuel(depth as int, config.limits.max_indirect_depth as int), value.deep(), 1int, 0int,
{
    let ghost before = diag_views(diagnostics@);
    let ghost objs = records(document.objects@);
    proof {
        assert(parent_views(Seq::<TaggedParentTreeEntry>::empty()) =~= Seq::<(usize, Seq<ObjectId>)>::empty());
        lemma_append_empty(before);
    }
    let mut entries = match dictionary_value(value, "Nums".as_bytes()) {
        Some(nums) => parse_parent_tree_nums(nums),
        None => Vec::new(),
    };
    if let Some(PdfPrimitive::Array(kids)) = dictionary_value(value, "Kids".as_bytes()) {
        let ghost kv = deep_seq(kids@);
        proof {
            lemma_deep_seq_len(kids@);
            crate::primitive::lemma_lookup_decreases(value.deep(), utf8("Kids"));
            let a = PrimitiveView::Array(kv);
            assert(decreases_to!(a => a->Array_0));
        }
        let next = if depth == usize::MAX { depth } else { depth + 1 };
        let ghost s0 = seen@;
        let ghost mut acc_diags: Seq<DiagView> = Seq::empty();
        let mut i: usize = 0;
        while i < kids.len()
            invariant
                i <= kids.len(),
                kv == deep_seq(kids@),
                kv.len() == kids.len(),
                decreases_to!(value.deep() => kv),
                next as int == sat_inc(depth as int),
                seen@ == s0,
                s0 == old(seen)@,
                objs == records(document.objects@),
                p_dict(objs, config.limits, value.deep(), depth as int, s0) == p_kids(
                    objs,
                    config.limits,
                    kv,
                    i as int,
                    next as int,
                    s0,
                    (parent_views(entries@), acc_diags),
                ),
                diag_views(diagnostics@) == before + acc_diags,
            decreases kids.len() - i,
        {
            proof {
                lemma_deep_seq_index(kids@, i as int);
                assert(decreases_to!(kv => kv[i as int]));
                assert(fuel(next as int, config.limits.max_indirect_depth as int) <= fuel(
                    depth as int,
                    config.limits.max_indirect_depth as int,
                ));
            }
            let ghost mid = diag_views(diagnostics@);
            let ghost e0 = parent_views(entries@);
            let ghost c = p_value(objs, config.limits, kv[i as int], next as int, s0);
            let mut child = parse_parent_tree_value(document, &kids[i], config, next, seen, diagnostics);
            let ghost cv = parent_views(child@);
            entries.append(&mut child);
            proof {
                assert(parent_views(entries@) =~= e0 + cv);
                assert(diag_views(diagnostics@) =~= before + (acc_diags + c.1));
                acc_diags = acc_diags + c.1;
            }
            i += 1;
        }
    }
    entries
}

/// The first index from `from` on whose key is above `key`.
pub open spec fn key_position(s: Seq<(usize, Seq<ObjectId>)>, key: usize, from: int) -> int
    decreases s.len() - from,
{
    if from < 0 || from >= s.len() {
        s.len() as int
    } else if s[from].0 > key {
        from
    } else {
        key_position(s, key, from + 1)
    }
}

proof fn lemma_key_position(s: Seq<(usize, Seq<ObjectId>)>, key: usize, from: int)
    requires
        0 <= from <= s.len(),
    ensures
        from <= key_position(s, key, from) <= s.len(),
    decreases s.len() - from,
{
    if from < s.len() && s[from].0 <= key {
        lemma_key_position(s, key, from + 1);
    }
}

/// Stable sort of parent-tree entries by their `/StructParents` key.
pub open spec fn sort_parents(s: Seq<(usize, Seq<ObjectId>)>) -> Seq<(usize, Seq<ObjectId>)>
    decreases s.len(),
{
    if s.len() == 0 {
        Seq::empty()
    } else {
        let prev = sort_parents(s.drop_last());
        prev.insert(key_position(prev, s.last().0, 0), s.last())
    }
}

proof fn lemma_sort_parents_len(s: Seq<(usize, Seq<ObjectId>)>)
    ensures
        sort_parents(s).len() == s.len(),
    decreases s.len(),
{
    if s.len() > 0 {
        lemma_sort_parents_len(s.drop_last());
        lemma_key_position(sort_parents(s.drop_last()), s.last().0, 0);
    }
}

/// Keeps the first entry of each run of entries with one key.
pub open spec fn dedup_parents(s: Seq<(usize, Seq<ObjectId>)>) -> Seq<(usize, Seq<ObjectId>)>
    decreases s.len(),
{
    if s.len() == 0 {
        Seq::empty()
    } else {
        let prev = dedup_parents(s.drop_last());
        if s.len() >= 2 && s[s.len() - 2].0 == s.last().0 {
            prev
        } else {
            prev.push(s.last())
        }
    }
}

fn sort_parent_entries(entries: Vec<TaggedParentTreeEntry>) -> (r: Vec<TaggedParentTreeEntry>)
    ensures
        parent_views(r@) == sort_parents(parent_views(entries@)),
{
    let ghost orig = parent_views(entries@);
    let _n = entries.len();
    let mut rest = entries;
    let mut out: Vec<TaggedParentTreeEntry> = Vec::new();
    let mut done: usize = 0;
    proof {
        assert(parent_views(out@) =~= sort_parents(orig.take(0)));
        assert(parent_views(rest@) =~= orig.skip(0));
    }
    while rest.len() > 0
        invariant
            orig.len() == done + rest@.len(),
            orig.len() <= usize::MAX,
            parent_views(out@) == sort_parents(orig.take(done as int)),
            parent_views(rest@) == orig.skip(done as int),
        decreases rest.len(),
    {
        let ghost old_rest = rest@;
        let item = rest.remove(0);
        proof {
            assert forall|j: int| 0 <= j < rest@.len() implies parent_views(rest@)[j] == orig.skip(done + 1)[j] by {
                assert(rest@[j] == old_rest[j + 1]);
                assert(parent_views(old_rest)[j + 1] == orig.skip(done as int)[j + 1]);
            }
            assert(parent_views(rest@) =~= orig.skip(done + 1));
            assert((item.struct_parent, item.element_object_ids@) == orig[done as int]) by {
                assert(orig.skip(done as int)[0] == orig[done as int]);
            }
            lemma_sort_parents_len(orig.take(done as int));
        }
        let mut pos: usize = 0;
        while pos < out.len() && out[pos].struct_parent <= item.struct_parent
            invariant
                pos <= out.len(),
                key_position(parent_views(out@), item.struct_parent, 0) == key_position(
                    parent_views(out@),
                    item.struct_parent,
                    pos as int,
                ),
            decreases out.len() - pos,
        {
            pos += 1;
        }
        let ghost before = parent_views(out@);
        out.insert(pos, item);
        proof {
            assert(parent_views(out@) =~= before.insert(pos as int, (item.struct_parent, item.element_object_ids@)));
            assert(orig.take(done + 1).drop_last() =~= orig.take(done as int));
            assert(orig.take(done + 1).last() == orig[done as int]);
        }
        done += 1;
    }
    proof {
        assert(orig.take(done as int) =~= orig);
    }
    out
}

fn dedup_parent_entries(entries: Vec<TaggedParentTreeEntry>) -> (r: Vec<TaggedParentTreeEntry>)
    ensures
        parent_views(r@) == dedup_parents(parent_views(entries@)),
{
    let ghost orig = parent_views(entries@);
    let _n = entries.len();
    let mut rest = entries;
    let mut out: Vec<TaggedParentTreeEntry> = Vec::new();
    let mut done: usize = 0;
    let mut last_key: usize = 0;
    proof {
        assert(parent_views(out@) =~= dedup_parents(orig.take(0)));
        assert(parent_views(rest@) =~= orig.skip(0));
    }
    while rest.len() > 0
        invariant
            orig.len() == done + rest@.len(),
            orig.len() <= usize::MAX,
            parent_views(out@) == dedup_parents(orig.take(done as int)),
            parent_views(rest@) == orig.skip(done as int),
            done > 0 ==> last_key == orig[done - 1].0,
        decreases rest.len(),
    {
        let ghost old_rest = rest@;
        let item = rest.remove(0);
        proof {
            assert forall|j: int| 0 <= j < rest@.len() implies parent_views(rest@)[j] == orig.skip(done + 1)[j] by {
                assert(rest@[j] == old_rest[j + 1]);
                assert(parent_views(old_rest)[j + 1] == orig.skip(done as int)[j + 1]);
            }
            assert(parent_views(rest@) =~= orig.skip(done + 1));
            assert((item.struct_parent, item.element_object_ids@) == orig[done as int]) by {
                assert(orig.skip(done as int)[0] == orig[done as int]);
            }
            let t = orig.take(done + 1);
            assert(t.drop_last() =~= orig.take(done as int));
            assert(t.last() == orig[done as int]);
            if done >= 1 {
                assert(t[t.len() - 2] == orig[done - 1]);
            }
        }
        let key = item.struct_parent;
        if done == 0 || last_key != key {
            let ghost before = parent_views(out@);
            out.push(item);
            proof {
                assert(parent_views(out@) =~= before.push((item.struct_parent, item.element_object_ids@)));
            }
        }
        last_key = key;
        done += 1;
    }
    proof {
        assert(orig.take(done as int) =~= orig);
    }
    out
}

/// The parent tree of the structure tree root `root`, sorted by key with one
/// entry per key, and the diagnostics its traversal gives rise to.
pub open spec fn parent_tree_spec(objs: Seq<ObjectRecord>, root: ObjectId, limits: ResourceLimits) -> (Seq<(usize, Seq<ObjectId>)>, Seq<DiagView>) {
    match value_of_object(objs, root, limits) {
        None => (Seq::empty(), Seq::empty()),
        Some(v) => match dict_lookup(v, utf8("ParentTree")) {
            None => (Seq::empty(), Seq::empty()),
            Some(p) => {
                let (es, ds) = p_value(objs, limits, p, 0, Seq::empty());
                (dedup_parents(sort_parents(es)), ds)
            },
        },
    }
}

fn parse_parent_tree(
    document: &PdfDocument,
    root_object_id: ObjectId,
    config: ParseConfig,
    diagnostics: &mut Vec<Diagnostic>,
) -> (r: Vec<TaggedParentTreeEntry>)
    ensures
        ({
            let out = parent_tree_spec(records(document.objects@), root_object_id, config.limits);
            &&& parent_views(r@) == out.0
            &&& diag_views(final(diagnostics)@) == diag_views(old(diagnostics)@) + out.1
        }),
{
    proof {
        assert(parent_views(Seq::<TaggedParentTreeEntry>::empty()) =~= Seq::<(usize, Seq<ObjectId>)>::empty());
        lemma_append_empty(diag_views(diagnostics@));
    }
    let root_object = match find_object(document, root_object_id) {
        Some(o) => o,
        None => return Vec::new(),
    };
    let root_value = match parse_object_value(root_object, config) {
        Ok(v) => v,
        Err(_) => return Vec::new(),
    };
    let parent_tree_value = match dictionary_value(&root_value, "ParentTree".as_bytes()) {
        Some(v) => v,
        None => return Vec::new(),
    };
    let mut seen: Vec<ObjectId> = Vec::new();
    proof {
        assert(seen@ =~= Seq::<ObjectId>::empty());
    }
    let entries = parse_parent_tree_value(document, parent_tree_value, config, 0, &mut seen, diagnostics);
    let sorted = sort_parent_entries(entries);
    dedup_parent_entries(sorted)
}

/// What a document's structure tree holds.
pub struct TaggedView {
    pub root_object_id: Option<ObjectId>,
    pub role_map: Seq<(Seq<char>, Seq<char>)>,
    pub roots: Seq<ElementView>,
    pub parent_tree: Seq<(usize, Seq<ObjectId>)>,
    pub diagnostics: Seq<DiagView>,
}

/// The structure tree of the objects `objs`: the root named by the first
/// catalog that names one, its role map, the elements under it (read from
/// the root with no reference seen yet) and its parent tree.
pub open spec fn tagged_spec(objs: Seq<ObjectRecord>, limits: ResourceLimits) -> TaggedView {
    let (root, d1) = root_id_spec(objs, limits, 0, Seq::empty());
    match root {
        None => TaggedView {
            root_object_id: None,
            role_map: Seq::empty(),
            roots: Seq::empty(),
            parent_tree: Seq::empty(),
            diagnostics: d1,
        },
        Some(id) => {
            let (roles, d2) = role_map_spec(objs, id, limits, d1);
            let out = s_reference(objs, roles, limits, PrimitiveView::Reference(id), id, 0, Seq::empty());
            let (pt, pd) = parent_tree_spec(objs, id, limits);
            TaggedView {
                root_object_id: Some(id),
                role_map: roles,
                roots: out.elements,
                parent_tree: pt,
                diagnostics: d2 + out.diags + pd,
            }
        },
    }
}

impl TaggedStructure {
    /// The structure agrees with `v`; a diagnostic whose message `v` leaves
    /// empty may carry any message.
    pub open spec fn agrees(self, v: TaggedView) -> bool {
        &&& self.root_object_id == v.root_object_id
        &&& role_views(self.role_map@) == v.role_map
        &&& element_views(self.roots@) == v.roots
        &&& parent_views(self.parent_tree@) == v.parent_tree
        &&& diags_agree(diag_views(self.diagnostics@), v.diagnostics)
    }
}

impl PdfDocument {
    /// Reads the tagged structure: the structure tree root, role map,
    /// structure elements and parent tree, with warnings for what could not
    /// be followed.
    pub fn tagged_structure(&self, config: ParseConfig) -> (r: TaggedStructure)
        ensures
            r.agrees(tagged_spec(records(self.objects@), config.limits)),
    {
        let mut diagnostics: Vec<Diagnostic> = Vec::new();
        proof {
            assert(diag_views(diagnostics@) =~= Seq::<DiagView>::empty());
            assert(role_views(Seq::<TaggedRoleMapEntry>::empty()) =~= Seq::<(Seq<char>, Seq<char>)>::empty());
            assert(parent_views(Seq::<TaggedParentTreeEntry>::empty()) =~= Seq::<(usize, Seq<ObjectId>)>::empty());
            assert(element_views(Seq::<TaggedStructureElement>::empty()) =~= Seq::<ElementView>::empty());
        }
        let root_object_id = match struct_tree_root_id(self, config, &mut diagnostics) {
            Some(id) => id,
            None => {
                let r = TaggedStructure {
                    root_object_id: None,
                    role_map: Vec::new(),
                    roots: Vec::new(),
                    parent_tree: Vec::new(),
                    diagnostics,
                };
                proof {
                    lemma_agree_refl(diag_views(r.diagnostics@));
                }
                return r;
            },
        };
        let role_map = parse_structure_role_map(self, root_object_id, config, &mut diagnostics);
        let mut seen: Vec<ObjectId> = Vec::new();
        proof {
            assert(seen@ =~= Seq::<ObjectId>::empty());
        }
        let reference = PdfPrimitive::Reference(root_object_id);
        let ghost before = diagnostics@;
        let parsed = parse_structure_reference(
            self,
            &reference,
            root_object_id,
            0,
            &mut seen,
            config,
            &role_map,
            &mut diagnostics,
        );
        let ghost mid = diagnostics@;
        let parent_tree = parse_parent_tree(self, root_object_id, config, &mut diagnostics);
        proof {
            let objs = records(self.objects@);
            let out = s_reference(
                objs,
                role_views(role_map@),
                config.limits,
                PrimitiveView::Reference(root_object_id),
                root_object_id,
                0,
                Seq::empty(),
            );
            let pd = parent_tree_spec(objs, root_object_id, config.limits).1;
            lemma_agree_append(diag_views(mid), diag_views(before) + out.diags, pd);
        }
        TaggedStructure {
            root_object_id: Some(root_object_id),
            role_map,
            roots: parsed.elements,
            parent_tree,
            diagnostics,
        }
    }
}

} // verus!
