//! The object store: every object that the cross-reference data lists,
//! including those stored in object streams, ordered by object id.
use vstd::prelude::*;
use crate::types::{ObjectId, ByteRange, ParseConfig, ResourceLimits, PdfDiffError, invalid_input, is_limit_error};
use crate::bytes::{find_from, find_keyword, slice_range, lemma_find_from_props};
use crate::primitive::{PdfPrimitive, PrimitiveView, has_name, dictionary_has_name};
use crate::object::{ParsedIndirectObject, ObjectView, StreamView, Failure, failure_is, indirect_object_spec,
    parse_indirect_object};
use crate::objstm::{embedded_objects_spec, extract_object_stream, views};
use crate::xref::{XrefEntry, XrefEntryKind, XrefTable, xref_table_spec, parse_xref_table};
use crate::utf8text::utf8;

verus! {

/// `a` comes after `b` in (number, generation) order.
pub open spec fn id_after(a: ObjectId, b: ObjectId) -> bool {
    a.number > b.number || (a.number == b.number && a.generation > b.generation)
}

pub fn id_is_after(a: ObjectId, b: ObjectId) -> (r: bool)
    ensures
        r == id_after(a, b),
{
    a.number > b.number || (a.number == b.number && a.generation > b.generation)
}

/// First position in `s` whose id comes after `id` (or the length).
pub open spec fn first_after(s: Seq<ObjectView>, id: ObjectId, from: int) -> int
    decreases s.len() - from,
{
    if from < 0 || from >= s.len() {
        s.len() as int
    } else if id_after(s[from].id, id) {
        from
    } else {
        first_after(s, id, from + 1)
    }
}

proof fn lemma_first_after(s: Seq<ObjectView>, id: ObjectId, from: int)
    requires
        0 <= from <= s.len(),
    ensures
        from <= first_after(s, id, from) <= s.len(),
    decreases s.len() - from,
{
    if from < s.len() && !id_after(s[from].id, id) {
        lemma_first_after(s, id, from + 1);
    }
}

/// Stable insertion of `x` into `s`: after every element whose id does not
/// come after `x`'s.
pub open spec fn insert_by_id(s: Seq<ObjectView>, x: ObjectView) -> Seq<ObjectView> {
    s.insert(first_after(s, x.id, 0), x)
}

/// Stable sort by object id.
pub open spec fn sort_by_id(s: Seq<ObjectView>) -> Seq<ObjectView>
    decreases s.len(),
{
    if s.len() == 0 {
        Seq::empty()
    } else {
        insert_by_id(sort_by_id(s.drop_last()), s.last())
    }
}

proof fn lemma_sort_len(s: Seq<ObjectView>)
    ensures
        sort_by_id(s).len() == s.len(),
    decreases s.len(),
{
    if s.len() > 0 {
        lemma_sort_len(s.drop_last());
        lemma_first_after(sort_by_id(s.drop_last()), s.last().id, 0);
    }
}

/// Sorts objects by id, keeping the order of objects with equal ids.
pub fn sort_objects(objects: Vec<ParsedIndirectObject>) -> (r: Vec<ParsedIndirectObject>)
    ensures
        views(r@) == sort_by_id(views(objects@)),
{
    let ghost orig = views(objects@);
    let _n = objects.len();
    assert(orig.len() <= usize::MAX);
    let mut rest = objects;
    let mut out: Vec<ParsedIndirectObject> = Vec::new();
    let mut done: usize = 0;
    proof {
        assert(views(out@) =~= sort_by_id(orig.take(0)));
        assert(views(rest@) =~= orig.skip(0));
    }
    while rest.len() > 0
        invariant
            orig.len() == done + rest@.len(),
            orig.len() <= usize::MAX,
            views(out@) == sort_by_id(orig.take(done as int)),
            views(rest@) == orig.skip(done as int),
        decreases rest.len(),
    {
        let ghost old_rest = rest@;
        let item = rest.remove(0);
        proof {
            assert forall|j: int| 0 <= j < rest@.len() implies views(rest@)[j] == orig.skip(done + 1)[j] by {
                assert(rest@[j] == old_rest[j + 1]);
                assert(views(old_rest)[j + 1] == orig.skip(done as int)[j + 1]);
            }
            assert(views(rest@) =~= orig.skip(done + 1));
            assert(item.view() == orig[done as int]) by {
                assert(orig.skip(done as int)[0] == orig[done as int]);
            }
            lemma_sort_len(orig.take(done as int));
        }
        let mut pos: usize = 0;
        while pos < out.len() && !id_is_after(out[pos].id, item.id)
            invariant
                pos <= out.len(),
                first_after(views(out@), item.id, 0) == first_after(views(out@), item.id, pos as int),
            decreases out.len() - pos,
        {
            pos += 1;
        }
        let ghost before = views(out@);
        out.insert(pos, item);
        proof {
            assert(views(out@) =~= before.insert(pos as int, item.view()));
            assert(orig.take(done + 1).drop_last() =~= orig.take(done as int));
            assert(orig.take(done + 1).last() == orig[done as int]);
        }
        done += 1;
    }
    proof {
        assert(orig.take(done as int) =~= orig);
    }
    out
}

/// `v` with every byte offset moved by `off`.
pub open spec fn shift_view(v: ObjectView, off: int) -> ObjectView {
    ObjectView {
        start: v.start + off,
        end: v.end + off,
        value_start: v.value_start + off,
        value_end: v.value_end + off,
        stream: match v.stream {
            Some(st) => Some(StreamView { start: st.start + off, end: st.end + off, ..st }),
            None => None,
        },
        ..v
    }
}

/// The object that an in-use xref entry points to.
pub open spec fn direct_object_spec(s: Seq<u8>, e: XrefEntry, limits: ResourceLimits) -> Result<ObjectView, Failure> {
    let off = e.byte_offset as int;
    if off >= s.len() {
        Err(Failure::Invalid)
    } else {
        match find_from(s, off, utf8("endobj")) {
            None => Err(Failure::Invalid),
            Some(m) => match indirect_object_spec(s.subrange(off, m + 6), limits) {
                Err(f) => Err(f),
                Ok(o) => if o.id != e.object_id {
                    Err(Failure::Invalid)
                } else {
                    Ok(shift_view(o, off))
                },
            },
        }
    }
}

/// An entry that names an object stored directly in the file.
pub open spec fn is_direct(e: XrefEntry) -> bool {
    e.kind == XrefEntryKind::InUse && e.object_id.number != 0
}

/// The objects of the first `m` entries, or the first failure.
#[verifier::opaque]
pub open spec fn direct_prefix(s: Seq<u8>, es: Seq<XrefEntry>, m: int, limits: ResourceLimits) -> Result<Seq<ObjectView>, Failure>
    decreases m,
{
    if m <= 0 {
        Ok(Seq::empty())
    } else {
        match direct_prefix(s, es, m - 1, limits) {
            Err(f) => Err(f),
            Ok(prev) => if is_direct(es[m - 1]) {
                match direct_object_spec(s, es[m - 1], limits) {
                    Err(f) => Err(f),
                    Ok(o) => Ok(prev.push(o)),
                }
            } else {
                Ok(prev)
            },
        }
    }
}

/// The objects stored in the object streams among the first `m` objects.
#[verifier::opaque]
pub open spec fn streams_prefix(objs: Seq<ObjectView>, m: int, limits: ResourceLimits) -> Result<Seq<ObjectView>, Failure>
    decreases m,
{
    if m <= 0 {
        Ok(Seq::empty())
    } else {
        match streams_prefix(objs, m - 1, limits) {
            Err(f) => Err(f),
            Ok(prev) => if has_name(objs[m - 1].value, utf8("Type"), utf8("ObjStm")) {
                match embedded_objects_spec(objs[m - 1], limits) {
                    Err(f) => Err(f),
                    Ok(es) => Ok(prev + es),
                }
            } else {
                Ok(prev)
            },
        }
    }
}

proof fn lemma_direct_err(s: Seq<u8>, es: Seq<XrefEntry>, k: int, m: int, limits: ResourceLimits)
    requires
        0 <= k <= m,
        direct_prefix(s, es, k, limits) is Err,
    ensures
        direct_prefix(s, es, m, limits) == direct_prefix(s, es, k, limits),
    decreases m - k,
{
    reveal(direct_prefix);
    if m > k {
        lemma_direct_err(s, es, k, m - 1, limits);
    }
}

proof fn lemma_streams_err(objs: Seq<ObjectView>, k: int, m: int, limits: ResourceLimits)
    requires
        0 <= k <= m,
        streams_prefix(objs, k, limits) is Err,
    ensures
        streams_prefix(objs, m, limits) == streams_prefix(objs, k, limits),
    decreases m - k,
{
    reveal(streams_prefix);
    if m > k {
        lemma_streams_err(objs, k, m - 1, limits);
    }
}

/// Every object of a file: its cross-reference data, and the objects it
/// lists (direct ones first, then those in object streams) sorted by id.
#[verifier::opaque]
pub open spec fn object_store_spec(s: Seq<u8>, limits: ResourceLimits) -> Result<(int, Seq<XrefEntry>, PrimitiveView, Seq<ObjectView>), Failure> {
    match xref_table_spec(s, limits) {
        Err(f) => Err(f),
        Ok((start, entries, trailer)) => match direct_prefix(s, entries, entries.len() as int, limits) {
            Err(f) => Err(f),
            Ok(direct) => match streams_prefix(direct, direct.len() as int, limits) {
                Err(f) => Err(f),
                Ok(embedded) => Ok((start, entries, trailer, sort_by_id(direct + embedded))),
            },
        },
    }
}

/// Every object of a file and the cross-reference data that lists them.
#[derive(Debug)]
pub struct ObjectStore {
    pub xref: XrefTable,
    pub objects: Vec<ParsedIndirectObject>,
}

fn offset_indirect_object_ranges(object: ParsedIndirectObject, offset: usize) -> (r: ParsedIndirectObject)
    requires
        offset + object.byte_range.end <= usize::MAX,
        offset + object.value_byte_range.end <= usize::MAX,
        object.byte_range.start <= object.byte_range.end,
        object.value_byte_range.start <= object.value_byte_range.end,
        object.stream matches Some(st) ==> st.byte_range.start <= st.byte_range.end && offset + st.byte_range.end
            <= usize::MAX,
    ensures
        r.view() == shift_view(object.view(), offset as int),
{
    let stream = match object.stream {
        Some(st) => Some(crate::stream::PdfStream {
            byte_range: ByteRange::new(st.byte_range.start + offset, st.byte_range.end + offset),
            ..st
        }),
        None => None,
    };
    ParsedIndirectObject {
        id: object.id,
        value: object.value,
        stream,
        byte_range: ByteRange::new(object.byte_range.start + offset, object.byte_range.end + offset),
        value_byte_range: ByteRange::new(
            object.value_byte_range.start + offset,
            object.value_byte_range.end + offset,
        ),
        embedded_source: object.embedded_source,
    }
}

/// Parses the object an in-use xref entry points to.
fn read_direct_object(bytes: &[u8], entry: XrefEntry, config: ParseConfig) -> (r: Result<ParsedIndirectObject, PdfDiffError>)
    ensures
        bytes.len() <= config.limits.max_file_bytes
            ==> match direct_object_spec(bytes@, entry, config.limits) {
            Ok(v) => r matches Ok(o) && o.view() == v,
            Err(f) => r matches Err(e) && failure_is(f, e),
        },
{
    if entry.byte_offset >= bytes.len() {
        return Err(invalid_input("xref entry points outside the file"));
    }
    proof {
        reveal_strlit("endobj");
        crate::utf8text::lemma_ascii_utf8("endobj");
        lemma_find_from_props(bytes@, entry.byte_offset as int, utf8("endobj"));
    }
    let end_kw = "endobj".as_bytes();
    let object_end = match find_keyword(bytes, entry.byte_offset, end_kw) {
        Some(m) => m + 6,
        None => return Err(invalid_input("xref entry points to an unterminated object")),
    };
    let object_bytes = slice_range(bytes, entry.byte_offset, object_end);
    let object = parse_indirect_object(object_bytes.as_slice(), config)?;
    let object = offset_indirect_object_ranges(object, entry.byte_offset);
    if object.id != entry.object_id {
        return Err(invalid_input("xref entry resolved to a different object"));
    }
    Ok(object)
}

/// Reads the objects stored in every object stream among `objects`.
pub fn extract_object_streams(objects: &Vec<ParsedIndirectObject>, config: ParseConfig) -> (r: Result<Vec<ParsedIndirectObject>, PdfDiffError>)
    ensures
        match streams_prefix(views(objects@), objects@.len() as int, config.limits) {
            Ok(es) => r matches Ok(v) && views(v@) == es,
            Err(f) => r matches Err(e) && failure_is(f, e),
        },
{
    let ghost objs = views(objects@);
    let mut embedded: Vec<ParsedIndirectObject> = Vec::new();
    proof {
        reveal(streams_prefix);
        assert(views(embedded@) =~= Seq::<ObjectView>::empty());
    }
    let mut k: usize = 0;
    while k < objects.len()
        invariant
            k <= objects.len(),
            objs == views(objects@),
            streams_prefix(objs, k as int, config.limits) == Ok::<Seq<ObjectView>, Failure>(views(embedded@)),
        decreases objects.len() - k,
    {
        assert(objs[k as int] == objects@[k as int].view());
        if dictionary_has_name(&objects[k].value, "Type".as_bytes(), "ObjStm".as_bytes()) {
            match extract_object_stream(&objects[k], config) {
                Ok(more) => {
                    let ghost before = views(embedded@);
                    let mut more = more;
                    let ghost added = views(more@);
                    embedded.append(&mut more);
                    proof {
                        assert(views(embedded@) =~= before + added);
                        reveal(streams_prefix);
                    }
                },
                Err(e) => {
                    proof {
                        reveal(streams_prefix);
                        lemma_streams_err(objs, k + 1, objects@.len() as int, config.limits);
                    }
                    return Err(e);
                },
            }
        }
        proof {
            reveal(streams_prefix);
        }
        k += 1;
    }
    Ok(embedded)
}

/// Reads the cross-reference data and every object it lists, including the
/// objects stored in object streams, sorted by id.
pub fn parse_object_store(bytes: &[u8], config: ParseConfig) -> (r: Result<ObjectStore, PdfDiffError>)
    ensures
        bytes@.len() > config.limits.max_file_bytes ==> (r matches Err(e) && e is ResourceLimitExceeded),
        bytes@.len() <= config.limits.max_file_bytes
            ==> match object_store_spec(bytes@, config.limits) {
            Ok((start, entries, trailer, objects)) => r matches Ok(st) && st.xref.start_offset == start
                && st.xref.entries@ == entries && st.xref.trailer.deep() == trailer && views(st.objects@)
                == objects,
            Err(f) => r matches Err(e) && failure_is(f, e),
        },
{
    proof {
        reveal(object_store_spec);
    }
    let xref = parse_xref_table(bytes, config)?;
    let ghost entries = xref.entries@;
    let ghost exact = bytes@.len() <= config.limits.max_file_bytes;
    let mut objects: Vec<ParsedIndirectObject> = Vec::new();
    proof {
        reveal(direct_prefix);
        assert(views(objects@) =~= Seq::<ObjectView>::empty());
    }
    let mut k: usize = 0;
    while k < xref.entries.len()
        invariant
            k <= xref.entries.len(),
            entries == xref.entries@,
            bytes@.len() <= config.limits.max_file_bytes,
            exact ==> xref_table_spec(bytes@, config.limits) == Ok::<(int, Seq<XrefEntry>, PrimitiveView), Failure>(
                (xref.start_offset as int, entries, xref.trailer.deep()),
            ),
            exact == (bytes@.len() <= config.limits.max_file_bytes),
            exact ==> direct_prefix(bytes@, entries, k as int, config.limits) == Ok::<Seq<ObjectView>, Failure>(
                views(objects@),
            ),
        decreases xref.entries.len() - k,
    {
        let entry = xref.entries[k];
        if entry.kind == XrefEntryKind::InUse && entry.object_id.number != 0 {
            match read_direct_object(bytes, entry, config) {
                Ok(object) => {
                    let ghost before = views(objects@);
                    objects.push(object);
                    proof {
                        assert(views(objects@) =~= before.push(object.view()));
                        reveal(direct_prefix);
                    }
                },
                Err(e) => {
                    proof {
                        reveal(object_store_spec);
                        if exact {
                            reveal(direct_prefix);
                            lemma_direct_err(bytes@, entries, k + 1, entries.len() as int, config.limits);
                        }
                    }
                    return Err(e);
                },
            }
        }
        proof {
            reveal(direct_prefix);
        }
        k += 1;
    }
    let mut embedded = extract_object_streams(&objects, config)?;
    let ghost direct = views(objects@);
    let ghost added = views(embedded@);
    objects.append(&mut embedded);
    proof {
        assert(views(objects@) =~= direct + added);
    }
    let objects = sort_objects(objects);
    Ok(ObjectStore { xref, objects })
}

/// Index of the first object with id `id`.
pub open spec fn find_id(objs: Seq<ObjectView>, id: ObjectId, from: int) -> Option<int>
    decreases objs.len() - from,
{
    if from < 0 || from >= objs.len() {
        None
    } else if objs[from].id == id {
        Some(from)
    } else {
        find_id(objs, id, from + 1)
    }
}

proof fn lemma_find_id(objs: Seq<ObjectView>, id: ObjectId, from: int)
    requires
        0 <= from,
    ensures
        find_id(objs, id, from) matches Some(i) ==> from <= i < objs.len() && objs[i].id == id,
    decreases objs.len() - from,
{
    if from < objs.len() && objs[from].id != id {
        lemma_find_id(objs, id, from + 1);
    }
}

/// Following references from `current` at `depth`: the index of the first
/// object that is not a reference, or why the chain was refused.
pub open spec fn reference_chain_spec(objs: Seq<ObjectView>, current: ObjectId, depth: int, max: int, seen: Seq<ObjectId>) -> Result<int, Failure>
    decreases max - depth,
{
    if depth > max {
        Err(Failure::Limit("RESOURCE_LIMIT_REFERENCE_DEPTH"@))
    } else if seen.contains(current) {
        Err(Failure::Limit("RESOURCE_LIMIT_REFERENCE_CYCLE"@))
    } else {
        match find_id(objs, current, 0) {
            None => Err(Failure::Invalid),
            Some(i) => match objs[i].value {
                PrimitiveView::Reference(next) => if depth == max {
                    Err(Failure::Limit("RESOURCE_LIMIT_REFERENCE_DEPTH"@))
                } else {
                    reference_chain_spec(objs, next, depth + 1, max, seen.push(current))
                },
                _ => Ok(i),
            },
        }
    }
}

fn contains_id(seen: &Vec<ObjectId>, id: ObjectId) -> (r: bool)
    ensures
        r == seen@.contains(id),
{
    let mut i: usize = 0;
    while i < seen.len()
        invariant
            i <= seen.len(),
            forall|j: int| 0 <= j < i ==> seen@[j] != id,
        decreases seen.len() - i,
    {
        if seen[i] == id {
            return true;
        }
        i += 1;
    }
    false
}

fn reference_limit_error(code: &str, detail: &str) -> (e: PdfDiffError)
    ensures
        is_limit_error(e, code@),
{
    crate::types::limit_error(code, detail)
}

impl ObjectStore {
    /// The first object with id `id`.
    pub fn get(&self, id: ObjectId) -> (r: Option<&ParsedIndirectObject>)
        ensures
            match find_id(views(self.objects@), id, 0) {
                Some(i) => r matches Some(o) && o.view() == views(self.objects@)[i],
                None => r is None,
            },
    {
        let ghost objs = views(self.objects@);
        let mut i: usize = 0;
        while i < self.objects.len()
            invariant
                i <= self.objects.len(),
                objs == views(self.objects@),
                find_id(objs, id, 0) == find_id(objs, id, i as int),
            decreases self.objects.len() - i,
        {
            assert(objs[i as int].id == self.objects@[i as int].id);
            if self.objects[i].id == id {
                return Some(&self.objects[i]);
            }
            i += 1;
        }
        None
    }

    /// Follows indirect references from `id` until an object that is not a
    /// reference; refuses cycles and chains longer than the depth limit.
    pub fn resolve_reference_chain(&self, id: ObjectId, limits: ResourceLimits) -> (r: Result<&ParsedIndirectObject, PdfDiffError>)
        ensures
            match reference_chain_spec(views(self.objects@), id, 0, limits.max_indirect_depth as int, Seq::empty()) {
                Ok(i) => r matches Ok(o) && o.view() == views(self.objects@)[i],
                Err(f) => r matches Err(e) && failure_is(f, e),
            },
    {
        let ghost objs = views(self.objects@);
        let max = limits.max_indirect_depth;
        let mut current = id;
        let mut seen: Vec<ObjectId> = Vec::new();
        let mut depth: usize = 0;
        loop
            invariant
                depth <= max,
                objs == views(self.objects@),
                max == limits.max_indirect_depth,
                reference_chain_spec(objs, id, 0, max as int, Seq::empty()) == reference_chain_spec(
                    objs,
                    current,
                    depth as int,
                    max as int,
                    seen@,
                ),
            decreases max - depth,
        {
            if contains_id(&seen, current) {
                return Err(reference_limit_error("RESOURCE_LIMIT_REFERENCE_CYCLE", "reference cycle detected"));
            }
            let object = match self.get(current) {
                Some(o) => o,
                None => return Err(invalid_input("referenced object was not found")),
            };
            proof {
                lemma_find_id(objs, current, 0);
            }
            let next = match &object.value {
                PdfPrimitive::Reference(next) => *next,
                _ => return Ok(object),
            };
            if depth == max {
                return Err(reference_limit_error("RESOURCE_LIMIT_REFERENCE_DEPTH", "reference depth exceeds limit"));
            }
            seen.push(current);
            current = next;
            depth += 1;
        }
    }
}

} // verus!
