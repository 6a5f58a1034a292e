//! The font resource model: which font dictionaries a document's pages and
//! resource dictionaries refer to by name, and what those fonts declare.
use vstd::prelude::*;
use crate::types::{ObjectId, Diagnostic, DiagnosticSeverity, DiagView, diag_views, plain_diag};
use crate::scan::{PdfObject, ObjectRecord, records};
use crate::document::PdfDocument;
use crate::chars::{chars_of, string_of};
use crate::tagged::{code_lt, code_less, lemma_code_order, lemma_code_trans};
use crate::fmt::{decimal_chars, usize_to_string, concat};
use crate::textscan::{named_refs, font_refs, font_body, value_after_key, name_after_key_spec,
    reference_after_key_spec, ref_views, named_references, font_resource_references, is_font_object_body,
    value_after_pdf_name, name_after_key, reference_after_key, ws_tokens, join_space, split_ws, token_views};

verus! {

/// A font that a resource dictionary names.
#[derive(Debug, Clone, PartialEq, Eq)]
pub struct FontResource {
    pub resource_name: String,
    pub object_id: ObjectId,
    pub subtype: Option<String>,
    pub base_font: Option<String>,
    pub encoding: Option<String>,
    pub to_unicode: Option<ObjectId>,
    pub descendant_font_object_ids: Vec<ObjectId>,
    pub descendant_subtypes: Vec<String>,
}

pub struct FontView {
    pub resource_name: Seq<char>,
    pub object_id: ObjectId,
    pub subtype: Option<Seq<char>>,
    pub base_font: Option<Seq<char>>,
    pub encoding: Option<Seq<char>>,
    pub to_unicode: Option<ObjectId>,
    pub descendant_font_object_ids: Seq<ObjectId>,
    pub descendant_subtypes: Seq<Seq<char>>,
}

pub open spec fn opt_chars(o: Option<String>) -> Option<Seq<char>> {
    match o {
        Some(s) => Some(s@),
        None => None,
    }
}

pub open spec fn text_views(v: Seq<String>) -> Seq<Seq<char>> {
    v.map_values(|s: String| s@)
}

impl FontResource {
    pub open spec fn view(self) -> FontView {
        FontView {
            resource_name: self.resource_name@,
            object_id: self.object_id,
            subtype: opt_chars(self.subtype),
            base_font: opt_chars(self.base_font),
            encoding: opt_chars(self.encoding),
            to_unicode: self.to_unicode,
            descendant_font_object_ids: self.descendant_font_object_ids@,
            descendant_subtypes: text_views(self.descendant_subtypes@),
        }
    }
}

/// `s` begins with `p`.
pub open spec fn starts_with(s: Seq<char>, p: Seq<char>) -> bool {
    s.len() >= p.len() && s.take(p.len() as int) == p
}

/// A composite font: subtype `Type0`, or a descendant whose subtype starts
/// with `CIDFont`.
pub open spec fn cid_or_type0(v: FontView) -> bool {
    ||| v.subtype == Some("Type0"@)
    ||| exists|i: int| 0 <= i < v.descendant_subtypes.len() && starts_with(#[trigger] v.descendant_subtypes[i], "CIDFont"@)
}

fn same_text(a: &String, b: &str) -> (r: bool)
    ensures
        r == (a@ == b@),
{
    let t = b.to_owned();
    *a == t
}

pub(crate) fn has_prefix(s: &String, p: &str) -> (r: bool)
    ensures
        r == starts_with(s@, p@),
{
    let sc = chars_of(s.as_str());
    let pc = chars_of(p);
    if sc.len() < pc.len() {
        return false;
    }
    let mut i: usize = 0;
    while i < pc.len()
        invariant
            i <= pc.len() <= sc.len(),
            sc@ == s@,
            pc@ == p@,
            forall|j: int| 0 <= j < i ==> sc@[j] == pc@[j],
        decreases pc.len() - i,
    {
        if sc[i] != pc[i] {
            proof {
                assert(sc@.take(pc@.len() as int)[i as int] != pc@[i as int]);
            }
            return false;
        }
        i += 1;
    }
    proof {
        assert(sc@.take(pc@.len() as int) =~= pc@);
    }
    true
}

impl FontResource {
    /// The font is composite: `Type0`, or with a `CIDFont*` descendant.
    pub fn is_cid_or_type0(&self) -> (r: bool)
        ensures
            r == cid_or_type0(self.view()),
    {
        if let Some(subtype) = &self.subtype {
            if same_text(subtype, "Type0") {
                return true;
            }
        }
        let ghost v = self.view();
        let mut i: usize = 0;
        while i < self.descendant_subtypes.len()
            invariant
                i <= self.descendant_subtypes.len(),
                v == self.view(),
                v.subtype != Some("Type0"@),
                forall|j: int| 0 <= j < i ==> !starts_with(#[trigger] v.descendant_subtypes[j], "CIDFont"@),
            decreases self.descendant_subtypes.len() - i,
        {
            proof {
                assert(v.descendant_subtypes[i as int] == self.descendant_subtypes@[i as int]@);
            }
            if has_prefix(&self.descendant_subtypes[i], "CIDFont") {
                return true;
            }
            i += 1;
        }
        false
    }
}

/// The map that a sequence of fonts with distinct names stands for.
pub open spec fn font_map(s: Seq<FontResource>) -> Map<Seq<char>, FontView>
    decreases s.len(),
{
    if s.len() == 0 {
        Map::empty()
    } else {
        font_map(s.drop_last()).insert(s.last().resource_name@, s.last().view())
    }
}

/// No two fonts share a resource name.
pub open spec fn distinct_names(s: Seq<FontResource>) -> bool {
    forall|i: int, j: int| 0 <= i < j < s.len() ==> s[i].resource_name@ != s[j].resource_name@
}

proof fn lemma_font_map_dom(s: Seq<FontResource>)
    ensures
        forall|n: Seq<char>| font_map(s).dom().contains(n) <==> exists|i: int| 0 <= i < s.len() && #[trigger] s[i].resource_name@ == n,
    decreases s.len(),
{
    if s.len() > 0 {
        let p = s.drop_last();
        lemma_font_map_dom(p);
        assert forall|n: Seq<char>| font_map(s).dom().contains(n) implies exists|i: int| 0 <= i < s.len() && #[trigger] s[i].resource_name@ == n by {
            if n != s.last().resource_name@ {
                assert(font_map(p).dom().contains(n));
                let i = choose|i: int| 0 <= i < p.len() && #[trigger] p[i].resource_name@ == n;
                assert(s[i] == p[i]);
            } else {
                assert(s[s.len() - 1].resource_name@ == n);
            }
        }
        assert forall|n: Seq<char>| (exists|i: int| 0 <= i < s.len() && #[trigger] s[i].resource_name@ == n) implies font_map(s).dom().contains(n) by {
            let i = choose|i: int| 0 <= i < s.len() && #[trigger] s[i].resource_name@ == n;
            if i < s.len() - 1 {
                assert(p[i] == s[i]);
            }
        }
    }
}

proof fn lemma_font_map_get(s: Seq<FontResource>, k: int)
    requires
        distinct_names(s),
        0 <= k < s.len(),
    ensures
        font_map(s).dom().contains(s[k].resource_name@),
        font_map(s)[s[k].resource_name@] == s[k].view(),
    decreases s.len(),
{
    if k < s.len() - 1 {
        lemma_font_map_get(s.drop_last(), k);
    }
}

proof fn lemma_font_map_update(s: Seq<FontResource>, k: int, f: FontResource)
    requires
        distinct_names(s),
        0 <= k < s.len(),
        f.resource_name@ == s[k].resource_name@,
    ensures
        font_map(s.update(k, f)) == font_map(s).insert(f.resource_name@, f.view()),
    decreases s.len(),
{
    let u = s.update(k, f);
    if k == s.len() - 1 {
        assert(u.drop_last() =~= s.drop_last());
        assert(font_map(u) =~= font_map(s).insert(f.resource_name@, f.view()));
    } else {
        lemma_font_map_update(s.drop_last(), k, f);
        assert(u.drop_last() =~= s.drop_last().update(k, f));
        assert(s.last().resource_name@ != f.resource_name@);
        assert(font_map(u) =~= font_map(s).insert(f.resource_name@, f.view()));
    }
}

/// The names strictly increase in `str` order.
pub open spec fn names_sorted(s: Seq<FontResource>) -> bool {
    forall|i: int, j: int| 0 <= i < j < s.len() ==> code_lt(#[trigger] s[i].resource_name@, #[trigger] s[j].resource_name@)
}

pub open spec fn font_views(s: Seq<FontResource>) -> Seq<FontView> {
    s.map_values(|f: FontResource| f.view())
}

proof fn lemma_sorted_distinct(s: Seq<FontResource>)
    requires
        names_sorted(s),
    ensures
        distinct_names(s),
{
    assert forall|i: int, j: int| 0 <= i < j < s.len() implies s[i].resource_name@ != s[j].resource_name@ by {
        lemma_code_order(s[i].resource_name@, s[j].resource_name@);
        assert(code_lt(s[i].resource_name@, s[j].resource_name@));
    }
}

proof fn lemma_font_map_insert_at(s: Seq<FontResource>, i: int, f: FontResource)
    requires
        distinct_names(s),
        0 <= i <= s.len(),
        forall|k: int| 0 <= k < s.len() ==> (#[trigger] s[k]).resource_name@ != f.resource_name@,
    ensures
        font_map(s.insert(i, f)) == font_map(s).insert(f.resource_name@, f.view()),
{
    let u = s.insert(i, f);
    assert forall|a: int, b: int| 0 <= a < b < u.len() implies u[a].resource_name@ != u[b].resource_name@ by {
        if a < i && b < i {
        } else if a < i && b == i {
        } else if a < i {
            assert(u[b] == s[b - 1]);
        } else if a == i {
            assert(u[b] == s[b - 1]);
        } else {
            assert(u[a] == s[a - 1] && u[b] == s[b - 1]);
        }
    }
    lemma_font_map_dom(u);
    lemma_font_map_dom(s);
    let m = font_map(s).insert(f.resource_name@, f.view());
    assert forall|n: Seq<char>| font_map(u).dom().contains(n) <==> m.dom().contains(n) by {
        if font_map(u).dom().contains(n) && n != f.resource_name@ {
            let k = choose|k: int| 0 <= k < u.len() && #[trigger] u[k].resource_name@ == n;
            if k < i {
                assert(s[k].resource_name@ == n);
            } else if k > i {
                assert(s[k - 1].resource_name@ == n);
            }
        }
        if m.dom().contains(n) && n != f.resource_name@ {
            let k = choose|k: int| 0 <= k < s.len() && #[trigger] s[k].resource_name@ == n;
            if k < i {
                assert(u[k].resource_name@ == n);
            } else {
                assert(u[k + 1].resource_name@ == n);
            }
        }
        if n == f.resource_name@ {
            assert(u[i].resource_name@ == n);
        }
    }
    assert forall|n: Seq<char>| font_map(u).dom().contains(n) implies font_map(u)[n] == m[n] by {
        if n == f.resource_name@ {
            lemma_font_map_get(u, i);
        } else {
            let k = choose|k: int| 0 <= k < s.len() && #[trigger] s[k].resource_name@ == n;
            lemma_font_map_get(s, k);
            if k < i {
                lemma_font_map_get(u, k);
            } else {
                lemma_font_map_get(u, k + 1);
            }
        }
    }
    assert(font_map(u) =~= m);
}

/// Fonts by resource name; inserting a name that is present replaces its
/// font.
#[derive(Debug, Clone, PartialEq, Eq)]
pub struct FontMap {
    entries: Vec<FontResource>,
}

impl FontMap {
    pub closed spec fn view(&self) -> Map<Seq<char>, FontView> {
        font_map(self.entries@)
    }

    pub closed spec fn wf(&self) -> bool {
        names_sorted(self.entries@)
    }

    /// The fonts in the order of their names.
    pub closed spec fn fonts_view(&self) -> Seq<FontView> {
        font_views(self.entries@)
    }

    pub fn new() -> (m: Self)
        ensures
            m.wf(),
            m@ == Map::<Seq<char>, FontView>::empty(),
    {
        FontMap { entries: Vec::new() }
    }

    /// Binds the font's resource name to it.
    pub fn insert(&mut self, font: FontResource)
        requires
            old(self).wf(),
        ensures
            final(self).wf(),
            final(self)@ == old(self)@.insert(font.resource_name@, font.view()),
    {
        let mut i: usize = 0;
        while i < self.entries.len() && code_less(&self.entries[i].resource_name, &font.resource_name)
            invariant
                i <= self.entries.len(),
                self.entries@ == old(self).entries@,
                names_sorted(self.entries@),
                forall|j: int| 0 <= j < i ==> code_lt((#[trigger] self.entries@[j]).resource_name@, font.resource_name@),
            decreases self.entries.len() - i,
        {
            i += 1;
        }
        let ghost before = self.entries@;
        proof {
            lemma_sorted_distinct(before);
        }
        if i < self.entries.len() && self.entries[i].resource_name == font.resource_name {
            proof {
                lemma_font_map_update(before, i as int, font);
            }
            self.entries.set(i, font);
            proof {
                assert(self.entries@ =~= before.update(i as int, font));
                assert forall|a: int, b: int| 0 <= a < b < self.entries@.len() implies code_lt(
                    (#[trigger] self.entries@[a]).resource_name@,
                    (#[trigger] self.entries@[b]).resource_name@,
                ) by {
                    assert(code_lt(before[a].resource_name@, before[b].resource_name@));
                }
            }
            return;
        }
        proof {
            if i < before.len() {
                lemma_code_order(before[i as int].resource_name@, font.resource_name@);
            }
            assert forall|j: int| 0 <= j < before.len() implies (#[trigger] before[j]).resource_name@ != font.resource_name@ by {
                lemma_code_order(font.resource_name@, font.resource_name@);
                if j >= i {
                    lemma_code_trans(font.resource_name@, before[i as int].resource_name@, before[j].resource_name@);
                }
            }
            lemma_font_map_insert_at(before, i as int, font);
        }
        self.entries.insert(i, font);
        proof {
            assert(self.entries@ == before.insert(i as int, font));
            assert forall|a: int, b: int| 0 <= a < b < self.entries@.len() implies code_lt(
                (#[trigger] self.entries@[a]).resource_name@,
                (#[trigger] self.entries@[b]).resource_name@,
            ) by {
                if b < i {
                    assert(self.entries@[a] == before[a] && self.entries@[b] == before[b]);
                } else if b == i {
                    assert(self.entries@[a] == before[a]);
                } else if a == i {
                    assert(self.entries@[b] == before[b - 1]);
                    if b - 1 > i {
                        lemma_code_trans(font.resource_name@, before[i as int].resource_name@, before[b - 1].resource_name@);
                    }
                } else if a < i {
                    assert(self.entries@[a] == before[a] && self.entries@[b] == before[b - 1]);
                } else {
                    assert(self.entries@[a] == before[a - 1] && self.entries@[b] == before[b - 1]);
                }
            }
        }
    }

    /// The font bound to `name`.
    pub fn get(&self, name: &str) -> (r: Option<&FontResource>)
        requires
            self.wf(),
        ensures
            match r {
                Some(f) => self@.dom().contains(name@) && self@[name@] == f.view(),
                None => !self@.dom().contains(name@),
            },
    {
        let key = name.to_owned();
        proof {
            lemma_sorted_distinct(self.entries@);
        }
        let mut i: usize = 0;
        while i < self.entries.len()
            invariant
                i <= self.entries.len(),
                distinct_names(self.entries@),
                key@ == name@,
                forall|j: int| 0 <= j < i ==> self.entries@[j].resource_name@ != name@,
            decreases self.entries.len() - i,
        {
            if self.entries[i].resource_name == key {
                proof {
                    lemma_font_map_get(self.entries@, i as int);
                }
                return Some(&self.entries[i]);
            }
            i += 1;
        }
        proof {
            lemma_font_map_dom(self.entries@);
        }
        None
    }

    /// No font is bound.
    pub fn is_empty(&self) -> (r: bool)
        ensures
            r == (self@.dom() =~= Set::<Seq<char>>::empty()),
    {
        proof {
            lemma_font_map_dom(self.entries@);
            if self.entries@.len() > 0 {
                assert(self@.dom().contains(self.entries@[0].resource_name@));
            }
        }
        self.entries.len() == 0
    }

    /// The number of names bound.
    pub fn len(&self) -> (r: usize)
        requires
            self.wf(),
        ensures
            r as nat == self@.dom().len(),
    {
        proof {
            lemma_sorted_distinct(self.entries@);
            lemma_font_map_len(self.entries@);
        }
        self.entries.len()
    }

    /// The fonts, one per name, in the order of their names.
    pub fn fonts(&self) -> (r: &Vec<FontResource>)
        requires
            self.wf(),
        ensures
            distinct_names(r@),
            names_sorted(r@),
            font_map(r@) == self@,
            font_views(r@) == self.fonts_view(),
    {
        proof {
            lemma_sorted_distinct(self.entries@);
        }
        &self.entries
    }
}

proof fn lemma_font_map_len(s: Seq<FontResource>)
    requires
        distinct_names(s),
    ensures
        font_map(s).dom().finite(),
        font_map(s).dom().len() == s.len(),
    decreases s.len(),
{
    if s.len() > 0 {
        let p = s.drop_last();
        lemma_font_map_len(p);
        lemma_font_map_dom(p);
        assert(!font_map(p).dom().contains(s.last().resource_name@)) by {
            if font_map(p).dom().contains(s.last().resource_name@) {
                let i = choose|i: int| 0 <= i < p.len() && #[trigger] p[i].resource_name@ == s.last().resource_name@;
                assert(s[i] == p[i]);
            }
        }
    }
}

/// The words of `text` joined by single spaces.
pub open spec fn normalized(text: Seq<char>) -> Seq<char> {
    join_space(ws_tokens(text))
}

/// Collapses each run of whitespace to one space and drops leading and
/// trailing whitespace.
pub fn normalize_text(text: &str) -> (r: String)
    ensures
        r@ == normalized(text@),
{
    let cs = chars_of(text);
    let tokens = split_ws(&cs);
    let ghost ts = token_views(tokens@);
    let mut joined: Vec<char> = Vec::new();
    let mut i: usize = 0;
    proof {
        assert(ts.take(0) =~= Seq::<Seq<char>>::empty());
    }
    while i < tokens.len()
        invariant
            i <= tokens.len(),
            ts == token_views(tokens@),
            joined@ == join_space(ts.take(i as int)),
        decreases tokens.len() - i,
    {
        let ghost before = joined@;
        if i > 0 {
            joined.push(' ');
        }
        let mut j: usize = 0;
        while j < tokens[i].len()
            invariant
                i < tokens.len(),
                j <= tokens@[i as int]@.len(),
                joined@ == (if i > 0 { before.push(' ') } else { before }) + tokens@[i as int]@.take(j as int),
            decreases tokens@[i as int]@.len() - j,
        {
            joined.push(tokens[i][j]);
            proof {
                assert(tokens@[i as int]@.take(j + 1) =~= tokens@[i as int]@.take(j as int).push(
                    tokens@[i as int]@[j as int],
                ));
            }
            j += 1;
        }
        proof {
            assert(tokens@[i as int]@.take(j as int) =~= tokens@[i as int]@);
            assert(ts[i as int] == tokens@[i as int]@);
            let t = ts.take(i + 1);
            assert(t.drop_last() =~= ts.take(i as int));
            assert(t.last() == ts[i as int]);
            if i == 0 {
                assert(joined@ =~= ts[0]);
            } else {
                assert(joined@ =~= join_space(ts.take(i as int)) + seq![' '] + ts[i as int]);
            }
        }
        i += 1;
    }
    proof {
        assert(ts.take(i as int) =~= ts);
    }
    string_of(joined.as_slice())
}

/// The last of the first `n` objects with id `id`.
pub open spec fn last_record(objs: Seq<ObjectRecord>, id: ObjectId, n: int) -> Option<int>
    decreases n,
{
    if n <= 0 {
        None
    } else if objs[n - 1].id == id {
        Some(n - 1)
    } else {
        last_record(objs, id, n - 1)
    }
}

proof fn lemma_last_record(objs: Seq<ObjectRecord>, id: ObjectId, n: int)
    requires
        n <= objs.len(),
    ensures
        last_record(objs, id, n) matches Some(i) ==> 0 <= i < n && objs[i].id == id,
    decreases n,
{
    if n > 0 && objs[n - 1].id != id {
        lemma_last_record(objs, id, n - 1);
    }
}

/// The object that a lookup by id finds: the last one with that id.
pub open spec fn by_id(objs: Seq<ObjectRecord>, id: ObjectId) -> Option<int> {
    last_record(objs, id, objs.len() as int)
}

pub(crate) fn object_by_id<'a>(document: &'a PdfDocument, id: ObjectId) -> (r: Option<&'a PdfObject>)
    ensures
        match by_id(records(document.objects@), id) {
            Some(i) => r matches Some(o) && o.view() == records(document.objects@)[i],
            None => r is None,
        },
{
    let ghost objs = records(document.objects@);
    let mut n = document.objects.len();
    while n > 0
        invariant
            n <= document.objects.len(),
            objs == records(document.objects@),
            by_id(objs, id) == last_record(objs, id, n as int),
        decreases n,
    {
        assert(objs[n - 1] == document.objects@[n - 1].view());
        if document.objects[n - 1].id == id {
            return Some(&document.objects[n - 1]);
        }
        n -= 1;
    }
    None
}

/// The ids that `/DescendantFonts` references name, in order.
pub open spec fn descendant_ids(refs: Seq<(Seq<char>, ObjectId)>) -> Seq<ObjectId>
    decreases refs.len(),
{
    if refs.len() == 0 {
        Seq::empty()
    } else {
        let prev = descendant_ids(refs.drop_last());
        if refs.last().0 == "DescendantFonts"@ {
            prev.push(refs.last().1)
        } else {
            prev
        }
    }
}

/// The `/Subtype` names of those of `ids` that name an object with one.
pub open spec fn descendant_subtypes(objs: Seq<ObjectRecord>, ids: Seq<ObjectId>) -> Seq<Seq<char>>
    decreases ids.len(),
{
    if ids.len() == 0 {
        Seq::empty()
    } else {
        let prev = descendant_subtypes(objs, ids.drop_last());
        match by_id(objs, ids.last()) {
            Some(i) => match name_after_key_spec(objs[i].body, "Subtype"@) {
                Some(st) => prev.push(st),
                None => prev,
            },
            None => prev,
        }
    }
}

/// The font that resource `name` refers to as object `id`, whose text is
/// `body`.
pub open spec fn font_view(objs: Seq<ObjectRecord>, name: Seq<char>, id: ObjectId, body: Seq<char>) -> FontView {
    let ids = descendant_ids(named_refs(body));
    FontView {
        resource_name: name,
        object_id: id,
        subtype: name_after_key_spec(body, "Subtype"@),
        base_font: name_after_key_spec(body, "BaseFont"@),
        encoding: value_after_key(body, "Encoding"@),
        to_unicode: reference_after_key_spec(body, "ToUnicode"@),
        descendant_font_object_ids: ids,
        descendant_subtypes: descendant_subtypes(objs, ids),
    }
}

fn opt_string(v: Option<Vec<char>>) -> (r: Option<String>)
    ensures
        match v {
            Some(c) => r matches Some(s) && s@ == c@,
            None => r is None,
        },
{
    match v {
        Some(c) => Some(string_of(c.as_slice())),
        None => None,
    }
}

fn font_resource_from_object(
    document: &PdfDocument,
    resource_name: String,
    object_id: ObjectId,
    body: &Vec<char>,
) -> (r: FontResource)
    ensures
        r.view() == font_view(records(document.objects@), resource_name@, object_id, body@),
{
    let ghost objs = records(document.objects@);
    let refs = named_references(body);
    let ghost rv = ref_views(refs@);
    let mut ids: Vec<ObjectId> = Vec::new();
    let mut subtypes: Vec<String> = Vec::new();
    let mut i: usize = 0;
    proof {
        assert(rv.take(0) =~= Seq::<(Seq<char>, ObjectId)>::empty());
        assert(text_views(subtypes@) =~= Seq::<Seq<char>>::empty());
    }
    while i < refs.len()
        invariant
            i <= refs.len(),
            rv == ref_views(refs@),
            objs == records(document.objects@),
            ids@ == descendant_ids(rv.take(i as int)),
            text_views(subtypes@) == descendant_subtypes(objs, ids@),
        decreases refs.len() - i,
    {
        proof {
            assert(rv.take(i + 1).drop_last() =~= rv.take(i as int));
            assert(rv.take(i + 1).last() == rv[i as int]);
            assert(rv[i as int] == (refs@[i as int].0@, refs@[i as int].1));
        }
        if same_text(&refs[i].0, "DescendantFonts") {
            let id = refs[i].1;
            let ghost before_ids = ids@;
            let ghost before_sub = text_views(subtypes@);
            ids.push(id);
            proof {
                assert(ids@.drop_last() =~= before_ids);
            }
            if let Some(object) = object_by_id(document, id) {
                let object_chars = chars_of(object.body.as_str());
                if let Some(st) = name_after_key(&object_chars, "Subtype") {
                    subtypes.push(string_of(st.as_slice()));
                    proof {
                        assert(text_views(subtypes@) =~= before_sub.push(st@));
                    }
                }
            }
        }
        i += 1;
    }
    proof {
        assert(rv.take(i as int) =~= rv);
    }
    FontResource {
        resource_name,
        object_id,
        subtype: opt_string(name_after_key(body, "Subtype")),
        base_font: opt_string(name_after_key(body, "BaseFont")),
        encoding: opt_string(value_after_pdf_name(body, "Encoding")),
        to_unicode: reference_after_key(body, "ToUnicode"),
        descendant_font_object_ids: ids,
        descendant_subtypes: subtypes,
    }
}

/// Fonts after binding, in order, those of the first `k` references that
/// name a font object.
pub open spec fn insert_fonts(
    objs: Seq<ObjectRecord>,
    refs: Seq<(Seq<char>, ObjectId)>,
    k: int,
    fonts: Map<Seq<char>, FontView>,
) -> Map<Seq<char>, FontView>
    decreases k,
{
    if k <= 0 {
        fonts
    } else {
        let prev = insert_fonts(objs, refs, k - 1, fonts);
        let (name, id) = refs[k - 1];
        match by_id(objs, id) {
            Some(i) => if font_body(objs[i].body) {
                prev.insert(name, font_view(objs, name, id, objs[i].body))
            } else {
                prev
            },
            None => prev,
        }
    }
}

/// Warnings for the first `k` scoped font references that do not name a
/// font object; a reference repeated within the same text is reported once.
pub open spec fn scoped_diags(objs: Seq<ObjectRecord>, refs: Seq<(Seq<char>, ObjectId)>, k: int) -> Seq<DiagView>
    decreases k,
{
    if k <= 0 {
        Seq::empty()
    } else {
        let prev = scoped_diags(objs, refs, k - 1);
        let (name, id) = refs[k - 1];
        if refs.take(k - 1).contains(refs[k - 1]) {
            prev
        } else {
            match by_id(objs, id) {
                Some(i) => if font_body(objs[i].body) {
                    prev
                } else {
                    prev.push(
                        plain_diag(
                            DiagnosticSeverity::Warning,
                            "FONT_RESOURCE_NOT_FONT"@,
                            "font resource /"@ + name + " points to non-font object "@ + decimal_chars(
                                id.number as nat,
                            ),
                        ),
                    )
                },
                None => prev.push(
                    plain_diag(
                        DiagnosticSeverity::Warning,
                        "MISSING_FONT_RESOURCE"@,
                        "font resource /"@ + name + " points to missing object "@ + decimal_chars(id.number as nat),
                    ),
                ),
            }
        }
    }
}

/// Fonts and warnings after the first `m` objects: each object that is not
/// itself a font binds the fonts its named references point to, and its
/// `/Font` dictionaries are checked for references to missing or non-font
/// objects.
pub open spec fn scan_fonts(objs: Seq<ObjectRecord>, m: int) -> (Map<Seq<char>, FontView>, Seq<DiagView>)
    decreases m,
{
    if m <= 0 {
        (Map::empty(), Seq::empty())
    } else {
        let (fonts, diags) = scan_fonts(objs, m - 1);
        let body = objs[m - 1].body;
        if font_body(body) {
            (fonts, diags)
        } else {
            let named = named_refs(body);
            let scoped = font_refs(body);
            (
                insert_fonts(objs, named, named.len() as int, fonts),
                diags + scoped_diags(objs, scoped, scoped.len() as int),
            )
        }
    }
}

/// The fonts a document's resources name, and warnings for font references
/// that lead nowhere.
#[derive(Debug, Clone, PartialEq, Eq)]
pub struct FontResourceSet {
    pub fonts: FontMap,
    pub diagnostics: Vec<Diagnostic>,
}

fn pair_seen(refs: &Vec<(String, ObjectId)>, k: usize) -> (r: bool)
    requires
        k < refs.len(),
    ensures
        r == ref_views(refs@).take(k as int).contains(ref_views(refs@)[k as int]),
{
    let ghost rv = ref_views(refs@);
    let mut j: usize = 0;
    while j < k
        invariant
            j <= k < refs.len(),
            rv == ref_views(refs@),
            forall|m: int| 0 <= m < j ==> rv[m] != rv[k as int],
        decreases k - j,
    {
        if refs[j].0 == refs[k].0 && refs[j].1 == refs[k].1 {
            proof {
                assert(rv.take(k as int)[j as int] == rv[k as int]);
            }
            return true;
        }
        proof {
            assert(rv[j as int] == (refs@[j as int].0@, refs@[j as int].1));
            assert(rv[k as int] == (refs@[k as int].0@, refs@[k as int].1));
        }
        j += 1;
    }
    proof {
        if rv.take(k as int).contains(rv[k as int]) {
            let m = choose|m: int| 0 <= m < k && rv.take(k as int)[m] == rv[k as int];
            assert(rv.take(k as int)[m] == rv[m]);
        }
    }
    false
}

/// Collects the font resources of `document`.
pub fn font_resources_from_document(document: &PdfDocument) -> (r: FontResourceSet)
    ensures
        r.fonts.wf(),
        r.fonts@ == scan_fonts(records(document.objects@), document.objects@.len() as int).0,
        diag_views(r.diagnostics@) == scan_fonts(records(document.objects@), document.objects@.len() as int).1,
{
    let ghost objs = records(document.objects@);
    let mut fonts = FontMap::new();
    let mut diagnostics: Vec<Diagnostic> = Vec::new();
    let mut m: usize = 0;
    proof {
        assert(diag_views(diagnostics@) =~= Seq::<DiagView>::empty());
    }
    while m < document.objects.len()
        invariant
            m <= document.objects.len(),
            objs == records(document.objects@),
            fonts.wf(),
            scan_fonts(objs, m as int) == (fonts@, diag_views(diagnostics@)),
        decreases document.objects.len() - m,
    {
        let object = &document.objects[m];
        assert(objs[m as int] == object.view());
        let body = chars_of(object.body.as_str());
        if !is_font_object_body(&body) {
            let scoped = font_resource_references(&body);
            let named = named_references(&body);
            let ghost nv = ref_views(named@);
            let ghost fonts0 = fonts@;
            let mut k: usize = 0;
            while k < named.len()
                invariant
                    k <= named.len(),
                    nv == ref_views(named@),
                    objs == records(document.objects@),
                    fonts.wf(),
                    fonts@ == insert_fonts(objs, nv, k as int, fonts0),
                decreases named.len() - k,
            {
                proof {
                    assert(nv[k as int] == (named@[k as int].0@, named@[k as int].1));
                }
                let id = named[k].1;
                if let Some(font_object) = object_by_id(document, id) {
                    let font_chars = chars_of(font_object.body.as_str());
                    if is_font_object_body(&font_chars) {
                        let name = named[k].0.clone();
                        let font = font_resource_from_object(document, name, id, &font_chars);
                        fonts.insert(font);
                    }
                }
                k += 1;
            }
            let ghost sv = ref_views(scoped@);
            let ghost d0 = diag_views(diagnostics@);
            let mut k: usize = 0;
            while k < scoped.len()
                invariant
                    k <= scoped.len(),
                    sv == ref_views(scoped@),
                    objs == records(document.objects@),
                    diag_views(diagnostics@) == d0 + scoped_diags(objs, sv, k as int),
                decreases scoped.len() - k,
            {
                proof {
                    assert(sv[k as int] == (scoped@[k as int].0@, scoped@[k as int].1));
                }
                if !pair_seen(&scoped, k) {
                    let id = scoped[k].1;
                    let found = object_by_id(document, id);
                    let code: &str;
                    let message: String;
                    match found {
                        Some(font_object) => {
                            let font_chars = chars_of(font_object.body.as_str());
                            if is_font_object_body(&font_chars) {
                                k += 1;
                                continue;
                            }
                            let n = usize_to_string(id.number as usize);
                            message = concat(
                                &["font resource /", scoped[k].0.as_str(), " points to non-font object ", n.as_str()],
                            );
                            code = "FONT_RESOURCE_NOT_FONT";
                        },
                        None => {
                            let n = usize_to_string(id.number as usize);
                            message = concat(
                                &["font resource /", scoped[k].0.as_str(), " points to missing object ", n.as_str()],
                            );
                            code = "MISSING_FONT_RESOURCE";
                        },
                    }
                    proof {
                        reveal_with_fuel(crate::fmt::concat_spec, 5);
                    }
                    let ghost before = diag_views(diagnostics@);
                    let d = Diagnostic::warning(code, message.as_str());
                    diagnostics.push(d);
                    proof {
                        assert(diag_views(diagnostics@) =~= before.push(d.view()));
                        assert(d0 + scoped_diags(objs, sv, k + 1) =~= (d0 + scoped_diags(objs, sv, k as int)).push(
                            d.view(),
                        ));
                    }
                } else {
                    proof {
                        assert(d0 + scoped_diags(objs, sv, k + 1) =~= d0 + scoped_diags(objs, sv, k as int));
                    }
                }
                k += 1;
            }
        }
        m += 1;
    }
    FontResourceSet { fonts, diagnostics }
}

} // verus!
