//! Properties that hold of the library as a whole, across its operations.
use vstd::prelude::*;
use crate::types::ObjectId;
use crate::tagged::{s_reference, s_value, s_items, s_dict, SOut, empty_out, fuel, sat_inc, ElementView, object_value, tagged_spec, role_map_spec, parent_tree_spec, mapped_spec, key_position, sort_parents, dedup_parents, nums_spec, nums_entries};
use crate::primitive::PrimitiveView;
use crate::object::ObjectView;
use crate::store::{id_after, first_after, sort_by_id, find_id, reference_chain_spec};
use crate::pages::{PageView, WalkState, InheritedView, add_page, walk, walk_kids, warn, lookup, merge_spec, no_inherited, scan_pages, resolve_pages_spec, values_of, catalog_pages};
use crate::primitive::{has_name, dict_lookup};
use crate::utf8text::{utf8, utf8_lossy};
use crate::document::first_record;
use crate::types::{DiagView, DiagnosticSeverity, ResourceLimits};
use crate::cmap::{decode_from, longest_code};
use crate::textdiff::{lcs, exact_walk, greedy_matches, next_match};
use crate::textscan::{white_space, scan_ws, ws_tokens, join_space};
use crate::fonts::{normalized, FontView, by_id, last_record, insert_fonts, scan_fonts};
use crate::scan::ObjectRecord;
use crate::tagged::{bytes_lt, role_after, role_position, sort_roles, dedup_roles, lemma_bytes_lt_irrefl, lemma_bytes_lt_asym, lemma_bytes_lt_trans, lemma_bytes_lt_total};
use vstd::utf8::{encode_utf8, encode_utf8_decode_utf8};
use crate::filters::{FilterOutcome, ahx_spec, rl_spec};
use crate::content::{op_spec, number_at, OpShape, TokenView};
use crate::extract::{apply_fold, retext, with_text};
use crate::semantic::{structure_kind, SemanticNodeKind};
use crate::diffing::{move_scan, deletions, first_same, match_text, MoveCandidate};
use crate::types::ChangeKind;
use crate::bytes::is_ws;
use crate::lexer::hex_val;
use crate::stream::{FilterKind, apply_filter, chain_spec, ChainOutcome, filter_kind};
use crate::textscan::{font_body, named_refs};
use crate::surfaces::{category_changes, changes_of_category, image_changes, image_changes_spec, payload_views, surface_changes_spec, surface_views, ChangeView, PayloadView, SurfaceCategory, SurfaceView};
use crate::image::{image_samples, lemma_rows_shape};
use crate::scan::PdfObject;
use crate::textdiff::{append_opt, apply_step, flush, fold_steps, hunks_spec, push_merge, steps, HunkState, HunkView, Step};
use crate::types::TextHunkKind;
use crate::document::{document_spec, DocView, ContentView, page_contents_spec, all_contents_spec};
use crate::object::Failure;
use crate::bytes::{count_from, matches_at, is_digit};

verus! {

/// A role-mapped structure type is never the element's own type: the role
/// map is consulted only for a different type.
pub proof fn law_mapped_type_differs(structure_type: Seq<char>, roles: Seq<(Seq<char>, Seq<char>)>, from: int)
    ensures
        mapped_spec(structure_type, roles, from) matches Some(t) ==> t != structure_type,
    decreases roles.len() - from,
{
    if 0 <= from < roles.len() && roles[from].0 != structure_type {
        law_mapped_type_differs(structure_type, roles, from + 1);
    }
}

/// Keys never decrease along `s`.
pub open spec fn keys_sorted(s: Seq<(usize, Seq<ObjectId>)>) -> bool {
    forall|i: int, j: int| 0 <= i < j < s.len() ==> s[i].0 <= s[j].0
}

/// Keys strictly increase along `s`.
pub open spec fn keys_increasing(s: Seq<(usize, Seq<ObjectId>)>) -> bool {
    forall|i: int, j: int| 0 <= i < j < s.len() ==> s[i].0 < s[j].0
}

/// `k` is the key of some entry of `s`.
pub open spec fn has_key(s: Seq<(usize, Seq<ObjectId>)>, k: usize) -> bool {
    exists|i: int| 0 <= i < s.len() && s[i].0 == k
}

proof fn lemma_key_position_props(s: Seq<(usize, Seq<ObjectId>)>, key: usize, from: int)
    requires
        0 <= from <= s.len(),
    ensures
        from <= key_position(s, key, from) <= s.len(),
        forall|j: int| from <= j < key_position(s, key, from) ==> s[j].0 <= key,
        key_position(s, key, from) < s.len() ==> s[key_position(s, key, from)].0 > key,
    decreases s.len() - from,
{
    if from < s.len() && s[from].0 <= key {
        lemma_key_position_props(s, key, from + 1);
    }
}

proof fn lemma_sort_parents(s: Seq<(usize, Seq<ObjectId>)>)
    ensures
        sort_parents(s).len() == s.len(),
        keys_sorted(sort_parents(s)),
        forall|k: usize| #[trigger] has_key(sort_parents(s), k) <==> has_key(s, k),
    decreases s.len(),
{
    if s.len() > 0 {
        let p = s.drop_last();
        let x = s.last();
        lemma_sort_parents(p);
        let sp = sort_parents(p);
        lemma_key_position_props(sp, x.0, 0);
        let pos = key_position(sp, x.0, 0);
        let r = sp.insert(pos, x);
        assert(sort_parents(s) == r);
        assert forall|i: int, j: int| 0 <= i < j < r.len() implies r[i].0 <= r[j].0 by {
            if j < pos {
                assert(r[i] == sp[i] && r[j] == sp[j]);
            } else if j == pos {
                assert(r[i] == sp[i]);
            } else if i < pos {
                assert(r[i] == sp[i] && r[j] == sp[j - 1]);
                if pos < sp.len() {
                    assert(sp[i].0 <= sp[pos].0);
                }
            } else if i == pos {
                assert(r[j] == sp[j - 1]);
                assert(sp[pos].0 > x.0);
                if j - 1 > pos {
                    assert(sp[pos].0 <= sp[j - 1].0);
                }
            } else {
                assert(r[i] == sp[i - 1] && r[j] == sp[j - 1]);
            }
        }
        assert forall|k: usize| has_key(r, k) <==> has_key(s, k) by {
            if has_key(r, k) {
                let i = choose|i: int| 0 <= i < r.len() && r[i].0 == k;
                if i == pos {
                    assert(s[s.len() - 1].0 == k);
                } else {
                    let i2 = if i < pos { i } else { i - 1 };
                    assert(r[i] == sp[i2]);
                    assert(has_key(sp, k));
                    let i3 = choose|i3: int| 0 <= i3 < p.len() && p[i3].0 == k;
                    assert(s[i3] == p[i3]);
                }
            }
            if has_key(s, k) {
                let i = choose|i: int| 0 <= i < s.len() && s[i].0 == k;
                if i == s.len() - 1 {
                    assert(r[pos] == x);
                } else {
                    assert(p[i] == s[i]);
                    assert(has_key(p, k));
                    assert(has_key(sp, k));
                    let i2 = choose|i2: int| 0 <= i2 < sp.len() && sp[i2].0 == k;
                    if i2 < pos {
                        assert(r[i2] == sp[i2]);
                    } else {
                        assert(r[i2 + 1] == sp[i2]);
                    }
                }
            }
        }
    }
}

proof fn lemma_dedup_parents(s: Seq<(usize, Seq<ObjectId>)>)
    requires
        keys_sorted(s),
    ensures
        keys_increasing(dedup_parents(s)),
        forall|k: usize| #[trigger] has_key(dedup_parents(s), k) <==> has_key(s, k),
        dedup_parents(s).len() <= s.len(),
        s.len() > 0 ==> dedup_parents(s).len() > 0 && dedup_parents(s).last().0 == s.last().0,
    decreases s.len(),
{
    if s.len() > 0 {
        let p = s.drop_last();
        let x = s.last();
        assert(keys_sorted(p));
        lemma_dedup_parents(p);
        let dp = dedup_parents(p);
        if s.len() >= 2 && s[s.len() - 2].0 == x.0 {
            assert(p.last() == s[s.len() - 2]);
            assert forall|k: usize| has_key(dp, k) <==> has_key(s, k) by {
                if has_key(s, k) {
                    let i = choose|i: int| 0 <= i < s.len() && s[i].0 == k;
                    if i == s.len() - 1 {
                        assert(p[p.len() - 1].0 == k);
                    } else {
                        assert(p[i] == s[i]);
                    }
                }
                if has_key(p, k) {
                    let i = choose|i: int| 0 <= i < p.len() && p[i].0 == k;
                    assert(s[i] == p[i]);
                }
            }
        } else {
            let r = dp.push(x);
            if p.len() > 0 {
                assert(p.last() == s[s.len() - 2]);
                assert(s[s.len() - 2].0 <= x.0);
            }
            assert forall|i: int, j: int| 0 <= i < j < r.len() implies r[i].0 < r[j].0 by {
                if j == r.len() - 1 {
                    assert(r[i] == dp[i]);
                    if i < dp.len() - 1 {
                        assert(dp[i].0 < dp[dp.len() - 1].0);
                    }
                } else {
                    assert(r[i] == dp[i] && r[j] == dp[j]);
                }
            }
            assert forall|k: usize| has_key(r, k) <==> has_key(s, k) by {
                if has_key(r, k) {
                    let i = choose|i: int| 0 <= i < r.len() && r[i].0 == k;
                    if i == r.len() - 1 {
                        assert(s[s.len() - 1].0 == k);
                    } else {
                        assert(r[i] == dp[i]);
                        assert(has_key(dp, k));
                        assert(has_key(p, k));
                        let i2 = choose|i2: int| 0 <= i2 < p.len() && p[i2].0 == k;
                        assert(s[i2] == p[i2]);
                    }
                }
                if has_key(s, k) {
                    let i = choose|i: int| 0 <= i < s.len() && s[i].0 == k;
                    if i == s.len() - 1 {
                        assert(r[r.len() - 1].0 == k);
                    } else {
                        assert(p[i] == s[i]);
                        assert(has_key(p, k));
                        assert(has_key(dp, k));
                        let i2 = choose|i2: int| 0 <= i2 < dp.len() && dp[i2].0 == k;
                        assert(r[i2] == dp[i2]);
                    }
                }
            }
        }
    }
}

/// The parent tree comes out with one entry per `/StructParents` key, in
/// increasing key order, and with every key that was read.
pub proof fn law_parent_tree_keys(entries: Seq<(usize, Seq<ObjectId>)>)
    ensures
        keys_increasing(dedup_parents(sort_parents(entries))),
        forall|k: usize| has_key(dedup_parents(sort_parents(entries)), k) <==> has_key(entries, k),
{
    lemma_sort_parents(entries);
    lemma_dedup_parents(sort_parents(entries));
}

proof fn lemma_nums_nonempty(items: Seq<PrimitiveView>, k: int)
    ensures
        forall|i: int| 0 <= i < nums_entries(items, k).len() ==> #[trigger] nums_entries(items, k)[i].1.len() > 0,
    decreases k,
{
    if k > 0 {
        lemma_nums_nonempty(items, k - 1);
        let prev = nums_entries(items, k - 1);
        let cur = nums_entries(items, k);
        assert forall|i: int| 0 <= i < cur.len() implies #[trigger] cur[i].1.len() > 0 by {
            if i < prev.len() {
                assert(cur[i] == prev[i]);
            }
        }
    }
}

/// Every `/Nums` entry that is kept names at least one structure element.
pub proof fn law_nums_entries_name_elements(v: PrimitiveView)
    ensures
        forall|i: int| 0 <= i < nums_spec(v).len() ==> #[trigger] nums_spec(v)[i].1.len() > 0,
{
    if let PrimitiveView::Array(items) = v {
        lemma_nums_nonempty(items, (items.len() / 2) as int);
    }
}

/// No object comes after a later one in (number, generation) order.
pub open spec fn ids_sorted(s: Seq<ObjectView>) -> bool {
    forall|i: int, j: int| 0 <= i < j < s.len() ==> !id_after(#[trigger] s[i].id, #[trigger] s[j].id)
}

proof fn lemma_first_after_props(s: Seq<ObjectView>, id: ObjectId, from: int)
    requires
        0 <= from <= s.len(),
    ensures
        from <= first_after(s, id, from) <= s.len(),
        forall|j: int| from <= j < first_after(s, id, from) ==> !id_after(#[trigger] s[j].id, id),
        first_after(s, id, from) < s.len() ==> id_after(s[first_after(s, id, from)].id, id),
    decreases s.len() - from,
{
    if from < s.len() && !id_after(s[from].id, id) {
        lemma_first_after_props(s, id, from + 1);
    }
}

/// The object store's order: sorting by id yields objects in
/// (number, generation) order, and exactly the objects it was given.
pub proof fn law_sort_by_id(s: Seq<ObjectView>)
    ensures
        ids_sorted(sort_by_id(s)),
        sort_by_id(s).to_multiset() == s.to_multiset(),
    decreases s.len(),
{
    if s.len() == 0 {
        assert(sort_by_id(s) =~= s);
    } else {
        let p = s.drop_last();
        let x = s.last();
        law_sort_by_id(p);
        let sp = sort_by_id(p);
        lemma_first_after_props(sp, x.id, 0);
        let pos = first_after(sp, x.id, 0);
        let r = sp.insert(pos, x);
        assert(sort_by_id(s) == r);
        assert forall|i: int, j: int| 0 <= i < j < r.len() implies !id_after(#[trigger] r[i].id, #[trigger] r[j].id) by {
            if j < pos {
                assert(r[i] == sp[i] && r[j] == sp[j]);
            } else if j == pos {
                assert(r[i] == sp[i]);
            } else if i < pos {
                assert(r[i] == sp[i] && r[j] == sp[j - 1]);
                if pos < sp.len() {
                    assert(!id_after(sp[i].id, sp[pos].id));
                    assert(!id_after(sp[pos].id, sp[j - 1].id) || j - 1 == pos);
                }
            } else if i == pos {
                assert(r[j] == sp[j - 1]);
                if j - 1 > pos {
                    assert(!id_after(sp[pos].id, sp[j - 1].id));
                }
            } else {
                assert(r[i] == sp[i - 1] && r[j] == sp[j - 1]);
            }
        }
        vstd::seq_lib::to_multiset_insert(sp, pos, x);
        vstd::seq_lib::to_multiset_build(p, x);
        assert(p.push(x) =~= s);
    }
}

/// `t` holds no whitespace.
pub open spec fn no_space(t: Seq<char>) -> bool {
    forall|i: int| 0 <= i < t.len() ==> !white_space(#[trigger] t[i])
}

proof fn lemma_scan_ws_tokens(s: Seq<char>)
    ensures
        forall|i: int| 0 <= i < scan_ws(s).0.len() ==> (#[trigger] scan_ws(s).0[i]).len() > 0 && no_space(
            scan_ws(s).0[i],
        ),
        no_space(scan_ws(s).1),
    decreases s.len(),
{
    if s.len() > 0 {
        lemma_scan_ws_tokens(s.drop_last());
        let (done, cur) = scan_ws(s.drop_last());
        let (d2, c2) = scan_ws(s);
        if white_space(s.last()) {
            assert(c2 =~= Seq::<char>::empty());
            assert forall|i: int| 0 <= i < d2.len() implies (#[trigger] d2[i]).len() > 0 && no_space(d2[i]) by {
                if i < done.len() {
                    assert(d2[i] == done[i]);
                }
            }
        } else {
            assert forall|i: int| 0 <= i < c2.len() implies !white_space(#[trigger] c2[i]) by {
                if i < cur.len() {
                    assert(c2[i] == cur[i]);
                }
            }
        }
    }
}

/// Whitespace tokens are non-empty and hold no whitespace.
pub proof fn law_tokens_are_words(s: Seq<char>)
    ensures
        forall|i: int| 0 <= i < ws_tokens(s).len() ==> (#[trigger] ws_tokens(s)[i]).len() > 0 && no_space(ws_tokens(s)[i]),
{
    lemma_scan_ws_tokens(s);
    let (done, cur) = scan_ws(s);
    assert forall|i: int| 0 <= i < ws_tokens(s).len() implies (#[trigger] ws_tokens(s)[i]).len() > 0 && no_space(
        ws_tokens(s)[i],
    ) by {
        if i < done.len() {
            assert(ws_tokens(s)[i] == done[i]);
        }
    }
}

proof fn lemma_scan_word(x: Seq<char>, t: Seq<char>)
    requires
        no_space(t),
    ensures
        scan_ws(x + t) == (scan_ws(x).0, scan_ws(x).1 + t),
    decreases t.len(),
{
    if t.len() == 0 {
        assert(x + t =~= x);
        assert(scan_ws(x).1 + t =~= scan_ws(x).1);
    } else {
        lemma_scan_word(x, t.drop_last());
        assert((x + t).drop_last() =~= x + t.drop_last());
        assert((x + t).last() == t.last());
        assert(!white_space(t[t.len() - 1]));
        assert(scan_ws(x).1 + t.drop_last() + seq![t.last()] =~= scan_ws(x).1 + t);
        assert((scan_ws(x).1 + t.drop_last()).push(t.last()) =~= scan_ws(x).1 + t);
    }
}

proof fn lemma_join_tokens(ts: Seq<Seq<char>>)
    requires
        forall|i: int| 0 <= i < ts.len() ==> (#[trigger] ts[i]).len() > 0 && no_space(ts[i]),
    ensures
        ws_tokens(join_space(ts)) == ts,
    decreases ts.len(),
{
    if ts.len() == 0 {
        assert(scan_ws(Seq::<char>::empty()) == (Seq::<Seq<char>>::empty(), Seq::<char>::empty()));
    } else if ts.len() == 1 {
        let t = ts[0];
        lemma_scan_word(Seq::<char>::empty(), t);
        assert(Seq::<char>::empty() + t =~= t);
        assert(Seq::<char>::empty() + t =~= t);
        assert(ws_tokens(t) =~= seq![t]);
        assert(ts =~= seq![t]);
    } else {
        let p = ts.drop_last();
        let t = ts.last();
        assert forall|i: int| 0 <= i < p.len() implies (#[trigger] p[i]).len() > 0 && no_space(p[i]) by {
            assert(p[i] == ts[i]);
        }
        lemma_join_tokens(p);
        let j = join_space(p);
        assert(ts[ts.len() - 1] == t);
        let js = j.push(' ');
        assert(js.drop_last() =~= j);
        assert(white_space(js.last()));
        lemma_scan_word(js, t);
        assert(j + seq![' '] + t =~= js + t);
        assert(scan_ws(js).1 =~= Seq::<char>::empty());
        assert(scan_ws(js).0 == ws_tokens(j));
        assert(Seq::<char>::empty() + t =~= t);
        assert(ws_tokens(join_space(ts)) =~= p.push(t));
        assert(p.push(t) =~= ts);
    }
}

/// Normalizing text twice gives what normalizing it once gives.
pub proof fn law_normalize_idempotent(text: Seq<char>)
    ensures
        normalized(normalized(text)) == normalized(text),
{
    law_tokens_are_words(text);
    lemma_join_tokens(ws_tokens(text));
}

/// Every font bound in `fonts` is keyed by its own resource name and refers
/// to an object of `objs` whose text declares a font.
pub open spec fn fonts_consistent(objs: Seq<ObjectRecord>, fonts: Map<Seq<char>, FontView>) -> bool {
    forall|k: Seq<char>| #[trigger] fonts.dom().contains(k) ==> {
        &&& fonts[k].resource_name == k
        &&& by_id(objs, fonts[k].object_id) matches Some(i) && 0 <= i < objs.len() && font_body(objs[i].body)
    }
}

proof fn lemma_by_id_range(objs: Seq<ObjectRecord>, id: ObjectId, n: int)
    requires
        n <= objs.len(),
    ensures
        last_record(objs, id, n) matches Some(i) ==> 0 <= i < n && objs[i].id == id,
    decreases n,
{
    if n > 0 && objs[n - 1].id != id {
        lemma_by_id_range(objs, id, n - 1);
    }
}

proof fn lemma_insert_fonts(
    objs: Seq<ObjectRecord>,
    refs: Seq<(Seq<char>, ObjectId)>,
    k: int,
    fonts: Map<Seq<char>, FontView>,
)
    requires
        fonts_consistent(objs, fonts),
        k <= refs.len(),
    ensures
        fonts_consistent(objs, insert_fonts(objs, refs, k, fonts)),
    decreases k,
{
    if k > 0 {
        lemma_insert_fonts(objs, refs, k - 1, fonts);
        let prev = insert_fonts(objs, refs, k - 1, fonts);
        let (name, id) = refs[k - 1];
        lemma_by_id_range(objs, id, objs.len() as int);
        let cur = insert_fonts(objs, refs, k, fonts);
        assert forall|key: Seq<char>| #[trigger] cur.dom().contains(key) implies {
            &&& cur[key].resource_name == key
            &&& by_id(objs, cur[key].object_id) matches Some(i) && 0 <= i < objs.len() && font_body(objs[i].body)
        } by {
            if key != name || cur == prev {
                assert(prev.dom().contains(key));
            }
        }
    }
}

/// The font resource map binds each name to the font that it names, and
/// only to objects that declare a font.
pub proof fn law_fonts_keyed_by_name(objs: Seq<ObjectRecord>, m: int)
    ensures
        fonts_consistent(objs, scan_fonts(objs, m).0),
    decreases m,
{
    if m > 0 {
        law_fonts_keyed_by_name(objs, m - 1);
        let body = objs[m - 1].body;
        if !font_body(body) {
            let named = named_refs(body);
            lemma_insert_fonts(objs, named, named.len() as int, scan_fonts(objs, m - 1).0);
        }
    }
}

/// Role-map order: by source, then by target, byte-wise.
pub open spec fn role_lt(a: (Seq<char>, Seq<char>), b: (Seq<char>, Seq<char>)) -> bool {
    role_after(b, a)
}

proof fn lemma_role_order(a: (Seq<char>, Seq<char>), b: (Seq<char>, Seq<char>), c: (Seq<char>, Seq<char>))
    ensures
        role_lt(a, b) ==> !role_lt(b, a),
        role_lt(a, b) && role_lt(b, c) ==> role_lt(a, c),
        a == b || role_lt(a, b) || role_lt(b, a),
{
    let (a0, a1, b0, b1, c0, c1) = (encode_utf8(a.0), encode_utf8(a.1), encode_utf8(b.0), encode_utf8(b.1), encode_utf8(c.0), encode_utf8(c.1));
    lemma_bytes_lt_asym(a0, b0);
    lemma_bytes_lt_asym(a1, b1);
    lemma_bytes_lt_irrefl(a0);
    lemma_bytes_lt_irrefl(b0);
    lemma_bytes_lt_trans(a0, b0, c0);
    lemma_bytes_lt_trans(a1, b1, c1);
    lemma_bytes_lt_total(a0, b0);
    lemma_bytes_lt_total(a1, b1);
    encode_utf8_decode_utf8(a.0);
    encode_utf8_decode_utf8(a.1);
    encode_utf8_decode_utf8(b.0);
    encode_utf8_decode_utf8(b.1);
}

/// Entries never go down along `s`.
pub open spec fn roles_sorted(s: Seq<(Seq<char>, Seq<char>)>) -> bool {
    forall|i: int, j: int| 0 <= i < j < s.len() ==> !role_lt(#[trigger] s[j], #[trigger] s[i])
}

/// Entries strictly go up along `s`.
pub open spec fn roles_increasing(s: Seq<(Seq<char>, Seq<char>)>) -> bool {
    forall|i: int, j: int| 0 <= i < j < s.len() ==> role_lt(#[trigger] s[i], #[trigger] s[j])
}

proof fn lemma_role_position_props(s: Seq<(Seq<char>, Seq<char>)>, x: (Seq<char>, Seq<char>), from: int)
    requires
        0 <= from <= s.len(),
    ensures
        from <= role_position(s, x, from) <= s.len(),
        forall|j: int| from <= j < role_position(s, x, from) ==> !role_after(#[trigger] s[j], x),
        role_position(s, x, from) < s.len() ==> role_after(s[role_position(s, x, from)], x),
    decreases s.len() - from,
{
    if from < s.len() && !role_after(s[from], x) {
        lemma_role_position_props(s, x, from + 1);
    }
}

proof fn lemma_sort_roles(s: Seq<(Seq<char>, Seq<char>)>)
    ensures
        sort_roles(s).len() == s.len(),
        roles_sorted(sort_roles(s)),
        forall|x: (Seq<char>, Seq<char>)| #[trigger] sort_roles(s).contains(x) <==> s.contains(x),
    decreases s.len(),
{
    if s.len() > 0 {
        let p = s.drop_last();
        let x = s.last();
        lemma_sort_roles(p);
        let sp = sort_roles(p);
        lemma_role_position_props(sp, x, 0);
        let pos = role_position(sp, x, 0);
        let r = sp.insert(pos, x);
        assert(sort_roles(s) == r);
        assert forall|i: int, j: int| 0 <= i < j < r.len() implies !role_lt(#[trigger] r[j], #[trigger] r[i]) by {
            if j < pos {
                assert(r[i] == sp[i] && r[j] == sp[j]);
            } else if j == pos {
                assert(r[i] == sp[i]);
            } else if i < pos {
                assert(r[i] == sp[i] && r[j] == sp[j - 1]);
            } else if i == pos {
                assert(r[j] == sp[j - 1]);
                lemma_role_order(x, sp[pos], sp[j - 1]);
                lemma_role_order(sp[j - 1], sp[pos], x);
                lemma_role_order(sp[pos], sp[j - 1], x);
                if j - 1 > pos {
                    assert(!role_lt(sp[j - 1], sp[pos]));
                }
            } else {
                assert(r[i] == sp[i - 1] && r[j] == sp[j - 1]);
            }
        }
        assert forall|y: (Seq<char>, Seq<char>)| #[trigger] r.contains(y) <==> s.contains(y) by {
            if r.contains(y) {
                let i = choose|i: int| 0 <= i < r.len() && r[i] == y;
                if i == pos {
                    assert(s[s.len() - 1] == y);
                } else {
                    let i2 = if i < pos { i } else { i - 1 };
                    assert(r[i] == sp[i2]);
                    assert(sp.contains(y));
                    assert(p.contains(y));
                    let i3 = choose|i3: int| 0 <= i3 < p.len() && p[i3] == y;
                    assert(s[i3] == p[i3]);
                }
            }
            if s.contains(y) {
                let i = choose|i: int| 0 <= i < s.len() && s[i] == y;
                if i == s.len() - 1 {
                    assert(r[pos] == x);
                } else {
                    assert(p[i] == s[i]);
                    assert(p.contains(y));
                    assert(sp.contains(y));
                    let i2 = choose|i2: int| 0 <= i2 < sp.len() && sp[i2] == y;
                    if i2 < pos {
                        assert(r[i2] == sp[i2]);
                    } else {
                        assert(r[i2 + 1] == sp[i2]);
                    }
                }
            }
        }
    }
}

proof fn lemma_dedup_roles(s: Seq<(Seq<char>, Seq<char>)>)
    requires
        roles_sorted(s),
    ensures
        roles_increasing(dedup_roles(s)),
        forall|x: (Seq<char>, Seq<char>)| #[trigger] dedup_roles(s).contains(x) <==> s.contains(x),
        s.len() > 0 ==> dedup_roles(s).len() > 0 && dedup_roles(s).last() == s.last(),
    decreases s.len(),
{
    if s.len() > 0 {
        let p = s.drop_last();
        let x = s.last();
        assert(roles_sorted(p));
        lemma_dedup_roles(p);
        let dp = dedup_roles(p);
        if s.len() >= 2 && s[s.len() - 2] == x {
            assert(p.last() == s[s.len() - 2]);
            assert forall|y: (Seq<char>, Seq<char>)| #[trigger] dp.contains(y) <==> s.contains(y) by {
                if s.contains(y) {
                    let i = choose|i: int| 0 <= i < s.len() && s[i] == y;
                    if i == s.len() - 1 {
                        assert(p[p.len() - 1] == y);
                    } else {
                        assert(p[i] == s[i]);
                    }
                    assert(p.contains(y));
                }
                if dp.contains(y) {
                    assert(p.contains(y));
                    let i = choose|i: int| 0 <= i < p.len() && p[i] == y;
                    assert(s[i] == p[i]);
                }
            }
        } else {
            let r = dp.push(x);
            if p.len() > 0 {
                assert(p.last() == s[s.len() - 2]);
                lemma_role_order(s[s.len() - 2], x, x);
                assert(!role_lt(x, s[s.len() - 2]));
                assert(role_lt(s[s.len() - 2], x));
            }
            assert forall|i: int, j: int| 0 <= i < j < r.len() implies role_lt(#[trigger] r[i], #[trigger] r[j]) by {
                if j == r.len() - 1 {
                    assert(r[i] == dp[i]);
                    if i < dp.len() - 1 {
                        assert(role_lt(dp[i], dp[dp.len() - 1]));
                        lemma_role_order(dp[i], dp[dp.len() - 1], x);
                    }
                } else {
                    assert(r[i] == dp[i] && r[j] == dp[j]);
                }
            }
            assert forall|y: (Seq<char>, Seq<char>)| #[trigger] r.contains(y) <==> s.contains(y) by {
                if r.contains(y) {
                    let i = choose|i: int| 0 <= i < r.len() && r[i] == y;
                    if i == r.len() - 1 {
                        assert(s[s.len() - 1] == y);
                    } else {
                        assert(r[i] == dp[i]);
                        assert(dp.contains(y));
                        assert(p.contains(y));
                        let i2 = choose|i2: int| 0 <= i2 < p.len() && p[i2] == y;
                        assert(s[i2] == p[i2]);
                    }
                }
                if s.contains(y) {
                    let i = choose|i: int| 0 <= i < s.len() && s[i] == y;
                    if i == s.len() - 1 {
                        assert(r[r.len() - 1] == y);
                    } else {
                        assert(p[i] == s[i]);
                        assert(p.contains(y));
                        assert(dp.contains(y));
                        let i2 = choose|i2: int| 0 <= i2 < dp.len() && dp[i2] == y;
                        assert(r[i2] == dp[i2]);
                    }
                }
            }
        }
    }
}

/// The role map comes out sorted by source and then target, without
/// repeats, and with exactly the entries that were read.
pub proof fn law_role_map_sorted(roles: Seq<(Seq<char>, Seq<char>)>)
    ensures
        roles_increasing(dedup_roles(sort_roles(roles))),
        forall|x: (Seq<char>, Seq<char>)| #[trigger] dedup_roles(sort_roles(roles)).contains(x) <==> roles.contains(x),
{
    lemma_sort_roles(roles);
    lemma_dedup_roles(sort_roles(roles));
}

proof fn lemma_ahx_within(s: Seq<u8>, i: int, high: Option<u8>, acc: Seq<u8>, limit: nat)
    requires
        acc.len() <= limit,
    ensures
        ahx_spec(s, i, high, acc, limit) matches FilterOutcome::Decoded(out) ==> out.len() <= limit,
    decreases s.len() - i,
{
    if !(i < 0 || i >= s.len() || s[i] == 0x3eu8) {
        if is_ws(s[i]) {
            lemma_ahx_within(s, i + 1, high, acc, limit);
        } else {
            match hex_val(s[i]) {
                None => {},
                Some(n) => match high {
                    Some(h) => if acc.len() + 1 <= limit {
                        lemma_ahx_within(s, i + 1, None, acc.push((h * 16 + n) as u8), limit);
                    },
                    None => lemma_ahx_within(s, i + 1, Some(n), acc, limit),
                },
            }
        }
    }
}

proof fn lemma_rl_within(s: Seq<u8>, i: int, acc: Seq<u8>, limit: nat)
    requires
        acc.len() <= limit,
    ensures
        rl_spec(s, i, acc, limit) matches FilterOutcome::Decoded(out) ==> out.len() <= limit,
    decreases s.len() - i,
{
    if !(i < 0 || i >= s.len() || s[i] == 128u8) {
        if s[i] < 128u8 {
            let count = s[i] + 1;
            let end = i + 1 + count;
            if end <= s.len() && acc.len() + count <= limit {
                lemma_rl_within(s, end, acc + s.subrange(i + 1, end), limit);
            }
        } else {
            let count = 257 - s[i];
            if i + 1 < s.len() && acc.len() + count <= limit {
                lemma_rl_within(s, i + 2, acc + Seq::new(count as nat, |k: int| s[i + 1]), limit);
            }
        }
    }
}

/// A filter never decodes to more than the decoded-size limit.
pub proof fn law_filter_within_limit(kind: FilterKind, input: Seq<u8>, limit: nat)
    ensures
        apply_filter(kind, input, limit) matches FilterOutcome::Decoded(out) ==> out.len() <= limit,
{
    match kind {
        FilterKind::Flate => {},
        FilterKind::AsciiHex => lemma_ahx_within(input, 0, None, Seq::empty(), limit),
        FilterKind::RunLength => lemma_rl_within(input, 0, Seq::empty(), limit),
    }
}

/// A stream decoded through one or more filters is never longer than the
/// decoded-size limit.
pub proof fn law_decoded_stream_within_limit(names: Seq<Seq<char>>, i: int, data: Seq<u8>, limit: nat)
    requires
        0 <= i < names.len(),
    ensures
        chain_spec(names, i, data, limit) matches ChainOutcome::Decoded(out) ==> out.len() <= limit,
    decreases names.len() - i,
{
    if let Some(kind) = filter_kind(names[i]) {
        law_filter_within_limit(kind, data, limit);
        if let FilterOutcome::Decoded(next) = apply_filter(kind, data, limit) {
            if i + 1 < names.len() {
                law_decoded_stream_within_limit(names, i + 1, next, limit);
            }
        }
    }
}

proof fn lemma_find_id_range(objs: Seq<ObjectView>, id: ObjectId, from: int)
    requires
        0 <= from,
    ensures
        find_id(objs, id, from) matches Some(i) ==> from <= i < objs.len() && objs[i].id == id,
    decreases objs.len() - from,
{
    if from < objs.len() && objs[from].id != id {
        lemma_find_id_range(objs, id, from + 1);
    }
}

/// Following a chain of references ends at an object of the store whose
/// value is not itself a reference.
pub proof fn law_reference_chain_ends_at_value(
    objs: Seq<ObjectView>,
    current: ObjectId,
    depth: int,
    max: int,
    seen: Seq<ObjectId>,
)
    ensures
        reference_chain_spec(objs, current, depth, max, seen) matches Ok(i) ==> 0 <= i < objs.len()
            && !(objs[i].value is Reference),
    decreases max - depth,
{
    lemma_find_id_range(objs, current, 0);
    if depth <= max && !seen.contains(current) {
        if let Some(i) = find_id(objs, current, 0) {
            if let PrimitiveView::Reference(next) = objs[i].value {
                if depth < max {
                    law_reference_chain_ends_at_value(objs, next, depth + 1, max, seen.push(current));
                }
            }
        }
    }
}

/// Each page's index is its position among the pages.
pub open spec fn pages_indexed(pages: Seq<PageView>) -> bool {
    forall|i: int| 0 <= i < pages.len() ==> #[trigger] pages[i].page_index == i as usize
}

proof fn lemma_add_page_indexed(st: WalkState, id: ObjectId, v: PrimitiveView, inh: InheritedView)
    requires
        pages_indexed(st.pages),
    ensures
        pages_indexed(add_page(st, id, v, inh).pages),
{
    let r = add_page(st, id, v, inh);
    assert forall|i: int| 0 <= i < r.pages.len() implies #[trigger] r.pages[i].page_index == i as usize by {
        if i < st.pages.len() {
            assert(r.pages[i] == st.pages[i]);
        }
    }
}

proof fn lemma_walk_indexed(
    vals: Seq<(ObjectId, PrimitiveView)>,
    id: ObjectId,
    inh: InheritedView,
    max_pages: int,
    seen: Seq<ObjectId>,
    st: WalkState,
)
    requires
        pages_indexed(st.pages),
    ensures
        walk(vals, id, inh, max_pages, seen, st) matches Ok(s2) ==> pages_indexed(s2.pages),
    decreases vals.len() + 1 - seen.len(), 0int, 0int,
{
    if seen.len() <= vals.len() && st.pages.len() <= max_pages && !seen.contains(id) {
        if let Some(v) = lookup(vals, id) {
            let inh2 = merge_spec(inh, v);
            if has_name(v, utf8("Type"), utf8("Pages")) {
                if let Some(PrimitiveView::Array(kids)) = dict_lookup(v, utf8("Kids")) {
                    lemma_walk_kids_indexed(vals, kids, 0, id, inh2, max_pages, seen.push(id), st);
                }
            } else if has_name(v, utf8("Type"), utf8("Page")) {
                lemma_add_page_indexed(st, id, v, inh2);
            }
        }
    }
}

proof fn lemma_walk_kids_indexed(
    vals: Seq<(ObjectId, PrimitiveView)>,
    kids: Seq<PrimitiveView>,
    i: int,
    node: ObjectId,
    inh: InheritedView,
    max_pages: int,
    seen: Seq<ObjectId>,
    st: WalkState,
)
    requires
        pages_indexed(st.pages),
    ensures
        walk_kids(vals, kids, i, node, inh, max_pages, seen, st) matches Ok(s2) ==> pages_indexed(s2.pages),
    decreases vals.len() + 1 - seen.len(), 1int, kids.len() - i,
{
    if !(i < 0 || i >= kids.len() || seen.len() > vals.len() + 1) {
        match kids[i] {
            PrimitiveView::Reference(kid) => {
                lemma_walk_indexed(vals, kid, inh, max_pages, seen, st);
                if let Ok(st2) = walk(vals, kid, inh, max_pages, seen, st) {
                    lemma_walk_kids_indexed(vals, kids, i + 1, node, inh, max_pages, seen, st2);
                }
            },
            _ => {
                lemma_walk_kids_indexed(
                    vals,
                    kids,
                    i + 1,
                    node,
                    inh,
                    max_pages,
                    seen,
                    warn(st, "PAGE_TREE_KID_INVALID"@, "pages node contains a non-reference /Kids entry"@, node),
                );
            },
        }
    }
}

proof fn lemma_scan_pages_indexed(rs: Seq<ObjectRecord>, vals: Seq<(ObjectId, PrimitiveView)>, m: int, st: WalkState)
    requires
        pages_indexed(st.pages),
    ensures
        pages_indexed(scan_pages(rs, vals, m, st).pages),
    decreases m,
{
    if m > 0 {
        lemma_scan_pages_indexed(rs, vals, m - 1, st);
        let prev = scan_pages(rs, vals, m - 1, st);
        if let Some(v) = lookup(vals, rs[m - 1].id) {
            lemma_add_page_indexed(prev, rs[m - 1].id, v, merge_spec(no_inherited(), v));
        }
    }
}

/// Pages come out numbered by position: the page at position `i` has
/// page index `i`, whether the page tree or the fallback scan found them.
pub proof fn law_pages_indexed_by_position(rs: Seq<ObjectRecord>, limits: ResourceLimits, diags: Seq<DiagView>)
    ensures
        resolve_pages_spec(rs, limits, diags) matches Ok(st) ==> pages_indexed(st.pages),
{
    reveal(resolve_pages_spec);
    let vals = values_of(rs);
    let max = limits.max_pages as int;
    let start = WalkState { diags, pages: Seq::empty() };
    lemma_scan_pages_indexed(rs, vals, rs.len() as int, start);
    if let Some(root) = catalog_pages(vals, 0) {
        lemma_walk_indexed(vals, root, no_inherited(), max, Seq::empty(), start);
        if let Ok(st) = walk(vals, root, no_inherited(), max, Seq::empty(), start) {
            let fallback = WalkState {
                diags: st.diags.push(
                    crate::types::plain_diag(
                        DiagnosticSeverity::Warning,
                        "PAGE_TREE_EMPTY"@,
                        "catalog /Pages tree resolved without page entries; falling back to scanned page objects"@,
                    ),
                ),
                pages: st.pages,
            };
            lemma_scan_pages_indexed(rs, vals, rs.len() as int, fallback);
        }
    }
}

/// Decoding a code that the map binds gives back its text.
pub proof fn law_decode_bound_code(code: Seq<u8>, m: Map<Seq<u8>, Seq<char>>)
    requires
        1 <= code.len() <= 4,
        m.dom().contains(code),
    ensures
        decode_from(code, m, 0) == Some(m[code]),
{
    assert(code.subrange(0, code.len() as int) =~= code);
    assert(longest_code(code, m, 0) == Some(code.len() as int));
    assert(decode_from(code, m, code.len() as int) == Some(Seq::<char>::empty()));
    assert(m[code] + Seq::<char>::empty() =~= m[code]);
}

/// The pairs increase in both coordinates and pair equal texts.
pub open spec fn common_subsequence(a: Seq<Seq<char>>, b: Seq<Seq<char>>, ms: Seq<(usize, usize)>) -> bool {
    &&& forall|k: int| 0 <= k < ms.len() ==> (#[trigger] ms[k]).0 < a.len() && ms[k].1 < b.len() && a[ms[k].0 as int]
        == b[ms[k].1 as int]
    &&& forall|k: int, l: int| 0 <= k < l < ms.len() ==> (#[trigger] ms[k]).0 < (#[trigger] ms[l]).0 && ms[k].1 < ms[l].1
}

proof fn lemma_exact_walk(a: Seq<Seq<char>>, b: Seq<Seq<char>>, i: int, j: int)
    requires
        0 <= i <= a.len(),
        0 <= j <= b.len(),
        a.len() <= usize::MAX,
        b.len() <= usize::MAX,
    ensures
        common_subsequence(a, b, exact_walk(a, b, i, j)),
        exact_walk(a, b, i, j).len() == lcs(a, b, i, j),
        forall|k: int| 0 <= k < exact_walk(a, b, i, j).len() ==> (#[trigger] exact_walk(a, b, i, j)[k]).0 >= i
            && exact_walk(a, b, i, j)[k].1 >= j,
    decreases a.len() - i + b.len() - j,
{
    if i < a.len() && j < b.len() {
        if a[i] == b[j] {
            lemma_exact_walk(a, b, i + 1, j + 1);
            let rest = exact_walk(a, b, i + 1, j + 1);
            let w = exact_walk(a, b, i, j);
            assert(w == seq![(i as usize, j as usize)] + rest);
            assert forall|k: int| 0 <= k < w.len() implies (#[trigger] w[k]).0 < a.len() && w[k].1 < b.len()
                && a[w[k].0 as int] == b[w[k].1 as int] && w[k].0 >= i && w[k].1 >= j by {
                if k > 0 {
                    assert(w[k] == rest[k - 1]);
                }
            }
            assert forall|k: int, l: int| 0 <= k < l < w.len() implies (#[trigger] w[k]).0 < (#[trigger] w[l]).0
                && w[k].1 < w[l].1 by {
                assert(w[l] == rest[l - 1]);
                if k > 0 {
                    assert(w[k] == rest[k - 1]);
                }
            }
        } else if lcs(a, b, i + 1, j) >= lcs(a, b, i, j + 1) {
            lemma_exact_walk(a, b, i + 1, j);
        } else {
            lemma_exact_walk(a, b, i, j + 1);
        }
    }
}

/// Exact anchoring matches texts along a longest common subsequence: the
/// matched pairs are equal texts in increasing order on both sides, and
/// there are as many as the longest common subsequence is long.
pub proof fn law_exact_matches(a: Seq<Seq<char>>, b: Seq<Seq<char>>)
    requires
        a.len() <= usize::MAX,
        b.len() <= usize::MAX,
    ensures
        common_subsequence(a, b, exact_walk(a, b, 0, 0)),
        exact_walk(a, b, 0, 0).len() == lcs(a, b, 0, 0),
{
    lemma_exact_walk(a, b, 0, 0);
}

proof fn lemma_next_match_props(b: Seq<Seq<char>>, t: Seq<char>, from: int)
    requires
        from >= 0,
    ensures
        next_match(b, t, from) matches Some(j) ==> from <= j < b.len() && b[j] == t,
    decreases b.len() - from,
{
    if from < b.len() && b[from] != t {
        lemma_next_match_props(b, t, from + 1);
    }
}

proof fn lemma_greedy(a: Seq<Seq<char>>, b: Seq<Seq<char>>, k: int)
    requires
        0 <= k <= a.len(),
        a.len() <= usize::MAX,
        b.len() <= usize::MAX,
    ensures
        common_subsequence(a, b, greedy_matches(a, b, k).0),
        forall|m: int| 0 <= m < greedy_matches(a, b, k).0.len() ==> (#[trigger] greedy_matches(a, b, k).0[m]).0 < k,
        greedy_matches(a, b, k).1 matches Some(x) ==> 0 <= x < b.len() && forall|m: int| 0 <= m < greedy_matches(a, b, k).0.len() ==> (#[trigger] greedy_matches(a, b, k).0[m]).1 <= x,
        greedy_matches(a, b, k).1 is None ==> greedy_matches(a, b, k).0.len() == 0,
    decreases k,
{
    if k > 0 {
        lemma_greedy(a, b, k - 1);
        let (ms, last) = greedy_matches(a, b, k - 1);
        let lower = match last {
            Some(x) => x + 1,
            None => 0,
        };
        lemma_next_match_props(b, a[k - 1], lower);
        if a[k - 1].len() != 0 {
            if let Some(j) = next_match(b, a[k - 1], lower) {
                let r = ms.push(((k - 1) as usize, j as usize));
                assert forall|p: int, q: int| 0 <= p < q < r.len() implies (#[trigger] r[p]).0 < (#[trigger] r[q]).0
                    && r[p].1 < r[q].1 by {
                    if q == r.len() - 1 {
                        assert(r[p] == ms[p]);
                    } else {
                        assert(r[p] == ms[p] && r[q] == ms[q]);
                    }
                }
                assert forall|p: int| 0 <= p < r.len() implies (#[trigger] r[p]).0 < a.len() && r[p].1 < b.len()
                    && a[r[p].0 as int] == b[r[p].1 as int] by {
                    if p < ms.len() {
                        assert(r[p] == ms[p]);
                    }
                }
            }
        }
    }
}

/// Greedy anchoring pairs equal texts in increasing order on both sides.
pub proof fn law_greedy_matches(a: Seq<Seq<char>>, b: Seq<Seq<char>>)
    requires
        a.len() <= usize::MAX,
        b.len() <= usize::MAX,
    ensures
        common_subsequence(a, b, greedy_matches(a, b, a.len() as int).0),
{
    lemma_greedy(a, b, a.len() as int);
}


proof fn lemma_no_category_changes(c: SurfaceCategory, v: Seq<SurfaceView>, n: int)
    requires
        n <= v.len(),
    ensures
        category_changes(c, v, v, n) == Seq::<ChangeView>::empty(),
    decreases n,
{
    if n > 0 {
        lemma_no_category_changes(c, v, n - 1);
    }
}

proof fn lemma_no_image_changes(v: Seq<PayloadView>, n: int)
    requires
        n <= v.len(),
    ensures
        image_changes(v, v, n) == Seq::<ChangeView>::empty(),
    decreases n,
{
    if n > 0 {
        lemma_no_image_changes(v, n - 1);
    }
}

/// A document compared with itself shows no surface change and no image
/// payload change.
pub proof fn law_identical_documents_have_no_surface_changes(objs: Seq<PdfObject>)
    ensures
        surface_changes_spec(objs, objs) == Seq::<ChangeView>::empty(),
        image_changes_spec(objs, objs) == Seq::<ChangeView>::empty(),
{
    let cats = seq![
        SurfaceCategory::Annotation,
        SurfaceCategory::FormField,
        SurfaceCategory::Outline,
        SurfaceCategory::Metadata,
        SurfaceCategory::Attachment,
    ];
    assert forall|k: int| 0 <= k < 5 implies changes_of_category(objs, objs, #[trigger] cats[k]) == Seq::<ChangeView>::empty() by {
        let v = surface_views(objs, cats[k]);
        lemma_no_category_changes(cats[k], v, v.len() as int);
    }
    assert(changes_of_category(objs, objs, cats[0]) == Seq::<ChangeView>::empty());
    assert(changes_of_category(objs, objs, cats[1]) == Seq::<ChangeView>::empty());
    assert(changes_of_category(objs, objs, cats[2]) == Seq::<ChangeView>::empty());
    assert(changes_of_category(objs, objs, cats[3]) == Seq::<ChangeView>::empty());
    assert(changes_of_category(objs, objs, cats[4]) == Seq::<ChangeView>::empty());
    assert(surface_changes_spec(objs, objs) =~= Seq::<ChangeView>::empty());
    let p = payload_views(objs);
    lemma_no_image_changes(p, p.len() as int);
}

/// The samples read from an image fill it: width times height pixels of
/// `comps` bytes each.
pub proof fn law_samples_fill_the_image(bytes: Seq<u8>, width: usize, height: usize, comps: usize, predictor: usize)
    requires
        image_samples(bytes, width, height, comps, predictor) is Ok,
    ensures
        image_samples(bytes, width, height, comps, predictor)->Ok_0.len() == width * comps * height,
{
    let row_len = width * comps;
    if predictor != 1 {
        lemma_rows_shape(bytes, row_len, comps as int, height as int);
    }
}

/// Every token is non-empty.
pub open spec fn words_nonempty(a: Seq<Seq<char>>) -> bool {
    forall|k: int| 0 <= k < a.len() ==> (#[trigger] a[k]).len() > 0
}

proof fn lemma_steps_same(a: Seq<Seq<char>>, i: int)
    requires
        0 <= i <= a.len(),
    ensures
        steps(a, a, i, i) =~= Seq::new((a.len() - i) as nat, |k: int| Step::Same(a[i + k])),
    decreases a.len() - i,
{
    if i < a.len() {
        lemma_steps_same(a, i + 1);
    }
}

proof fn lemma_join_nonempty(ts: Seq<Seq<char>>)
    requires
        ts.len() > 0,
        words_nonempty(ts),
    ensures
        join_space(ts).len() > 0,
    decreases ts.len(),
{
    if ts.len() > 1 {
        lemma_join_nonempty(ts.drop_last());
        assert(ts.last() == ts[ts.len() - 1]);
    } else {
        assert(ts[0].len() > 0);
    }
}

proof fn lemma_fold_same(a: Seq<Seq<char>>, k: int)
    requires
        0 <= k <= a.len(),
        words_nonempty(a),
    ensures
        fold_steps(
            steps(a, a, 0, 0),
            k,
            HunkState { hunks: Seq::empty(), deleted: Seq::empty(), inserted: Seq::empty() },
        ) == (HunkState {
            hunks: if k == 0 {
                Seq::<HunkView>::empty()
            } else {
                seq![
                    HunkView {
                        kind: TextHunkKind::Equal,
                        old_text: Some(join_space(a.take(k))),
                        new_text: Some(join_space(a.take(k))),
                    },
                ]
            },
            deleted: Seq::empty(),
            inserted: Seq::empty(),
        }),
    decreases k,
{
    lemma_steps_same(a, 0);
    if k > 0 {
        lemma_fold_same(a, k - 1);
        let ss = steps(a, a, 0, 0);
        let init = HunkState { hunks: Seq::<HunkView>::empty(), deleted: Seq::<Seq<char>>::empty(), inserted: Seq::<Seq<char>>::empty() };
        let prev = fold_steps(ss, k - 1, init);
        assert(ss[k - 1] == Step::Same(a[k - 1]));
        assert(fold_steps(ss, k, init) == apply_step(prev, ss[k - 1]));
        let x = a[k - 1];
        let t = a.take(k);
        assert(t.drop_last() =~= a.take(k - 1));
        assert(t.last() == x);
        assert(flush(prev.hunks, prev.deleted, prev.inserted) == prev.hunks);
        if k > 1 {
            assert(words_nonempty(a.take(k - 1)));
            lemma_join_nonempty(a.take(k - 1));
            let j = join_space(a.take(k - 1));
            assert(join_space(t) == j + seq![' '] + x);
            assert(append_opt(Some(j), Some(x)) == Some(j + seq![' '] + x));
            let h = HunkView { kind: TextHunkKind::Equal, old_text: Some(j), new_text: Some(j) };
            assert(prev.hunks == seq![h]);
            assert(push_merge(prev.hunks, TextHunkKind::Equal, Some(x), Some(x)) =~= seq![
                HunkView { kind: TextHunkKind::Equal, old_text: Some(join_space(t)), new_text: Some(join_space(t)) },
            ]);
        } else {
            assert(t =~= seq![a[0]]);
            assert(join_space(t) == a[0]);
            assert(push_merge(prev.hunks, TextHunkKind::Equal, Some(x), Some(x)) =~= seq![
                HunkView { kind: TextHunkKind::Equal, old_text: Some(join_space(t)), new_text: Some(join_space(t)) },
            ]);
        }
    }
}

/// Comparing a list of words with itself gives one equal hunk that holds
/// all of it (none for an empty list): identical texts show no change.
pub proof fn law_identical_texts_are_one_equal_hunk(a: Seq<Seq<char>>)
    requires
        words_nonempty(a),
    ensures
        hunks_spec(a, a) == if a.len() == 0 {
            Seq::<HunkView>::empty()
        } else {
            seq![HunkView { kind: TextHunkKind::Equal, old_text: Some(join_space(a)), new_text: Some(join_space(a)) }]
        },
{
    lemma_steps_same(a, 0);
    lemma_fold_same(a, a.len() as int);
    assert(a.take(a.len() as int) =~= a);
}


/// Parsing the file stops with failure `f`.
pub open spec fn parse_refused(s: Seq<u8>, limits: ResourceLimits, f: Failure) -> bool {
    document_spec(s, limits) == Err::<DocView, Failure>(f)
}

/// The file holds a `%PDF-digit.digit` header.
pub open spec fn header_ok(s: Seq<u8>) -> bool {
    s.len() >= 8 && matches_at(s, 0, utf8("%PDF-")) && is_digit(s[5]) && s[6] == 0x2eu8 && is_digit(s[7])
}

/// Parsing refuses a file in this order: when it is over the size limit;
/// when it is shorter than a header; when it does not start with `%PDF-`;
/// when the version is not `digit.digit`; and when it holds `/Encrypt`
/// anywhere, with the encryption refusal. A file that parses carries the
/// header's version and at most the object limit of objects.
pub proof fn law_parse_refusals(s: Seq<u8>, limits: ResourceLimits)
    ensures
        s.len() > limits.max_file_bytes ==> parse_refused(s, limits, Failure::FileSize),
        s.len() <= limits.max_file_bytes && s.len() < 8 ==> parse_refused(s, limits, Failure::Invalid),
        s.len() <= limits.max_file_bytes && s.len() >= 8 && !matches_at(s, 0, utf8("%PDF-"))
            ==> parse_refused(s, limits, Failure::Unsupported),
        s.len() <= limits.max_file_bytes && s.len() >= 8 && matches_at(s, 0, utf8("%PDF-")) && !header_ok(s)
            ==> parse_refused(s, limits, Failure::Invalid),
        s.len() <= limits.max_file_bytes && header_ok(s) && count_from(s, 0, utf8("/Encrypt")) > 0
            ==> parse_refused(s, limits, Failure::Encrypted),
        document_spec(s, limits) is Ok ==> document_spec(s, limits)->Ok_0.version.major == s[5] - 0x30,
        document_spec(s, limits) is Ok ==> document_spec(s, limits)->Ok_0.version.minor == s[7] - 0x30,
        document_spec(s, limits) is Ok ==> document_spec(s, limits)->Ok_0.objects.len() <= limits.max_objects,
{
    reveal(document_spec);
}


/// Every content of one page carries that page's index and object.
pub proof fn law_page_contents_carry_their_page(objs: Seq<ObjectRecord>, page: PageView, m: int)
    ensures
        forall|k: int|
            0 <= k < page_contents_spec(objs, page, m).len() ==> (#[trigger] page_contents_spec(objs, page, m)[k]).page_index
                == page.page_index && page_contents_spec(objs, page, m)[k].page_object_id == page.object_id,
    decreases m,
{
    if m > 0 {
        law_page_contents_carry_their_page(objs, page, m - 1);
        let prev = page_contents_spec(objs, page, m - 1);
        let cur = page_contents_spec(objs, page, m);
        assert forall|k: int| 0 <= k < cur.len() implies (#[trigger] cur[k]).page_index == page.page_index
            && cur[k].page_object_id == page.object_id by {
            if k < prev.len() {
                assert(cur[k] == prev[k]);
            }
        }
    }
}

/// The contents of all pages start with those of the first page, and a
/// document without pages has no contents.
pub proof fn law_first_page_contents_lead(objs: Seq<ObjectRecord>, pages: Seq<PageView>, m: int)
    requires
        1 <= m <= pages.len(),
    ensures
        all_contents_spec(objs, pages, 0).len() == 0,
        page_contents_spec(objs, pages[0], pages[0].content_object_ids.len() as int).is_prefix_of(
            all_contents_spec(objs, pages, m),
        ),
    decreases m,
{
    let first = page_contents_spec(objs, pages[0], pages[0].content_object_ids.len() as int);
    if m == 1 {
        assert(all_contents_spec(objs, pages, 0) =~= Seq::<ContentView>::empty());
        assert(all_contents_spec(objs, pages, 1) =~= first);
    } else {
        law_first_page_contents_lead(objs, pages, m - 1);
        let prev = all_contents_spec(objs, pages, m - 1);
        let add = page_contents_spec(objs, pages[m - 1], pages[m - 1].content_object_ids.len() as int);
        assert(all_contents_spec(objs, pages, m) == prev + add);
        assert forall|k: int| 0 <= k < first.len() implies first[k] == (prev + add)[k] by {
            assert(first[k] == prev[k]);
        }
    }
}


/// The structure summary of any document: without a structure tree root it
/// has no role map, elements or parent tree; its role map is strictly
/// increasing by source and then target; its parent tree is strictly
/// increasing by key.
pub proof fn law_tagged_summary_ordered(objs: Seq<ObjectRecord>, limits: ResourceLimits)
    ensures
        tagged_spec(objs, limits).root_object_id is None ==> tagged_spec(objs, limits).role_map.len() == 0
            && tagged_spec(objs, limits).roots.len() == 0 && tagged_spec(objs, limits).parent_tree.len() == 0,
        roles_increasing(tagged_spec(objs, limits).role_map),
        keys_increasing(tagged_spec(objs, limits).parent_tree),
{
    let v = tagged_spec(objs, limits);
    if let Some(id) = v.root_object_id {
        let d1 = crate::tagged::root_id_spec(objs, limits, 0, Seq::empty()).1;
        let roles = role_map_spec(objs, id, limits, d1).0;
        assert(v.role_map == roles);
        match crate::tagged::value_of_object(objs, id, limits) {
            None => {},
            Some(root) => {
                match crate::primitive::dict_lookup(root, utf8("RoleMap")) {
                    Some(PrimitiveView::Dictionary(es)) => {
                        let (rs, _) = crate::tagged::role_entries(es, es.len() as int, id, d1);
                        law_role_map_sorted(rs);
                    },
                    _ => {},
                }
                match crate::primitive::dict_lookup(root, utf8("ParentTree")) {
                    Some(p) => {
                        let (es, _) = crate::tagged::p_value(objs, limits, p, 0, Seq::empty());
                        law_parent_tree_keys(es);
                    },
                    None => {},
                }
            },
        }
    }
}


/// The text of one side of a hunk: the old text, or the new one.
pub open spec fn side_text(h: HunkView, old: bool) -> Option<Seq<char>> {
    if old {
        h.old_text
    } else {
        h.new_text
    }
}

/// The texts that the hunks hold on one side, in order.
pub open spec fn side_texts(hs: Seq<HunkView>, old: bool) -> Seq<Seq<char>>
    decreases hs.len(),
{
    if hs.len() == 0 {
        Seq::empty()
    } else {
        let prev = side_texts(hs.drop_last(), old);
        match side_text(hs.last(), old) {
            Some(t) => prev.push(t),
            None => prev,
        }
    }
}

/// The tokens that the steps take from one side, in order.
pub open spec fn side_tokens(ss: Seq<Step>, old: bool) -> Seq<Seq<char>>
    decreases ss.len(),
{
    if ss.len() == 0 {
        Seq::empty()
    } else {
        let prev = side_tokens(ss.drop_last(), old);
        match ss.last() {
            Step::Same(t) => prev.push(t),
            Step::Del(t) => if old {
                prev.push(t)
            } else {
                prev
            },
            Step::Ins(t) => if old {
                prev
            } else {
                prev.push(t)
            },
        }
    }
}

/// Two texts joined by a space, either of them possibly empty.
pub open spec fn join2(x: Seq<char>, y: Seq<char>) -> Seq<char> {
    if x.len() == 0 {
        y
    } else if y.len() == 0 {
        x
    } else {
        x + seq![' '] + y
    }
}

proof fn lemma_join2_assoc(x: Seq<char>, y: Seq<char>, z: Seq<char>)
    ensures
        join2(join2(x, y), z) == join2(x, join2(y, z)),
{
    assert(join2(join2(x, y), z) =~= join2(x, join2(y, z)));
}

proof fn lemma_join_push(l: Seq<Seq<char>>, e: Seq<char>)
    requires
        words_nonempty(l),
        e.len() > 0,
    ensures
        join_space(l.push(e)) == join2(join_space(l), e),
        words_nonempty(l.push(e)),
{
    assert(l.push(e).drop_last() =~= l);
    if l.len() > 0 {
        lemma_join_nonempty(l);
    } else {
        assert(join_space(l.push(e)) == e);
    }
}

proof fn lemma_join_empty_iff(l: Seq<Seq<char>>)
    requires
        words_nonempty(l),
    ensures
        (join_space(l).len() == 0) == (l.len() == 0),
{
    if l.len() > 0 {
        lemma_join_nonempty(l);
    }
}

proof fn lemma_step_prepend(x: Step, rest: Seq<Step>, old: bool)
    ensures
        side_tokens(seq![x] + rest, old) == side_tokens(seq![x], old) + side_tokens(rest, old),
    decreases rest.len(),
{
    if rest.len() == 0 {
        assert(seq![x] + rest =~= seq![x]);
    } else {
        lemma_step_prepend(x, rest.drop_last(), old);
        assert((seq![x] + rest).drop_last() =~= seq![x] + rest.drop_last());
        assert((seq![x] + rest).last() == rest.last());
        assert(seq![x].drop_last() =~= Seq::<Step>::empty());
        let a = side_tokens(seq![x], old);
        let p = side_tokens(rest.drop_last(), old);
        assert forall|t: Seq<char>| #[trigger] (a + p).push(t) == a + p.push(t) by {
            assert((a + p).push(t) =~= a + p.push(t));
        }
    }
}

/// The steps of the walk from `(i, j)` take exactly the rest of each side.
proof fn lemma_steps_sides(a: Seq<Seq<char>>, b: Seq<Seq<char>>, i: int, j: int)
    requires
        0 <= i <= a.len(),
        0 <= j <= b.len(),
    ensures
        side_tokens(steps(a, b, i, j), true) == a.skip(i),
        side_tokens(steps(a, b, i, j), false) == b.skip(j),
    decreases a.len() - i + b.len() - j,
{
    if i == a.len() && j == b.len() {
        assert(a.skip(i) =~= Seq::<Seq<char>>::empty());
        assert(b.skip(j) =~= Seq::<Seq<char>>::empty());
    } else if i < a.len() && j < b.len() && a[i] == b[j] {
        lemma_steps_sides(a, b, i + 1, j + 1);
        let x = Step::Same(a[i]);
        lemma_step_prepend(x, steps(a, b, i + 1, j + 1), true);
        lemma_step_prepend(x, steps(a, b, i + 1, j + 1), false);
        assert(seq![x].drop_last() =~= Seq::<Step>::empty());
        assert(a.skip(i) =~= seq![a[i]] + a.skip(i + 1));
        assert(b.skip(j) =~= seq![b[j]] + b.skip(j + 1));
        assert(seq![x].last() == x);
        assert(side_tokens(seq![x].drop_last(), true) =~= Seq::<Seq<char>>::empty());
        assert(side_tokens(seq![x].drop_last(), false) =~= Seq::<Seq<char>>::empty());
        assert(side_tokens(seq![x], true) =~= seq![a[i]]);
        assert(side_tokens(seq![x], false) =~= seq![b[j]]);
    } else if j >= b.len() || (i < a.len() && lcs(a, b, i + 1, j) >= lcs(a, b, i, j + 1)) {
        lemma_steps_sides(a, b, i + 1, j);
        let x = Step::Del(a[i]);
        lemma_step_prepend(x, steps(a, b, i + 1, j), true);
        lemma_step_prepend(x, steps(a, b, i + 1, j), false);
        assert(seq![x].drop_last() =~= Seq::<Step>::empty());
        assert(a.skip(i) =~= seq![a[i]] + a.skip(i + 1));
        assert(seq![x].last() == x);
        assert(side_tokens(seq![x].drop_last(), true) =~= Seq::<Seq<char>>::empty());
        assert(side_tokens(seq![x].drop_last(), false) =~= Seq::<Seq<char>>::empty());
        assert(side_tokens(seq![x], true) =~= seq![a[i]]);
        assert(side_tokens(seq![x], false) =~= Seq::<Seq<char>>::empty());
        assert(Seq::<Seq<char>>::empty() + b.skip(j) =~= b.skip(j));
    } else {
        lemma_steps_sides(a, b, i, j + 1);
        let x = Step::Ins(b[j]);
        lemma_step_prepend(x, steps(a, b, i, j + 1), true);
        lemma_step_prepend(x, steps(a, b, i, j + 1), false);
        assert(seq![x].drop_last() =~= Seq::<Step>::empty());
        assert(b.skip(j) =~= seq![b[j]] + b.skip(j + 1));
        assert(seq![x].last() == x);
        assert(side_tokens(seq![x].drop_last(), true) =~= Seq::<Seq<char>>::empty());
        assert(side_tokens(seq![x].drop_last(), false) =~= Seq::<Seq<char>>::empty());
        assert(side_tokens(seq![x], false) =~= seq![b[j]]);
        assert(side_tokens(seq![x], true) =~= Seq::<Seq<char>>::empty());
        assert(Seq::<Seq<char>>::empty() + a.skip(i) =~= a.skip(i));
    }
}


/// Every token of the steps is non-empty.
pub open spec fn step_tokens_nonempty(ss: Seq<Step>) -> bool {
    forall|k: int| 0 <= k < ss.len() ==> match #[trigger] ss[k] {
        Step::Same(t) => t.len() > 0,
        Step::Del(t) => t.len() > 0,
        Step::Ins(t) => t.len() > 0,
    }
}

proof fn lemma_steps_nonempty(a: Seq<Seq<char>>, b: Seq<Seq<char>>, i: int, j: int)
    requires
        0 <= i <= a.len(),
        0 <= j <= b.len(),
        words_nonempty(a),
        words_nonempty(b),
    ensures
        step_tokens_nonempty(steps(a, b, i, j)),
    decreases a.len() - i + b.len() - j,
{
    if i == a.len() && j == b.len() {
    } else if i < a.len() && j < b.len() && a[i] == b[j] {
        lemma_steps_nonempty(a, b, i + 1, j + 1);
        let rest = steps(a, b, i + 1, j + 1);
        assert(a[i].len() > 0);
        assert forall|k: int| 0 <= k < (seq![Step::Same(a[i])] + rest).len() implies match #[trigger] (seq![
            Step::Same(a[i]),
        ] + rest)[k] {
            Step::Same(t) => t.len() > 0,
            Step::Del(t) => t.len() > 0,
            Step::Ins(t) => t.len() > 0,
        } by {
            if k > 0 {
                assert((seq![Step::Same(a[i])] + rest)[k] == rest[k - 1]);
            }
        }
    } else if j >= b.len() || (i < a.len() && lcs(a, b, i + 1, j) >= lcs(a, b, i, j + 1)) {
        lemma_steps_nonempty(a, b, i + 1, j);
        let rest = steps(a, b, i + 1, j);
        assert(a[i].len() > 0);
        assert forall|k: int| 0 <= k < (seq![Step::Del(a[i])] + rest).len() implies match #[trigger] (seq![
            Step::Del(a[i]),
        ] + rest)[k] {
            Step::Same(t) => t.len() > 0,
            Step::Del(t) => t.len() > 0,
            Step::Ins(t) => t.len() > 0,
        } by {
            if k > 0 {
                assert((seq![Step::Del(a[i])] + rest)[k] == rest[k - 1]);
            }
        }
    } else {
        lemma_steps_nonempty(a, b, i, j + 1);
        let rest = steps(a, b, i, j + 1);
        assert(b[j].len() > 0);
        assert forall|k: int| 0 <= k < (seq![Step::Ins(b[j])] + rest).len() implies match #[trigger] (seq![
            Step::Ins(b[j]),
        ] + rest)[k] {
            Step::Same(t) => t.len() > 0,
            Step::Del(t) => t.len() > 0,
            Step::Ins(t) => t.len() > 0,
        } by {
            if k > 0 {
                assert((seq![Step::Ins(b[j])] + rest)[k] == rest[k - 1]);
            }
        }
    }
}

/// What a text adds on one side, given the old and the new text.
pub open spec fn side_of(ot: Option<Seq<char>>, nt: Option<Seq<char>>, old: bool) -> Option<Seq<char>> {
    if old {
        ot
    } else {
        nt
    }
}

proof fn lemma_push_merge_side(
    hs: Seq<HunkView>,
    kind: TextHunkKind,
    ot: Option<Seq<char>>,
    nt: Option<Seq<char>>,
    old: bool,
)
    requires
        words_nonempty(side_texts(hs, old)),
        side_of(ot, nt, old) matches Some(x) ==> x.len() > 0,
    ensures
        words_nonempty(side_texts(push_merge(hs, kind, ot, nt), old)),
        join_space(side_texts(push_merge(hs, kind, ot, nt), old)) == match side_of(ot, nt, old) {
            Some(x) => join2(join_space(side_texts(hs, old)), x),
            None => join_space(side_texts(hs, old)),
        },
{
    let r = push_merge(hs, kind, ot, nt);
    let add = side_of(ot, nt, old);
    if hs.len() > 0 && hs.last().kind == kind {
        let v = r.last();
        assert(r.drop_last() =~= hs.drop_last());
        assert(r.last() == r[r.len() - 1]);
        let s0 = side_texts(hs.drop_last(), old);
        let st = side_texts(hs, old);
        match side_text(hs.last(), old) {
            Some(t0) => {
                assert(st == s0.push(t0));
                assert(st[st.len() - 1] == t0);
                assert(t0.len() > 0);
                assert(s0 =~= st.drop_last());
                assert(words_nonempty(s0)) by {
                    assert forall|k: int| 0 <= k < s0.len() implies (#[trigger] s0[k]).len() > 0 by {
                        assert(s0[k] == st[k]);
                    }
                }
                match add {
                    Some(x) => {
                        assert(side_text(v, old) == Some(t0 + seq![' '] + x));
                        assert(t0 + seq![' '] + x == join2(t0, x));
                        lemma_join_push(s0, join2(t0, x));
                        lemma_join_push(s0, t0);
                        lemma_join2_assoc(join_space(s0), t0, x);
                    },
                    None => {
                        assert(side_text(v, old) == Some(t0));
                        assert(side_texts(r, old) =~= st);
                    },
                }
            },
            None => {
                assert(st == s0);
                match add {
                    Some(x) => {
                        assert(side_text(v, old) == Some(x));
                        lemma_join_push(s0, x);
                    },
                    None => {
                        assert(side_text(v, old) is None);
                        assert(side_texts(r, old) =~= st);
                    },
                }
            },
        }
    } else {
        assert(r.drop_last() =~= hs);
        match add {
            Some(x) => {
                lemma_join_push(side_texts(hs, old), x);
            },
            None => {},
        }
    }
}

/// The pending tokens of one side.
pub open spec fn pending(st: HunkState, old: bool) -> Seq<Seq<char>> {
    if old {
        st.deleted
    } else {
        st.inserted
    }
}

proof fn lemma_flush_side(hs: Seq<HunkView>, d: Seq<Seq<char>>, ins: Seq<Seq<char>>, old: bool)
    requires
        words_nonempty(side_texts(hs, old)),
        words_nonempty(d),
        words_nonempty(ins),
    ensures
        words_nonempty(side_texts(flush(hs, d, ins), old)),
        join_space(side_texts(flush(hs, d, ins), old)) == join2(
            join_space(side_texts(hs, old)),
            join_space(if old { d } else { ins }),
        ),
{
    let p = if old { d } else { ins };
    lemma_join_empty_iff(p);
    lemma_join_empty_iff(d);
    lemma_join_empty_iff(ins);
    if d.len() == 0 && ins.len() == 0 {
        assert(join_space(p).len() == 0);
        assert(join2(join_space(side_texts(hs, old)), join_space(p)) =~= join_space(side_texts(hs, old)));
    } else {
        let kind = if d.len() > 0 && ins.len() > 0 {
            TextHunkKind::Replaced
        } else if d.len() > 0 {
            TextHunkKind::Deleted
        } else {
            TextHunkKind::Inserted
        };
        let ot = if d.len() > 0 { Some(join_space(d)) } else { None };
        let nt = if ins.len() > 0 { Some(join_space(ins)) } else { None };
        lemma_push_merge_side(hs, kind, ot, nt, old);
        if p.len() == 0 {
            assert(join2(join_space(side_texts(hs, old)), join_space(p)) =~= join_space(side_texts(hs, old)));
        }
    }
}

pub open spec fn empty_state() -> HunkState {
    HunkState { hunks: Seq::empty(), deleted: Seq::empty(), inserted: Seq::empty() }
}

proof fn lemma_fold_side(ss: Seq<Step>, k: int, old: bool)
    requires
        0 <= k <= ss.len(),
        step_tokens_nonempty(ss),
    ensures
        ({
            let st = fold_steps(ss, k, empty_state());
            &&& words_nonempty(side_texts(st.hunks, old))
            &&& words_nonempty(st.deleted)
            &&& words_nonempty(st.inserted)
            &&& words_nonempty(side_tokens(ss.take(k), old))
            &&& join_space(side_tokens(ss.take(k), old)) == join2(
                join_space(side_texts(st.hunks, old)),
                join_space(pending(st, old)),
            )
        }),
    decreases k,
{
    if k == 0 {
        assert(ss.take(0) =~= Seq::<Step>::empty());
        let st = fold_steps(ss, 0, empty_state());
        assert(side_texts(st.hunks, old) =~= Seq::<Seq<char>>::empty());
        assert(join2(Seq::<char>::empty(), Seq::<char>::empty()) =~= Seq::<char>::empty());
    } else {
        lemma_fold_side(ss, k - 1, old);
        let st = fold_steps(ss, k - 1, empty_state());
        let c = side_tokens(ss.take(k - 1), old);
        let jh = join_space(side_texts(st.hunks, old));
        assert(ss.take(k).drop_last() =~= ss.take(k - 1));
        assert(ss.take(k).last() == ss[k - 1]);
        let step = ss[k - 1];
        assert(fold_steps(ss, k, empty_state()) == apply_step(st, step));
        match step {
            Step::Same(t) => {
                assert(t.len() > 0);
                lemma_flush_side(st.hunks, st.deleted, st.inserted, old);
                let h1 = flush(st.hunks, st.deleted, st.inserted);
                lemma_push_merge_side(h1, TextHunkKind::Equal, Some(t), Some(t), old);
                lemma_join_push(c, t);
                let e = Seq::<Seq<char>>::empty();
                assert(join_space(e) =~= Seq::<char>::empty());
                let jn = join_space(side_texts(push_merge(h1, TextHunkKind::Equal, Some(t), Some(t)), old));
                assert(join2(jn, Seq::<char>::empty()) =~= jn);
            },
            Step::Del(t) => {
                assert(t.len() > 0);
                lemma_join_push(st.deleted, t);
                if old {
                    lemma_join_push(c, t);
                    lemma_join2_assoc(jh, join_space(st.deleted), t);
                }
            },
            Step::Ins(t) => {
                assert(t.len() > 0);
                lemma_join_push(st.inserted, t);
                if !old {
                    lemma_join_push(c, t);
                    lemma_join2_assoc(jh, join_space(st.inserted), t);
                }
            },
        }
    }
}

/// Joining, with single spaces, the old texts of the hunks of a comparison
/// gives back the old words joined the same way, and likewise the new
/// texts give back the new words: the hunks lose and invent nothing.
pub proof fn law_hunks_rejoin_tokens(a: Seq<Seq<char>>, b: Seq<Seq<char>>)
    requires
        words_nonempty(a),
        words_nonempty(b),
    ensures
        join_space(side_texts(hunks_spec(a, b), true)) == join_space(a),
        join_space(side_texts(hunks_spec(a, b), false)) == join_space(b),
{
    let ss = steps(a, b, 0, 0);
    lemma_steps_sides(a, b, 0, 0);
    assert(a.skip(0) =~= a);
    assert(b.skip(0) =~= b);
    lemma_steps_nonempty(a, b, 0, 0);
    lemma_fold_side(ss, ss.len() as int, true);
    lemma_fold_side(ss, ss.len() as int, false);
    assert(ss.take(ss.len() as int) =~= ss);
    let st = fold_steps(ss, ss.len() as int, empty_state());
    lemma_flush_side(st.hunks, st.deleted, st.inserted, true);
    lemma_flush_side(st.hunks, st.deleted, st.inserted, false);
}


/// A hunk holds the texts its kind calls for: an equal hunk the same text
/// on both sides, an insertion only a new text, a deletion only an old one,
/// a replacement both.
pub open spec fn hunk_shaped(h: HunkView) -> bool {
    match h.kind {
        TextHunkKind::Equal => h.old_text is Some && h.old_text == h.new_text,
        TextHunkKind::Inserted => h.old_text is None && h.new_text is Some,
        TextHunkKind::Deleted => h.old_text is Some && h.new_text is None,
        TextHunkKind::Replaced => h.old_text is Some && h.new_text is Some,
    }
}

/// Every hunk is shaped for its kind, and no two neighbours share a kind.
pub open spec fn hunks_shaped(hs: Seq<HunkView>) -> bool {
    &&& forall|i: int| 0 <= i < hs.len() ==> hunk_shaped(#[trigger] hs[i])
    &&& forall|i: int, j: int| 0 <= i && j == i + 1 && j < hs.len() ==> (#[trigger] hs[i]).kind != (#[trigger] hs[j]).kind
}

proof fn lemma_merged_shaped(last: HunkView, kind: TextHunkKind, ot: Option<Seq<char>>, nt: Option<Seq<char>>)
    requires
        last.kind == kind,
        hunk_shaped(last),
        hunk_shaped(HunkView { kind, old_text: ot, new_text: nt }),
    ensures
        hunk_shaped(
            HunkView { kind, old_text: append_opt(last.old_text, ot), new_text: append_opt(last.new_text, nt) },
        ),
{
}

proof fn lemma_update_last_shaped(hs: Seq<HunkView>, v: HunkView)
    requires
        hs.len() > 0,
        hunks_shaped(hs),
        hunk_shaped(v),
        v.kind == hs[hs.len() - 1].kind,
    ensures
        hunks_shaped(hs.update(hs.len() - 1, v)),
{
    let r = hs.update(hs.len() - 1, v);
    assert forall|i: int| 0 <= i < r.len() implies hunk_shaped(#[trigger] r[i]) by {
        if i < r.len() - 1 {
            assert(r[i] == hs[i]);
        }
    }
    assert forall|i: int, j: int| 0 <= i && j == i + 1 && j < r.len() implies (#[trigger] r[i]).kind != (#[trigger] r[j]).kind by {
        assert(hs[i].kind != hs[j].kind);
        assert(r[i].kind == hs[i].kind);
        assert(r[j].kind == hs[j].kind);
    }
}

proof fn lemma_push_shaped(hs: Seq<HunkView>, v: HunkView)
    requires
        hunks_shaped(hs),
        hunk_shaped(v),
        hs.len() > 0 ==> v.kind != hs[hs.len() - 1].kind,
    ensures
        hunks_shaped(hs.push(v)),
{
    let r = hs.push(v);
    assert forall|i: int| 0 <= i < r.len() implies hunk_shaped(#[trigger] r[i]) by {
        if i < hs.len() {
            assert(r[i] == hs[i]);
        }
    }
    assert forall|i: int, j: int| 0 <= i && j == i + 1 && j < r.len() implies (#[trigger] r[i]).kind != (#[trigger] r[j]).kind by {
        if j < hs.len() {
            assert(hs[i].kind != hs[j].kind);
            assert(r[j] == hs[j]);
        }
        assert(r[i] == hs[i]);
    }
}

proof fn lemma_push_merge_shaped(
    hs: Seq<HunkView>,
    kind: TextHunkKind,
    ot: Option<Seq<char>>,
    nt: Option<Seq<char>>,
)
    requires
        hunks_shaped(hs),
        hunk_shaped(HunkView { kind, old_text: ot, new_text: nt }),
    ensures
        hunks_shaped(push_merge(hs, kind, ot, nt)),
{
    if hs.len() > 0 && hs.last().kind == kind {
        let last = hs[hs.len() - 1];
        assert(hs.last() == last);
        lemma_merged_shaped(last, kind, ot, nt);
        lemma_update_last_shaped(
            hs,
            HunkView { kind, old_text: append_opt(last.old_text, ot), new_text: append_opt(last.new_text, nt) },
        );
    } else {
        if hs.len() > 0 {
            assert(hs.last() == hs[hs.len() - 1]);
        }
        lemma_push_shaped(hs, HunkView { kind, old_text: ot, new_text: nt });
    }
}

proof fn lemma_flush_shaped(hs: Seq<HunkView>, d: Seq<Seq<char>>, ins: Seq<Seq<char>>)
    requires
        hunks_shaped(hs),
    ensures
        hunks_shaped(flush(hs, d, ins)),
{
    if d.len() > 0 || ins.len() > 0 {
        let kind = if d.len() > 0 && ins.len() > 0 {
            TextHunkKind::Replaced
        } else if d.len() > 0 {
            TextHunkKind::Deleted
        } else {
            TextHunkKind::Inserted
        };
        let ot = if d.len() > 0 { Some(join_space(d)) } else { None };
        let nt = if ins.len() > 0 { Some(join_space(ins)) } else { None };
        lemma_push_merge_shaped(hs, kind, ot, nt);
    }
}

#[verifier::spinoff_prover]
proof fn lemma_fold_shaped(ss: Seq<Step>, k: int)
    requires
        0 <= k <= ss.len(),
    ensures
        hunks_shaped(fold_steps(ss, k, empty_state()).hunks),
    decreases k,
{
    if k > 0 {
        lemma_fold_shaped(ss, k - 1);
        let st = fold_steps(ss, k - 1, empty_state());
        assert(fold_steps(ss, k, empty_state()) == apply_step(st, ss[k - 1]));
        match ss[k - 1] {
            Step::Same(t) => {
                lemma_flush_shaped(st.hunks, st.deleted, st.inserted);
                lemma_push_merge_shaped(flush(st.hunks, st.deleted, st.inserted), TextHunkKind::Equal, Some(t), Some(t));
            },
            _ => {},
        }
    }
}

/// Every hunk of a comparison holds the texts its kind calls for (equal
/// hunks the same text on both sides, insertions only new text, deletions
/// only old text, replacements both), and neighbouring hunks differ in
/// kind.
pub proof fn law_hunks_shaped(a: Seq<Seq<char>>, b: Seq<Seq<char>>)
    ensures
        hunks_shaped(hunks_spec(a, b)),
{
    let ss = steps(a, b, 0, 0);
    lemma_fold_shaped(ss, ss.len() as int);
    let st = fold_steps(ss, ss.len() as int, empty_state());
    lemma_flush_shaped(st.hunks, st.deleted, st.inserted);
}


/// An element's role mapping, where it has one, names another type and is
/// an entry of the role map.
pub open spec fn role_ok(e: ElementView, roles: Seq<(Seq<char>, Seq<char>)>) -> bool {
    match e.mapped_structure_type {
        Some(t) => t != e.structure_type && roles.contains((e.structure_type, t)),
        None => true,
    }
}

/// Every element of the tree under and including `e` has a sound role
/// mapping.
pub open spec fn tree_roles_ok(e: ElementView, roles: Seq<(Seq<char>, Seq<char>)>) -> bool
    decreases e,
{
    role_ok(e, roles) && forest_roles_ok(e.children, roles)
}

/// Every element of the trees of `s` has a sound role mapping.
pub open spec fn forest_roles_ok(s: Seq<ElementView>, roles: Seq<(Seq<char>, Seq<char>)>) -> bool
    decreases s,
{
    if s.len() == 0 {
        true
    } else {
        forest_roles_ok(s.subrange(0, s.len() - 1), roles) && tree_roles_ok(s[s.len() - 1], roles)
    }
}

proof fn lemma_mapped_in_roles(structure_type: Seq<char>, roles: Seq<(Seq<char>, Seq<char>)>, from: int)
    ensures
        mapped_spec(structure_type, roles, from) matches Some(t) ==> t != structure_type && roles.contains(
            (structure_type, t),
        ),
    decreases roles.len() - from,
{
    if 0 <= from < roles.len() {
        if roles[from].0 == structure_type {
            if roles[from].1 != structure_type {
                assert(roles[from] == (structure_type, roles[from].1));
            }
        } else {
            lemma_mapped_in_roles(structure_type, roles, from + 1);
        }
    }
}

proof fn lemma_forest_roles_append(a: Seq<ElementView>, b: Seq<ElementView>, roles: Seq<(Seq<char>, Seq<char>)>)
    requires
        forest_roles_ok(a, roles),
        forest_roles_ok(b, roles),
    ensures
        forest_roles_ok(a + b, roles),
    decreases b.len(),
{
    if b.len() == 0 {
        assert(a + b =~= a);
    } else {
        let b0 = b.subrange(0, b.len() - 1);
        lemma_forest_roles_append(a, b0, roles);
        assert((a + b).subrange(0, (a + b).len() - 1) =~= a + b0);
        assert((a + b)[(a + b).len() - 1] == b[b.len() - 1]);
    }
}

proof fn lemma_s_reference_roles(
    objs: Seq<ObjectRecord>,
    roles: Seq<(Seq<char>, Seq<char>)>,
    limits: ResourceLimits,
    refv: PrimitiveView,
    id: ObjectId,
    depth: int,
    seen: Seq<ObjectId>,
)
    ensures
        forest_roles_ok(s_reference(objs, roles, limits, refv, id, depth, seen).elements, roles),
    decreases fuel(depth, limits.max_indirect_depth as int), refv, 0int, 0int,
{
    let max = limits.max_indirect_depth as int;
    if depth > max || depth >= usize::MAX {
    } else if seen.contains(id) {
    } else {
        match first_record(objs, id, 0) {
            None => {},
            Some(i) => match object_value(objs[i].body, limits) {
                None => {},
                Some(v) => {
                    lemma_s_value_roles(objs, roles, limits, v, Some(id), depth + 1, seen.push(id));
                },
            },
        }
    }
}

proof fn lemma_s_value_roles(
    objs: Seq<ObjectRecord>,
    roles: Seq<(Seq<char>, Seq<char>)>,
    limits: ResourceLimits,
    v: PrimitiveView,
    obj: Option<ObjectId>,
    depth: int,
    seen: Seq<ObjectId>,
)
    ensures
        forest_roles_ok(s_value(objs, roles, limits, v, obj, depth, seen).elements, roles),
    decreases fuel(depth, limits.max_indirect_depth as int), v, 2int, 0int,
{
    match v {
        PrimitiveView::Reference(id) => lemma_s_reference_roles(objs, roles, limits, v, id, depth, seen),
        PrimitiveView::Array(items) => lemma_s_items_roles(
            objs,
            roles,
            limits,
            items,
            0,
            depth,
            seen,
            empty_out(Seq::empty()),
        ),
        PrimitiveView::Dictionary(_) => lemma_s_dict_roles(objs, roles, limits, v, obj, depth, seen),
        _ => {},
    }
}

proof fn lemma_s_items_roles(
    objs: Seq<ObjectRecord>,
    roles: Seq<(Seq<char>, Seq<char>)>,
    limits: ResourceLimits,
    items: Seq<PrimitiveView>,
    i: int,
    depth: int,
    seen: Seq<ObjectId>,
    acc: SOut,
)
    requires
        forest_roles_ok(acc.elements, roles),
    ensures
        forest_roles_ok(s_items(objs, roles, limits, items, i, depth, seen, acc).elements, roles),
    decreases fuel(depth, limits.max_indirect_depth as int), items, 1int, items.len() - i,
{
    if 0 <= i < items.len() {
        let child = s_value(objs, roles, limits, items[i], None, depth, seen);
        lemma_s_value_roles(objs, roles, limits, items[i], None, depth, seen);
        lemma_forest_roles_append(acc.elements, child.elements, roles);
        lemma_s_items_roles(
            objs,
            roles,
            limits,
            items,
            i + 1,
            depth,
            seen,
            SOut {
                elements: acc.elements + child.elements,
                mcids: acc.mcids + child.mcids,
                diags: acc.diags + child.diags,
            },
        );
    }
}

proof fn lemma_s_dict_roles(
    objs: Seq<ObjectRecord>,
    roles: Seq<(Seq<char>, Seq<char>)>,
    limits: ResourceLimits,
    v: PrimitiveView,
    obj: Option<ObjectId>,
    depth: int,
    seen: Seq<ObjectId>,
)
    ensures
        forest_roles_ok(s_dict(objs, roles, limits, v, obj, depth, seen).elements, roles),
    decreases fuel(depth, limits.max_indirect_depth as int), v, 1int, 0int,
{
    match dict_lookup(v, utf8("MCID")) {
        Some(PrimitiveView::Integer(m)) => {},
        _ => {
            match dict_lookup(v, utf8("K")) {
                Some(k) => {
                    crate::primitive::lemma_lookup_decreases(v, utf8("K"));
                    assert(fuel(sat_inc(depth), limits.max_indirect_depth as int) <= fuel(
                        depth,
                        limits.max_indirect_depth as int,
                    ));
                    lemma_s_value_roles(objs, roles, limits, k, None, sat_inc(depth), seen);
                },
                None => {},
            }
            let children = match dict_lookup(v, utf8("K")) {
                Some(k) => s_value(objs, roles, limits, k, None, sat_inc(depth), seen),
                None => empty_out(Seq::empty()),
            };
            match dict_lookup(v, utf8("S")) {
                Some(PrimitiveView::Name(st)) => {
                    let t = utf8_lossy(st);
                    lemma_mapped_in_roles(t, roles, 0);
                    let e = ElementView {
                        object_id: obj,
                        structure_type: t,
                        mapped_structure_type: mapped_spec(t, roles, 0),
                        mcids: children.mcids,
                        children: children.elements,
                    };
                    assert(tree_roles_ok(e, roles));
                    let s = seq![e];
                    assert(s.subrange(0, 0) =~= Seq::<ElementView>::empty());
                    assert(forest_roles_ok(Seq::<ElementView>::empty(), roles));
                    assert(s[s.len() - 1] == e);
                    assert(forest_roles_ok(s, roles));
                },
                _ => {},
            }
        },
    }
}

/// Every element of a document's structure tree, at any depth, that
/// carries a role-mapped type maps to a different type, by an entry of
/// the role map the summary reports.
pub proof fn law_structure_roles_sound(objs: Seq<ObjectRecord>, limits: ResourceLimits)
    ensures
        forest_roles_ok(tagged_spec(objs, limits).roots, tagged_spec(objs, limits).role_map),
{
    let v = tagged_spec(objs, limits);
    if let Some(id) = v.root_object_id {
        let d1 = crate::tagged::root_id_spec(objs, limits, 0, Seq::empty()).1;
        let roles = role_map_spec(objs, id, limits, d1).0;
        lemma_s_reference_roles(objs, roles, limits, PrimitiveView::Reference(id), id, 0, Seq::empty());
    }
}


/// Every parent-tree entry names at least one structure element.
pub open spec fn entries_nonempty(s: Seq<(usize, Seq<ObjectId>)>) -> bool {
    forall|i: int| 0 <= i < s.len() ==> (#[trigger] s[i]).1.len() > 0
}

proof fn lemma_entries_append(a: Seq<(usize, Seq<ObjectId>)>, b: Seq<(usize, Seq<ObjectId>)>)
    requires
        entries_nonempty(a),
        entries_nonempty(b),
    ensures
        entries_nonempty(a + b),
{
    assert forall|i: int| 0 <= i < (a + b).len() implies (#[trigger] (a + b)[i]).1.len() > 0 by {
        if i < a.len() {
            assert((a + b)[i] == a[i]);
        } else {
            assert((a + b)[i] == b[i - a.len()]);
        }
    }
}

proof fn lemma_sort_parents_nonempty(s: Seq<(usize, Seq<ObjectId>)>)
    requires
        entries_nonempty(s),
    ensures
        entries_nonempty(sort_parents(s)),
    decreases s.len(),
{
    if s.len() > 0 {
        let p = s.drop_last();
        assert(entries_nonempty(p)) by {
            assert forall|i: int| 0 <= i < p.len() implies (#[trigger] p[i]).1.len() > 0 by {
                assert(p[i] == s[i]);
            }
        }
        lemma_sort_parents_nonempty(p);
        let prev = sort_parents(p);
        let x = s.last();
        assert(x == s[s.len() - 1]);
        lemma_key_position_props(prev, x.0, 0);
        let k = key_position(prev, x.0, 0);
        let r = prev.insert(k, x);
        assert forall|i: int| 0 <= i < r.len() implies (#[trigger] r[i]).1.len() > 0 by {
            if i < k {
                assert(r[i] == prev[i]);
            } else if i > k {
                assert(r[i] == prev[i - 1]);
            }
        }
    }
}

proof fn lemma_dedup_parents_nonempty(s: Seq<(usize, Seq<ObjectId>)>)
    requires
        entries_nonempty(s),
    ensures
        entries_nonempty(dedup_parents(s)),
    decreases s.len(),
{
    if s.len() > 0 {
        let p = s.drop_last();
        assert(entries_nonempty(p)) by {
            assert forall|i: int| 0 <= i < p.len() implies (#[trigger] p[i]).1.len() > 0 by {
                assert(p[i] == s[i]);
            }
        }
        lemma_dedup_parents_nonempty(p);
        assert(s.last() == s[s.len() - 1]);
        let prev = dedup_parents(p);
        let r = prev.push(s.last());
        assert forall|i: int| 0 <= i < r.len() implies (#[trigger] r[i]).1.len() > 0 by {
            if i < prev.len() {
                assert(r[i] == prev[i]);
            }
        }
    }
}

proof fn lemma_p_value_nonempty(
    objs: Seq<ObjectRecord>,
    limits: ResourceLimits,
    v: PrimitiveView,
    depth: int,
    seen: Seq<ObjectId>,
)
    ensures
        entries_nonempty(crate::tagged::p_value(objs, limits, v, depth, seen).0),
    decreases fuel(depth, limits.max_indirect_depth as int), v, 2int, 0int,
{
    let max = limits.max_indirect_depth as int;
    match v {
        PrimitiveView::Reference(id) => {
            if !(depth > max || depth >= usize::MAX || seen.contains(id)) {
                match first_record(objs, id, 0) {
                    None => {},
                    Some(i) => match object_value(objs[i].body, limits) {
                        None => {},
                        Some(p) => lemma_p_value_nonempty(objs, limits, p, depth + 1, seen.push(id)),
                    },
                }
            }
        },
        PrimitiveView::Dictionary(_) => {
            assert(fuel(sat_inc(depth), max) <= fuel(depth, max));
            lemma_p_dict_nonempty(objs, limits, v, sat_inc(depth), seen);
        },
        _ => {},
    }
}

proof fn lemma_p_dict_nonempty(
    objs: Seq<ObjectRecord>,
    limits: ResourceLimits,
    v: PrimitiveView,
    depth: int,
    seen: Seq<ObjectId>,
)
    ensures
        entries_nonempty(crate::tagged::p_dict(objs, limits, v, depth, seen).0),
    decreases fuel(depth, limits.max_indirect_depth as int), v, 1int, 0int,
{
    let nums = match crate::primitive::dict_lookup(v, utf8("Nums")) {
        Some(n) => nums_spec(n),
        None => Seq::empty(),
    };
    match crate::primitive::dict_lookup(v, utf8("Nums")) {
        Some(n) => law_nums_entries_name_elements(n),
        None => {},
    }
    match crate::primitive::dict_lookup(v, utf8("Kids")) {
        Some(PrimitiveView::Array(kids)) => {
            crate::primitive::lemma_lookup_decreases(v, utf8("Kids"));
            assert(decreases_to!(PrimitiveView::Array(kids) => kids));
            assert(fuel(sat_inc(depth), limits.max_indirect_depth as int) <= fuel(
                depth,
                limits.max_indirect_depth as int,
            ));
            lemma_p_kids_nonempty(objs, limits, kids, 0, sat_inc(depth), seen, (nums, Seq::empty()));
        },
        _ => {},
    }
}

proof fn lemma_p_kids_nonempty(
    objs: Seq<ObjectRecord>,
    limits: ResourceLimits,
    kids: Seq<PrimitiveView>,
    i: int,
    depth: int,
    seen: Seq<ObjectId>,
    acc: (Seq<(usize, Seq<ObjectId>)>, Seq<DiagView>),
)
    requires
        entries_nonempty(acc.0),
    ensures
        entries_nonempty(crate::tagged::p_kids(objs, limits, kids, i, depth, seen, acc).0),
    decreases fuel(depth, limits.max_indirect_depth as int), kids, 1int, kids.len() - i,
{
    if 0 <= i < kids.len() {
        let c = crate::tagged::p_value(objs, limits, kids[i], depth, seen);
        lemma_p_value_nonempty(objs, limits, kids[i], depth, seen);
        lemma_entries_append(acc.0, c.0);
        lemma_p_kids_nonempty(objs, limits, kids, i + 1, depth, seen, (acc.0 + c.0, acc.1 + c.1));
    }
}

/// Every entry of a document's parent tree names at least one structure
/// element.
pub proof fn law_parent_tree_entries_nonempty(objs: Seq<ObjectRecord>, limits: ResourceLimits)
    ensures
        entries_nonempty(tagged_spec(objs, limits).parent_tree),
{
    let v = tagged_spec(objs, limits);
    if let Some(id) = v.root_object_id {
        match crate::tagged::value_of_object(objs, id, limits) {
            Some(root) => match crate::primitive::dict_lookup(root, utf8("ParentTree")) {
                Some(p) => {
                    let (es, _) = crate::tagged::p_value(objs, limits, p, 0, Seq::empty());
                    lemma_p_value_nonempty(objs, limits, p, 0, Seq::empty());
                    lemma_sort_parents_nonempty(es);
                    lemma_dedup_parents_nonempty(sort_parents(es));
                },
                None => {},
            },
            None => {},
        }
    }
}


proof fn lemma_ahx_shift(s: Seq<u8>, p: int, w: u8, i: int, high: Option<u8>, acc: Seq<u8>, limit: nat)
    requires
        0 <= p <= i <= s.len(),
    ensures
        ahx_spec(s.insert(p, w), i + 1, high, acc, limit) == ahx_spec(s, i, high, acc, limit),
    decreases s.len() - i,
{
    let t = s.insert(p, w);
    assert(t.len() == s.len() + 1);
    if i < s.len() {
        assert(t[i + 1] == s[i]);
        if s[i] != 0x3eu8 {
            match hex_val(s[i]) {
                Some(n) => match high {
                    Some(h) => if acc.len() + 1 <= limit {
                        lemma_ahx_shift(s, p, w, i + 1, None, acc.push((h * 16 + n) as u8), limit);
                    },
                    None => lemma_ahx_shift(s, p, w, i + 1, Some(n), acc, limit),
                },
                None => {},
            }
            if is_ws(s[i]) {
                lemma_ahx_shift(s, p, w, i + 1, high, acc, limit);
            }
        }
    }
}

proof fn lemma_ahx_insert_ws(s: Seq<u8>, p: int, w: u8, i: int, high: Option<u8>, acc: Seq<u8>, limit: nat)
    requires
        0 <= i <= p <= s.len(),
        is_ws(w),
    ensures
        ahx_spec(s.insert(p, w), i, high, acc, limit) == ahx_spec(s, i, high, acc, limit),
    decreases p - i,
{
    let t = s.insert(p, w);
    if i == p {
        assert(t[i] == w);
        lemma_ahx_shift(s, p, w, i, high, acc, limit);
    } else {
        assert(t[i] == s[i]);
        if s[i] != 0x3eu8 {
            match hex_val(s[i]) {
                Some(n) => match high {
                    Some(h) => if acc.len() + 1 <= limit {
                        lemma_ahx_insert_ws(s, p, w, i + 1, None, acc.push((h * 16 + n) as u8), limit);
                    },
                    None => lemma_ahx_insert_ws(s, p, w, i + 1, Some(n), acc, limit),
                },
                None => {},
            }
            if is_ws(s[i]) {
                lemma_ahx_insert_ws(s, p, w, i + 1, high, acc, limit);
            }
        }
    }
}

/// ASCIIHex decoding ignores whitespace: inserting a space, tab, line feed,
/// form feed or carriage return anywhere in the data leaves the outcome
/// (the decoded bytes, or the refusal) unchanged.
pub proof fn law_ascii_hex_ignores_whitespace(s: Seq<u8>, p: int, w: u8, limit: nat)
    requires
        0 <= p <= s.len(),
        is_ws(w),
    ensures
        ahx_spec(s.insert(p, w), 0, None, Seq::empty(), limit) == ahx_spec(s, 0, None, Seq::empty(), limit),
{
    lemma_ahx_insert_ws(s, p, w, 0, None, Seq::empty(), limit);
}

/// `Tm` and `cm` take the six numbers that end the operand stack, in stack
/// order, as the matrix `a b c d e f`; with fewer than six numbers there
/// they make no operation.
pub proof fn law_matrix_is_last_six_operands(stack: Seq<TokenView>)
    ensures
        ({
            let n = stack.len() as int;
            let six = n >= 6 && forall|k: int| n - 6 <= k < n ==> (#[trigger] stack[k]) is Number;
            &&& six ==> (op_spec("Tm"@, stack) matches Some(OpShape::SetTextMatrix(m)) && m.len() == 6
                && forall|k: int| 0 <= k < 6 ==> #[trigger] m[k] == stack[n - 6 + k]->Number_0)
            &&& six ==> (op_spec("cm"@, stack) matches Some(OpShape::ConcatMatrix(m)) && m.len() == 6
                && forall|k: int| 0 <= k < 6 ==> #[trigger] m[k] == stack[n - 6 + k]->Number_0)
            &&& !six ==> op_spec("Tm"@, stack) is None && op_spec("cm"@, stack) is None
        }),
{
    reveal_strlit("Tm");
    reveal_strlit("cm");
    reveal_strlit("BT");
    reveal_strlit("ET");
    reveal_strlit("Tf");
    reveal_strlit("Td");
    reveal_strlit("TD");
    reveal_strlit("T*");
    reveal_strlit("TL");
    reveal_strlit("Tc");
    reveal_strlit("Tw");
    reveal_strlit("Tz");
    reveal_strlit("Tj");
    reveal_strlit("TJ");
    reveal_strlit("q");
    reveal_strlit("Q");
    assert("Tm"@[0] == 'T' && "Tm"@[1] == 'm' && "cm"@[0] == 'c' && "cm"@[1] == 'm');
    assert("BT"@[0] == 'B' && "ET"@[0] == 'E' && "q"@.len() == 1 && "Q"@.len() == 1);
    assert("Tf"@[1] == 'f' && "Td"@[1] == 'd' && "TD"@[1] == 'D' && "T*"@[1] == '*' && "TL"@[1] == 'L');
    assert("Tc"@[1] == 'c' && "Tw"@[1] == 'w' && "Tz"@[1] == 'z' && "Tj"@[1] == 'j' && "TJ"@[1] == 'J');
    assert("Tj"@[0] == 'T' && "TJ"@[0] == 'T');
    let n = stack.len() as int;
    let six = n >= 6 && forall|k: int| n - 6 <= k < n ==> (#[trigger] stack[k]) is Number;
    if six {
        assert forall|k: int| n - 6 <= k < n implies number_at(stack, k) is Some by {
            assert(stack[k] is Number);
        }
        let m = Seq::new(6, |k: int| number_at(stack, n - 6 + k)->0);
        assert(crate::content::matrix_at(stack) == Some(m));
        assert forall|k: int| 0 <= k < 6 implies #[trigger] m[k] == stack[n - 6 + k]->Number_0 by {
            assert(stack[n - 6 + k] is Number);
        }
    } else if n >= 6 {
        let k = choose|k: int| n - 6 <= k < n && !(#[trigger] stack[k] is Number);
        assert(number_at(stack, k) is None);
    }
}

/// The current font during a program: the font of the last `Tf` among the
/// first `n` operations.
proof fn lemma_fold_font(shapes: Seq<OpShape>, maps: Seq<(Seq<char>, Map<Seq<u8>, Seq<char>>)>, j: int, n: int)
    requires
        0 <= j < n <= shapes.len(),
        shapes[j] is SetFont,
        forall|l: int| j < l < n ==> !(#[trigger] shapes[l] is SetFont),
    ensures
        apply_fold(shapes, maps, n).font == Some(shapes[j]->SetFont_0),
    decreases n,
{
    if n - 1 > j {
        lemma_fold_font(shapes, maps, j, n - 1);
        assert(!(shapes[n - 1] is SetFont));
    } else {
        assert(retext(shapes[j], apply_fold(shapes, maps, j).font, maps) is None);
    }
}

proof fn lemma_fold_prefix(shapes: Seq<OpShape>, maps: Seq<(Seq<char>, Map<Seq<u8>, Seq<char>>)>, k: int, n: int)
    requires
        0 <= k < n <= shapes.len(),
    ensures
        apply_fold(shapes, maps, n).shapes.len() == n,
        apply_fold(shapes, maps, n).shapes[k] == apply_fold(shapes, maps, k + 1).shapes[k],
    decreases n,
{
    if n > k + 1 {
        lemma_fold_prefix(shapes, maps, k, n - 1);
    } else {
        lemma_fold_len(shapes, maps, n);
    }
}

proof fn lemma_fold_len(shapes: Seq<OpShape>, maps: Seq<(Seq<char>, Map<Seq<u8>, Seq<char>>)>, n: int)
    requires
        0 <= n <= shapes.len(),
    ensures
        apply_fold(shapes, maps, n).shapes.len() == n,
    decreases n,
{
    if n > 0 {
        lemma_fold_len(shapes, maps, n - 1);
    }
}

/// Each shown text is decoded with the map of the font that the most
/// recent `Tf` before it selected: where that font has a map that decodes
/// the shown bytes, the text becomes what the map gives; otherwise the
/// operation is left as it was.
pub proof fn law_text_decoded_with_latest_font(
    shapes: Seq<OpShape>,
    maps: Seq<(Seq<char>, Map<Seq<u8>, Seq<char>>)>,
    j: int,
    k: int,
)
    requires
        0 <= j < k < shapes.len(),
        shapes[j] is SetFont,
        forall|l: int| j < l < k ==> !(#[trigger] shapes[l] is SetFont),
    ensures
        apply_fold(shapes, maps, shapes.len() as int).shapes[k] == match retext(
            shapes[k],
            Some(shapes[j]->SetFont_0),
            maps,
        ) {
            Some(t) => with_text(shapes[k], t),
            None => shapes[k],
        },
{
    lemma_fold_font(shapes, maps, j, k);
    lemma_fold_prefix(shapes, maps, k, shapes.len() as int);
    lemma_fold_len(shapes, maps, k);
}

/// The structure types that mark text, `P` and `Span`, and only those,
/// give paragraphs; the heading types `H` and `H1` to `H6`, and only those,
/// give heading candidates.
pub proof fn law_paragraph_and_heading_types(t: Seq<char>)
    ensures
        (structure_kind(t) == SemanticNodeKind::Paragraph) == (t == "P"@ || t == "Span"@),
        (structure_kind(t) == SemanticNodeKind::HeadingCandidate) == (t == "H"@ || t == "H1"@ || t == "H2"@
            || t == "H3"@ || t == "H4"@ || t == "H5"@ || t == "H6"@),
{
    reveal_strlit("P");
    reveal_strlit("Span");
    reveal_strlit("H");
    reveal_strlit("H1");
    reveal_strlit("H2");
    reveal_strlit("H3");
    reveal_strlit("H4");
    reveal_strlit("H5");
    reveal_strlit("H6");
    reveal_strlit("L");
    reveal_strlit("LI");
    reveal_strlit("Lbl");
    reveal_strlit("LBody");
    reveal_strlit("Table");
    reveal_strlit("TR");
    reveal_strlit("TH");
    reveal_strlit("TD");
    reveal_strlit("THead");
    reveal_strlit("TBody");
    reveal_strlit("TFoot");
    reveal_strlit("Figure");
    reveal_strlit("Formula");
    reveal_strlit("Form");
    reveal_strlit("Header");
    reveal_strlit("Footer");
    assert("P"@[0] == 'P' && "H"@[0] == 'H' && "L"@[0] == 'L');
    assert("Span"@[0] == 'S' && "Form"@[0] == 'F');
    assert("H1"@.len() == 2 && "LI"@.len() == 2 && "TR"@.len() == 2 && "TH"@.len() == 2 && "TD"@.len() == 2);
}

/// A tagged element whose effective type (its role-mapped type, else its
/// own) is `P` or `Span` is a paragraph.
pub proof fn law_tagged_paragraphs(structure_type: Seq<char>, mapped: Option<Seq<char>>)
    ensures
        ({
            let eff = match mapped {
                Some(m) => m,
                None => structure_type,
            };
            (eff == "P"@ || eff == "Span"@) ==> structure_kind(eff) == SemanticNodeKind::Paragraph
        }),
{
    let eff = match mapped {
        Some(m) => m,
        None => structure_type,
    };
    law_paragraph_and_heading_types(eff);
}

proof fn lemma_move_scan_one(cs: Seq<MoveCandidate>, iw: bool, ic: bool, ins: int, del: int, n: int)
    requires
        0 <= ins < cs.len(),
        0 <= del < cs.len(),
        0 <= n <= cs.len(),
        cs[ins].kind == ChangeKind::Inserted,
        cs[del].kind == ChangeKind::Deleted,
        cs[ins].new_text is Some,
        cs[del].old_text is Some,
        match_text(cs[ins].new_text->0@, iw, ic) == match_text(cs[del].old_text->0@, iw, ic),
        forall|k: int| 0 <= k < cs.len() && k != ins ==> (#[trigger] cs[k]).kind != ChangeKind::Inserted,
        forall|k: int| 0 <= k < cs.len() && k != del ==> (#[trigger] cs[k]).kind != ChangeKind::Deleted,
    ensures
        move_scan(cs, iw, ic, n) == if n <= ins {
            (Seq::<(int, int)>::empty(), seq![del])
        } else {
            (seq![(ins, del)], Seq::<int>::empty())
        },
    decreases n,
{
    if n == 0 {
        lemma_deletions_one(cs, del, cs.len() as int);
    } else {
        lemma_move_scan_one(cs, iw, ic, ins, del, n - 1);
        let c = cs[n - 1];
        if n - 1 == ins {
            let t = match_text(c.new_text->0@, iw, ic);
            assert(first_same(cs, seq![del], t, iw, ic, 0) == Some(0int));
            assert(seq![del].remove(0) =~= Seq::<int>::empty());
            assert(Seq::<(int, int)>::empty().push((ins, del)) =~= seq![(ins, del)]);
        } else {
            assert(c.kind != ChangeKind::Inserted);
        }
    }
}

proof fn lemma_deletions_one(cs: Seq<MoveCandidate>, del: int, n: int)
    requires
        0 <= del < cs.len(),
        0 <= n <= cs.len(),
        cs[del].kind == ChangeKind::Deleted,
        forall|k: int| 0 <= k < cs.len() && k != del ==> (#[trigger] cs[k]).kind != ChangeKind::Deleted,
    ensures
        deletions(cs, n) == if n <= del {
            Seq::<int>::empty()
        } else {
            seq![del]
        },
    decreases n,
{
    if n > 0 {
        lemma_deletions_one(cs, del, n - 1);
        if n - 1 == del {
            assert(Seq::<int>::empty().push(del) =~= seq![del]);
        } else {
            assert(cs[n - 1].kind != ChangeKind::Deleted);
        }
    }
}

/// A diff with exactly one insertion and one deletion whose texts, as
/// compared, are the same reports them as one move, whichever of the two
/// comes first among the changes.
pub proof fn law_single_move_found(cs: Seq<MoveCandidate>, iw: bool, ic: bool, ins: int, del: int)
    requires
        0 <= ins < cs.len(),
        0 <= del < cs.len(),
        cs[ins].kind == ChangeKind::Inserted,
        cs[del].kind == ChangeKind::Deleted,
        cs[ins].new_text is Some,
        cs[del].old_text is Some,
        match_text(cs[ins].new_text->0@, iw, ic) == match_text(cs[del].old_text->0@, iw, ic),
        forall|k: int| 0 <= k < cs.len() && k != ins ==> (#[trigger] cs[k]).kind != ChangeKind::Inserted,
        forall|k: int| 0 <= k < cs.len() && k != del ==> (#[trigger] cs[k]).kind != ChangeKind::Deleted,
    ensures
        move_scan(cs, iw, ic, cs.len() as int).0 == seq![(ins, del)],
{
    lemma_move_scan_one(cs, iw, ic, ins, del, cs.len() as int);
}


/// Insertion `i` and deletion `d` carry the same text, as compared.
pub open spec fn same_moved_text(cs: Seq<MoveCandidate>, i: int, d: int, iw: bool, ic: bool) -> bool {
    &&& cs[i].new_text is Some
    &&& cs[d].old_text is Some
    &&& match_text(cs[i].new_text->0@, iw, ic) == match_text(cs[d].old_text->0@, iw, ic)
}

proof fn lemma_first_same(cs: Seq<MoveCandidate>, w: Seq<int>, t: Seq<char>, iw: bool, ic: bool, p: int)
    requires
        0 <= p,
    ensures
        first_same(cs, w, t, iw, ic, p) matches Some(q) ==> p <= q < w.len() && cs[w[q]].old_text is Some
            && match_text(cs[w[q]].old_text->0@, iw, ic) == t,
        first_same(cs, w, t, iw, ic, p) is None ==> forall|k: int| p <= k < w.len() ==> !(cs[#[trigger] w[k]].old_text
            is Some && match_text(cs[w[k]].old_text->0@, iw, ic) == t),
    decreases w.len() - p,
{
    if p < w.len() && !(cs[w[p]].old_text matches Some(o) && match_text(o@, iw, ic) == t) {
        lemma_first_same(cs, w, t, iw, ic, p + 1);
    }
}

proof fn lemma_deletions_contains(cs: Seq<MoveCandidate>, n: int)
    requires
        0 <= n <= cs.len(),
    ensures
        forall|d: int| 0 <= d < n && cs[d].kind == ChangeKind::Deleted ==> #[trigger] deletions(cs, n).contains(d),
        forall|d: int| #[trigger] deletions(cs, n).contains(d) ==> 0 <= d < n && cs[d].kind == ChangeKind::Deleted,
    decreases n,
{
    if n > 0 {
        lemma_deletions_contains(cs, n - 1);
        let prev = deletions(cs, n - 1);
        if cs[n - 1].kind == ChangeKind::Deleted {
            assert forall|d: int| #[trigger] prev.push(n - 1).contains(d) implies 0 <= d < n && cs[d].kind
                == ChangeKind::Deleted by {
                let pp = prev.push(n - 1);
                let j = choose|j: int| 0 <= j < pp.len() && #[trigger] pp[j] == d;
                if j < prev.len() {
                    assert(prev.contains(d));
                }
            }
            assert forall|d: int| 0 <= d < n && cs[d].kind == ChangeKind::Deleted implies #[trigger] prev.push(
                n - 1,
            ).contains(d) by {
                if d < n - 1 {
                    assert(prev.contains(d));
                    let j = choose|j: int| 0 <= j < prev.len() && #[trigger] prev[j] == d;
                    assert(prev.push(n - 1)[j] == d);
                } else {
                    assert(prev.push(n - 1)[prev.len() as int] == d);
                }
            }
        }
    }
}

/// What the scan keeps true after its first `n` changes.
pub open spec fn scan_inv(cs: Seq<MoveCandidate>, iw: bool, ic: bool, n: int) -> bool {
    let (pairs, waiting) = move_scan(cs, iw, ic, n);
    let all = deletions(cs, cs.len() as int);
    &&& forall|q: int| 0 <= q < pairs.len() ==> {
        let (i, d) = #[trigger] pairs[q];
        &&& 0 <= i < n
        &&& cs[i].kind == ChangeKind::Inserted
        &&& all.contains(d)
        &&& same_moved_text(cs, i, d, iw, ic)
    }
    &&& forall|d: int| #[trigger] waiting.contains(d) ==> all.contains(d)
    &&& forall|d: int| #[trigger] all.contains(d) ==> waiting.contains(d) || exists|q: int|
        0 <= q < pairs.len() && (#[trigger] pairs[q]).1 == d
    &&& forall|i: int| 0 <= i < n && cs[i].kind == ChangeKind::Inserted && cs[i].new_text is Some && !(exists|q: int|
        0 <= q < pairs.len() && (#[trigger] pairs[q]).0 == i) ==> forall|d: int| #[trigger] waiting.contains(d)
        ==> !same_moved_text(cs, i, d, iw, ic)
}

proof fn lemma_scan_inv(cs: Seq<MoveCandidate>, iw: bool, ic: bool, n: int)
    requires
        0 <= n <= cs.len(),
    ensures
        scan_inv(cs, iw, ic, n),
    decreases n,
{
    let all = deletions(cs, cs.len() as int);
    if n == 0 {
        assert(move_scan(cs, iw, ic, 0) == (Seq::<(int, int)>::empty(), all));
    } else {
        lemma_scan_inv(cs, iw, ic, n - 1);
        lemma_deletions_contains(cs, cs.len() as int);
        let (pairs, waiting) = move_scan(cs, iw, ic, n - 1);
        let c = cs[n - 1];
        if c.kind == ChangeKind::Inserted && c.new_text is Some {
            let t = match_text(c.new_text->0@, iw, ic);
            lemma_first_same(cs, waiting, t, iw, ic, 0);
            match first_same(cs, waiting, t, iw, ic, 0) {
                Some(p) => {
                    let d0 = waiting[p];
                    let np = pairs.push((n - 1, d0));
                    let nw = waiting.remove(p);
                    assert(move_scan(cs, iw, ic, n) == (np, nw));
                    assert(waiting.contains(d0));
                    assert forall|q: int| 0 <= q < np.len() implies {
                        let (i, d) = #[trigger] np[q];
                        &&& 0 <= i < n
                        &&& cs[i].kind == ChangeKind::Inserted
                        &&& all.contains(d)
                        &&& same_moved_text(cs, i, d, iw, ic)
                    } by {
                        if q < pairs.len() {
                            assert(np[q] == pairs[q]);
                        }
                    }
                    assert forall|d: int| #[trigger] nw.contains(d) implies all.contains(d) by {
                        let j = choose|j: int| 0 <= j < nw.len() && #[trigger] nw[j] == d;
                        if j < p {
                            assert(waiting[j] == d);
                        } else {
                            assert(waiting[j + 1] == d);
                        }
                        assert(waiting.contains(d));
                    }
                    assert forall|d: int| #[trigger] all.contains(d) implies nw.contains(d) || exists|q: int|
                        0 <= q < np.len() && (#[trigger] np[q]).1 == d by {
                        if d == d0 {
                            assert(np[pairs.len() as int].1 == d);
                        } else if waiting.contains(d) {
                            let j = choose|j: int| 0 <= j < waiting.len() && #[trigger] waiting[j] == d;
                            assert(j != p);
                            if j < p {
                                assert(nw[j] == d);
                            } else {
                                assert(nw[j - 1] == d);
                            }
                        } else {
                            let q = choose|q: int| 0 <= q < pairs.len() && (#[trigger] pairs[q]).1 == d;
                            assert(np[q] == pairs[q]);
                        }
                    }
                    assert forall|i: int| 0 <= i < n && cs[i].kind == ChangeKind::Inserted && cs[i].new_text is Some
                        && !(exists|q: int| 0 <= q < np.len() && (#[trigger] np[q]).0 == i) implies forall|d: int|
                        #[trigger] nw.contains(d) ==> !same_moved_text(cs, i, d, iw, ic) by {
                        if i == n - 1 {
                            assert(np[pairs.len() as int].0 == i);
                        } else {
                            assert forall|q: int| 0 <= q < pairs.len() implies (#[trigger] pairs[q]).0 != i by {
                                assert(np[q] == pairs[q]);
                            }
                            assert forall|d: int| #[trigger] nw.contains(d) implies !same_moved_text(cs, i, d, iw, ic) by {
                                let j = choose|j: int| 0 <= j < nw.len() && #[trigger] nw[j] == d;
                                if j < p {
                                    assert(waiting[j] == d);
                                } else {
                                    assert(waiting[j + 1] == d);
                                }
                                assert(waiting.contains(d));
                            }
                        }
                    }
                },
                None => {
                    assert(move_scan(cs, iw, ic, n) == (pairs, waiting));
                    assert forall|i: int| 0 <= i < n && cs[i].kind == ChangeKind::Inserted && cs[i].new_text is Some
                        && !(exists|q: int| 0 <= q < pairs.len() && (#[trigger] pairs[q]).0 == i) implies forall|d: int|
                        #[trigger] waiting.contains(d) ==> !same_moved_text(cs, i, d, iw, ic) by {
                        if i == n - 1 {
                            assert forall|d: int| #[trigger] waiting.contains(d) implies !same_moved_text(cs, i, d, iw, ic) by {
                                let j = choose|j: int| 0 <= j < waiting.len() && #[trigger] waiting[j] == d;
                                assert(!(cs[waiting[j]].old_text is Some && match_text(cs[waiting[j]].old_text->0@, iw, ic) == t));
                            }
                        }
                    }
                },
            }
        } else {
            assert(move_scan(cs, iw, ic, n) == (pairs, waiting));
        }
    }
}

/// Move detection pairs an insertion only with a deletion of the same
/// text, as compared; and no insertion that carries text is left unpaired while a deletion of the
/// same text is left unpaired, wherever the two stand among the changes.
pub proof fn law_moves_sound_and_complete(cs: Seq<MoveCandidate>, iw: bool, ic: bool)
    ensures
        ({
            let pairs = move_scan(cs, iw, ic, cs.len() as int).0;
            &&& forall|q: int| 0 <= q < pairs.len() ==> {
                let (i, d) = #[trigger] pairs[q];
                &&& 0 <= i < cs.len() && 0 <= d < cs.len()
                &&& cs[i].kind == ChangeKind::Inserted
                &&& cs[d].kind == ChangeKind::Deleted
                &&& same_moved_text(cs, i, d, iw, ic)
            }
            &&& forall|i: int, d: int|
                0 <= i < cs.len() && 0 <= d < cs.len() && cs[i].kind == ChangeKind::Inserted && cs[d].kind
                    == ChangeKind::Deleted && #[trigger] same_moved_text(cs, i, d, iw, ic) ==> exists|q: int|
                    0 <= q < pairs.len() && ((#[trigger] pairs[q]).0 == i || pairs[q].1 == d)
        }),
{
    let n = cs.len() as int;
    lemma_scan_inv(cs, iw, ic, n);
    lemma_deletions_contains(cs, n);
    let (pairs, waiting) = move_scan(cs, iw, ic, n);
    let all = deletions(cs, n);
    assert forall|i: int, d: int|
        0 <= i < cs.len() && 0 <= d < cs.len() && cs[i].kind == ChangeKind::Inserted && cs[d].kind
            == ChangeKind::Deleted && #[trigger] same_moved_text(cs, i, d, iw, ic) implies exists|q: int|
            0 <= q < pairs.len() && ((#[trigger] pairs[q]).0 == i || pairs[q].1 == d) by {
        assert(all.contains(d));
        if !(exists|q: int| 0 <= q < pairs.len() && (#[trigger] pairs[q]).0 == i) {
            if waiting.contains(d) {
                assert(!same_moved_text(cs, i, d, iw, ic));
            }
        }
    }
}

} // verus!
