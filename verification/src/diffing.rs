//! The text side of the semantic diff: how texts are normalized before
//! they are compared, the reason given for a modified paragraph, the
//! severity of each kind of change, change identifiers and counts, and the
//! pairing of deleted and inserted paragraphs that are moves.
use vstd::prelude::*;
use crate::chars::{lowercase, to_lowercase};
use crate::fonts::{normalized, normalize_text};
use crate::surfaces::{pad4, padded4};
use crate::textdiff::{hunks_spec, hunk_views, text_hunks_from_tokens, HunkView};
use crate::fonts::text_views;
use crate::textscan::{split_ws, token_views, ws_tokens};
use crate::types::{ChangeKind, ChangeSeverity, DiffSummary, TextHunk, TextHunkKind};
use crate::chars::{chars_of, string_of};

verus! {

/// The severity that the default classifier gives to a change of each
/// kind.
pub open spec fn default_severity(kind: ChangeKind) -> ChangeSeverity {
    match kind {
        ChangeKind::Inserted | ChangeKind::Deleted | ChangeKind::Modified => ChangeSeverity::Major,
        ChangeKind::Moved | ChangeKind::LayoutChanged | ChangeKind::StyleChanged => ChangeSeverity::Minor,
        ChangeKind::MetadataChanged | ChangeKind::ObjectChanged => ChangeSeverity::Info,
        ChangeKind::AnnotationChanged | ChangeKind::FormFieldChanged | ChangeKind::Unknown => ChangeSeverity::Major,
    }
}

/// The classifier that rates changes by their kind alone.
#[derive(Debug, Clone, Copy, Default)]
pub struct DefaultSeverityClassifier;

impl DefaultSeverityClassifier {
    /// The severity of a change of kind `kind`.
    pub fn classify(&self, kind: ChangeKind) -> (r: ChangeSeverity)
        ensures
            r == default_severity(kind),
    {
        match kind {
            ChangeKind::Inserted | ChangeKind::Deleted | ChangeKind::Modified => ChangeSeverity::Major,
            ChangeKind::Moved | ChangeKind::LayoutChanged | ChangeKind::StyleChanged => ChangeSeverity::Minor,
            ChangeKind::MetadataChanged | ChangeKind::ObjectChanged => ChangeSeverity::Info,
            ChangeKind::AnnotationChanged | ChangeKind::FormFieldChanged | ChangeKind::Unknown => ChangeSeverity::Major,
        }
    }
}

/// A text as it is compared: with whitespace runs collapsed and the ends
/// trimmed where whitespace is ignored, lower-cased where case is ignored.
pub open spec fn match_text(text: Seq<char>, ignore_whitespace: bool, ignore_case: bool) -> Seq<char> {
    let t = if ignore_whitespace {
        normalized(text)
    } else {
        text
    };
    if ignore_case {
        lowercase(t)
    } else {
        t
    }
}

/// The text as it is compared, as `match_text` describes.
pub fn normalize_text_for_match(text: &str, ignore_whitespace: bool, ignore_case: bool) -> (r: String)
    ensures
        r@ == match_text(text@, ignore_whitespace, ignore_case),
{
    let t = if ignore_whitespace {
        normalize_text(text)
    } else {
        text.to_owned()
    };
    if ignore_case {
        to_lowercase(t.as_str())
    } else {
        t
    }
}

/// The text of a node as it is compared (a node without text counts as
/// empty).
pub fn comparable_text(text: Option<&str>, ignore_whitespace: bool, ignore_case: bool) -> (r: String)
    ensures
        r@ == match_text(
            match text {
                Some(t) => t@,
                None => Seq::empty(),
            },
            ignore_whitespace,
            ignore_case,
        ),
{
    proof {
        reveal_strlit("");
    }
    let t: &str = match text {
        Some(t) => t,
        None => "",
    };
    proof {
        assert(t@ == match text {
            Some(x) => x@,
            None => Seq::<char>::empty(),
        });
    }
    normalize_text_for_match(t, ignore_whitespace, ignore_case)
}

/// The words of a text as it is compared.
pub fn normalized_tokens(text: &str, ignore_whitespace: bool, ignore_case: bool) -> (r: Vec<String>)
    ensures
        text_views(r@) == ws_tokens(match_text(text@, ignore_whitespace, ignore_case)),
{
    let t = normalize_text_for_match(text, ignore_whitespace, ignore_case);
    let cs = chars_of(t.as_str());
    let tokens = split_ws(&cs);
    let ghost tv = token_views(tokens@);
    let mut out: Vec<String> = Vec::new();
    let mut i: usize = 0;
    proof {
        assert(text_views(out@) =~= tv.take(0));
    }
    while i < tokens.len()
        invariant
            i <= tokens@.len(),
            tv == token_views(tokens@),
            text_views(out@) == tv.take(i as int),
        decreases tokens@.len() - i,
    {
        let s = string_of(tokens[i].as_slice());
        let ghost before = text_views(out@);
        out.push(s);
        proof {
            assert(tv[i as int] == tokens@[i as int]@);
            assert(text_views(out@) =~= before.push(s@));
            assert(tv.take(i + 1) =~= tv.take(i as int).push(tv[i as int]));
        }
        i += 1;
    }
    proof {
        assert(tv.take(tokens@.len() as int) =~= tv);
    }
    out
}

/// The text hunks between two node texts, compared word by word as the
/// texts are compared; `None` where the new text has `usize::MAX` words, too
/// many for the comparison table.
pub fn text_hunks_for_nodes(
    old_text: Option<&str>,
    new_text: Option<&str>,
    ignore_whitespace: bool,
    ignore_case: bool,
) -> (r: Option<Vec<TextHunk>>)
    ensures
        ({
            let a = ws_tokens(match_text(match old_text { Some(t) => t@, None => Seq::empty() }, ignore_whitespace, ignore_case));
            let b = ws_tokens(match_text(match new_text { Some(t) => t@, None => Seq::empty() }, ignore_whitespace, ignore_case));
            match r {
                Some(h) => b.len() < usize::MAX && hunk_views(h@) == hunks_spec(a, b),
                None => b.len() >= usize::MAX,
            }
        }),
{
    proof {
        reveal_strlit("");
    }
    let o: &str = match old_text {
        Some(t) => t,
        None => "",
    };
    let n: &str = match new_text {
        Some(t) => t,
        None => "",
    };
    proof {
        assert(o@ == match old_text {
            Some(x) => x@,
            None => Seq::<char>::empty(),
        });
        assert(n@ == match new_text {
            Some(x) => x@,
            None => Seq::<char>::empty(),
        });
    }
    let old_tokens = normalized_tokens(o, ignore_whitespace, ignore_case);
    let new_tokens = normalized_tokens(n, ignore_whitespace, ignore_case);
    if new_tokens.len() == usize::MAX {
        return None;
    }
    Some(text_hunks_from_tokens(old_tokens.as_slice(), new_tokens.as_slice()))
}

/// The reason given for a modified paragraph: where its words differ, the
/// old and new text of the first hunk that is not equal, if there is one.
pub open spec fn modified_reason(same_words: bool, hunks: Seq<TextHunk>) -> Seq<char> {
    if same_words {
        "paragraph text differs between exact-match anchors"@
    } else {
        match first_change(hunks, 0) {
            Some(k) => "paragraph text differs between exact-match anchors (old: \""@ + text_or_empty(hunks[k].old_text)
                + "\" -> new: \""@ + text_or_empty(hunks[k].new_text) + "\")"@,
            None => "paragraph text differs between exact-match anchors"@,
        }
    }
}

pub open spec fn text_or_empty(o: Option<String>) -> Seq<char> {
    match o {
        Some(s) => s@,
        None => Seq::empty(),
    }
}

/// The position of the first hunk from `i` on that is not equal.
pub open spec fn first_change(hunks: Seq<TextHunk>, i: int) -> Option<int>
    decreases hunks.len() - i,
{
    if i < 0 || i >= hunks.len() {
        None
    } else if hunks[i].kind != TextHunkKind::Equal {
        Some(i)
    } else {
        first_change(hunks, i + 1)
    }
}

fn same_tokens(a: &Vec<String>, b: &Vec<String>) -> (r: bool)
    ensures
        r == (text_views(a@) == text_views(b@)),
{
    if a.len() != b.len() {
        proof {
            assert(text_views(a@).len() != text_views(b@).len());
        }
        return false;
    }
    let mut i: usize = 0;
    while i < a.len()
        invariant
            i <= a@.len(),
            a@.len() == b@.len(),
            forall|j: int| 0 <= j < i ==> a@[j]@ == b@[j]@,
        decreases a@.len() - i,
    {
        if a[i] != b[i] {
            proof {
                assert(text_views(a@)[i as int] != text_views(b@)[i as int]);
            }
            return false;
        }
        i += 1;
    }
    proof {
        assert(text_views(a@) =~= text_views(b@));
    }
    true
}

fn optional_text(o: &Option<String>) -> (r: &str)
    ensures
        r@ == text_or_empty(*o),
{
    proof {
        reveal_strlit("");
    }
    match o {
        Some(s) => s.as_str(),
        None => "",
    }
}

/// The reason given for a modified paragraph, as `modified_reason`
/// describes.
pub fn modified_reason_with_hunks(
    old_text: Option<&str>,
    new_text: Option<&str>,
    ignore_whitespace: bool,
    ignore_case: bool,
    text_hunks: &[TextHunk],
) -> (r: String)
    ensures
        r@ == modified_reason(
            ws_tokens(match_text(match old_text { Some(t) => t@, None => Seq::empty() }, ignore_whitespace, ignore_case))
                == ws_tokens(match_text(match new_text { Some(t) => t@, None => Seq::empty() }, ignore_whitespace, ignore_case)),
            text_hunks@,
        ),
{
    proof {
        reveal_strlit("");
    }
    let o: &str = match old_text {
        Some(t) => t,
        None => "",
    };
    let n: &str = match new_text {
        Some(t) => t,
        None => "",
    };
    proof {
        assert(o@ == match old_text {
            Some(x) => x@,
            None => Seq::<char>::empty(),
        });
        assert(n@ == match new_text {
            Some(x) => x@,
            None => Seq::<char>::empty(),
        });
    }
    let old_tokens = normalized_tokens(o, ignore_whitespace, ignore_case);
    let new_tokens = normalized_tokens(n, ignore_whitespace, ignore_case);
    if same_tokens(&old_tokens, &new_tokens) {
        return "paragraph text differs between exact-match anchors".to_owned();
    }
    let mut k: usize = 0;
    while k < text_hunks.len()
        invariant
            k <= text_hunks@.len(),
            first_change(text_hunks@, 0) == first_change(text_hunks@, k as int),
            ws_tokens(match_text(match old_text { Some(t) => t@, None => Seq::empty() }, ignore_whitespace, ignore_case))
                != ws_tokens(match_text(match new_text { Some(t) => t@, None => Seq::empty() }, ignore_whitespace, ignore_case)),
        decreases text_hunks@.len() - k,
    {
        if text_hunks[k].kind != TextHunkKind::Equal {
            let mut s = "paragraph text differs between exact-match anchors (old: \"".to_owned();
            s.append(optional_text(&text_hunks[k].old_text));
            s.append("\" -> new: \"");
            s.append(optional_text(&text_hunks[k].new_text));
            s.append("\")");
            return s;
        }
        k += 1;
    }
    "paragraph text differs between exact-match anchors".to_owned()
}

/// The identifier of the change at position `index`: `change-` and the
/// position in at least four digits.
pub fn change_id(index: usize) -> (r: String)
    ensures
        r@ == "change-"@ + padded4(index as nat),
{
    let mut s = "change-".to_owned();
    s.append(pad4(index).as_str());
    s
}

/// How many of the kinds are `k`.
pub open spec fn kind_count(kinds: Seq<ChangeKind>, k: ChangeKind) -> nat
    decreases kinds.len(),
{
    if kinds.len() == 0 {
        0
    } else {
        kind_count(kinds.drop_last(), k) + if kinds.last() == k {
            1nat
        } else {
            0nat
        }
    }
}

/// The counts of a diff's changes by kind.
pub fn summarize_kinds(kinds: &[ChangeKind]) -> (r: DiffSummary)
    ensures
        r.inserted == kind_count(kinds@, ChangeKind::Inserted),
        r.deleted == kind_count(kinds@, ChangeKind::Deleted),
        r.modified == kind_count(kinds@, ChangeKind::Modified),
        r.moved == kind_count(kinds@, ChangeKind::Moved),
        r.layout_changed == kind_count(kinds@, ChangeKind::LayoutChanged),
{
    let mut s = DiffSummary { inserted: 0, deleted: 0, modified: 0, moved: 0, layout_changed: 0 };
    let mut i: usize = 0;
    while i < kinds.len()
        invariant
            i <= kinds@.len(),
            s.inserted == kind_count(kinds@.take(i as int), ChangeKind::Inserted),
            s.deleted == kind_count(kinds@.take(i as int), ChangeKind::Deleted),
            s.modified == kind_count(kinds@.take(i as int), ChangeKind::Modified),
            s.moved == kind_count(kinds@.take(i as int), ChangeKind::Moved),
            s.layout_changed == kind_count(kinds@.take(i as int), ChangeKind::LayoutChanged),
            s.inserted + s.deleted + s.modified + s.moved + s.layout_changed <= i,
        decreases kinds@.len() - i,
    {
        proof {
            assert(kinds@.take(i + 1).drop_last() =~= kinds@.take(i as int));
            assert(kinds@.take(i + 1).last() == kinds@[i as int]);
        }
        match kinds[i] {
            ChangeKind::Inserted => s.inserted += 1,
            ChangeKind::Deleted => s.deleted += 1,
            ChangeKind::Modified => s.modified += 1,
            ChangeKind::Moved => s.moved += 1,
            ChangeKind::LayoutChanged => s.layout_changed += 1,
            _ => {},
        }
        i += 1;
    }
    proof {
        assert(kinds@.take(kinds@.len() as int) =~= kinds@);
    }
    s
}

/// What move detection reads of a change: its kind and the texts of its
/// old and new nodes.
#[derive(Debug, Clone, PartialEq, Eq)]
pub struct MoveCandidate {
    pub kind: ChangeKind,
    pub old_text: Option<String>,
    pub new_text: Option<String>,
}

/// The positions of the deletions among the first `n` changes, in order.
pub open spec fn deletions(cs: Seq<MoveCandidate>, n: int) -> Seq<int>
    decreases n,
{
    if n <= 0 {
        Seq::empty()
    } else if cs[n - 1].kind == ChangeKind::Deleted {
        deletions(cs, n - 1).push(n - 1)
    } else {
        deletions(cs, n - 1)
    }
}

/// The position, from `p` on, of the first waiting deletion whose old text
/// is `t` as compared.
pub open spec fn first_same(cs: Seq<MoveCandidate>, waiting: Seq<int>, t: Seq<char>, iw: bool, ic: bool, p: int) -> Option<int>
    decreases waiting.len() - p,
{
    if p < 0 || p >= waiting.len() {
        None
    } else if cs[waiting[p]].old_text matches Some(o) && match_text(o@, iw, ic) == t {
        Some(p)
    } else {
        first_same(cs, waiting, t, iw, ic, p + 1)
    }
}

/// The moves found among the first `n` changes, each an insertion paired
/// with the earliest waiting deletion of the same text, and the deletions
/// still waiting.
pub open spec fn move_scan(cs: Seq<MoveCandidate>, iw: bool, ic: bool, n: int) -> (Seq<(int, int)>, Seq<int>)
    decreases n,
{
    if n <= 0 {
        (Seq::empty(), deletions(cs, cs.len() as int))
    } else {
        let (pairs, waiting) = move_scan(cs, iw, ic, n - 1);
        let c = cs[n - 1];
        if c.kind == ChangeKind::Inserted && c.new_text is Some {
            match first_same(cs, waiting, match_text(c.new_text->0@, iw, ic), iw, ic, 0) {
                Some(p) => (pairs.push((n - 1, waiting[p])), waiting.remove(p)),
                None => (pairs, waiting),
            }
        } else {
            (pairs, waiting)
        }
    }
}

pub open spec fn pair_views(v: Seq<(usize, usize)>) -> Seq<(int, int)> {
    v.map_values(|e: (usize, usize)| (e.0 as int, e.1 as int))
}

pub open spec fn index_views(v: Seq<usize>) -> Seq<int> {
    v.map_values(|e: usize| e as int)
}

/// The moves among a diff's changes: each insertion whose new text, as
/// compared, is the old text of a deletion not yet paired is paired with
/// the earliest such deletion; as (insertion, deletion) positions.
pub fn move_pairs(changes: &[MoveCandidate], ignore_whitespace: bool, ignore_case: bool) -> (r: Vec<(usize, usize)>)
    ensures
        pair_views(r@) == move_scan(changes@, ignore_whitespace, ignore_case, changes@.len() as int).0,
{
    let ghost cs = changes@;
    let mut waiting: Vec<usize> = Vec::new();
    let mut i: usize = 0;
    proof {
        assert(index_views(waiting@) =~= deletions(cs, 0));
    }
    while i < changes.len()
        invariant
            i <= changes@.len(),
            cs == changes@,
            index_views(waiting@) == deletions(cs, i as int),
            forall|q: int| 0 <= q < waiting@.len() ==> (#[trigger] waiting@[q]) < i,
        decreases changes@.len() - i,
    {
        if changes[i].kind == ChangeKind::Deleted {
            let ghost before = index_views(waiting@);
            waiting.push(i);
            proof {
                assert(index_views(waiting@) =~= before.push(i as int));
            }
        }
        i += 1;
    }
    let mut pairs: Vec<(usize, usize)> = Vec::new();
    let mut k: usize = 0;
    proof {
        assert(pair_views(pairs@) =~= Seq::<(int, int)>::empty());
    }
    while k < changes.len()
        invariant
            k <= changes@.len(),
            cs == changes@,
            move_scan(cs, ignore_whitespace, ignore_case, k as int) == (pair_views(pairs@), index_views(waiting@)),
            forall|q: int| 0 <= q < waiting@.len() ==> (#[trigger] waiting@[q]) < changes@.len(),
        decreases changes@.len() - k,
    {
        let c = &changes[k];
        if c.kind == ChangeKind::Inserted {
            if let Some(text) = &c.new_text {
                let t = normalize_text_for_match(text.as_str(), ignore_whitespace, ignore_case);
                let ghost wv = index_views(waiting@);
                let mut p: usize = 0;
                proof {
                    assert(first_same(cs, wv, t@, ignore_whitespace, ignore_case, 0) == first_same(
                        cs,
                        wv,
                        t@,
                        ignore_whitespace,
                        ignore_case,
                        p as int,
                    ));
                }
                let mut found: Option<usize> = None;
                while found.is_none() && p < waiting.len()
                    invariant
                        p <= waiting@.len(),
                        wv == index_views(waiting@),
                        cs == changes@,
                        forall|q: int| 0 <= q < waiting@.len() ==> (#[trigger] waiting@[q]) < changes@.len(),
                        found is None ==> first_same(cs, wv, t@, ignore_whitespace, ignore_case, 0) == first_same(
                            cs,
                            wv,
                            t@,
                            ignore_whitespace,
                            ignore_case,
                            p as int,
                        ),
                        found matches Some(x) ==> x < waiting@.len() && first_same(cs, wv, t@, ignore_whitespace, ignore_case, 0)
                            == Some(x as int),
                    decreases waiting@.len() - p,
                {
                    let d = waiting[p];
                    proof {
                        assert(wv[p as int] == d as int);
                    }
                    let same = match &changes[d].old_text {
                        Some(o) => {
                            let ot = normalize_text_for_match(o.as_str(), ignore_whitespace, ignore_case);
                            ot == t
                        },
                        None => false,
                    };
                    if same {
                        found = Some(p);
                    }
                    p += 1;
                }
                match found {
                    Some(p) => {
                        let d = waiting.remove(p);
                        let ghost before_pairs = pair_views(pairs@);
                        pairs.push((k, d));
                        proof {
                            assert(pair_views(pairs@) =~= before_pairs.push((k as int, d as int)));
                            assert(index_views(waiting@) =~= wv.remove(p as int));
                        }
                    },
                    None => {},
                }
            }
        }
        k += 1;
    }
    pairs
}

} // verus!
