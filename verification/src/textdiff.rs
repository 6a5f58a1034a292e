//! Token-level comparison: longest common subsequences of token lists, the
//! edit hunks they induce, and the anchoring of unchanged texts.
use vstd::prelude::*;
use crate::fonts::{text_views, opt_chars};
use crate::types::{TextHunk, TextHunkKind};
use crate::textscan::join_space;
use crate::fmt::{concat2, concat, decimal_chars, usize_to_string};
use crate::chars::chars_of;
use crate::fonts::starts_with;
use crate::types::{Diagnostic, DiagnosticSeverity, plain_diag};

verus! {

/// The length of a longest common subsequence of `a[i..]` and `b[j..]`.
pub open spec fn lcs(a: Seq<Seq<char>>, b: Seq<Seq<char>>, i: int, j: int) -> nat
    decreases a.len() - i + b.len() - j,
{
    if i < 0 || j < 0 || i >= a.len() || j >= b.len() {
        0
    } else if a[i] == b[j] {
        1 + lcs(a, b, i + 1, j + 1)
    } else {
        let down = lcs(a, b, i + 1, j);
        let right = lcs(a, b, i, j + 1);
        if down >= right {
            down
        } else {
            right
        }
    }
}

proof fn lemma_lcs_bound(a: Seq<Seq<char>>, b: Seq<Seq<char>>, i: int, j: int)
    requires
        0 <= i <= a.len(),
        0 <= j <= b.len(),
    ensures
        lcs(a, b, i, j) <= a.len() - i,
        lcs(a, b, i, j) <= b.len() - j,
    decreases a.len() - i + b.len() - j,
{
    if i < a.len() && j < b.len() {
        if a[i] == b[j] {
            lemma_lcs_bound(a, b, i + 1, j + 1);
        } else {
            lemma_lcs_bound(a, b, i + 1, j);
            lemma_lcs_bound(a, b, i, j + 1);
        }
    }
}

/// The table of `lcs(a, b, i, j)`, stored bottom row first: row `k` holds
/// the values for `i == a.len() - k`.
pub open spec fn lcs_rows(rows: Seq<Vec<usize>>, a: Seq<Seq<char>>, b: Seq<Seq<char>>) -> bool {
    forall|k: int| 0 <= k < rows.len() ==> {
        &&& (#[trigger] rows[k])@.len() == b.len() + 1
        &&& forall|j: int| 0 <= j <= b.len() ==> rows[k]@[j] == lcs(a, b, a.len() - k, j)
    }
}

/// Builds the whole table of `lcs` values for `a` and `b`.
fn lcs_table(a: &[String], b: &[String]) -> (rows: Vec<Vec<usize>>)
    requires
        b@.len() < usize::MAX,
    ensures
        rows@.len() == a@.len() + 1,
        lcs_rows(rows@, text_views(a@), text_views(b@)),
{
    let ghost av = text_views(a@);
    let ghost bv = text_views(b@);
    let n = a.len();
    let m = b.len();
    let mut rows: Vec<Vec<usize>> = Vec::new();
    let mut bottom: Vec<usize> = Vec::new();
    let mut j: usize = 0;
    while j <= m
        invariant
            j <= m + 1,
            m == b.len(),
            m < usize::MAX,
            bottom@.len() == j,
            forall|t: int| 0 <= t < j ==> bottom@[t] == 0,
        decreases m + 1 - j,
    {
        bottom.push(0);
        j += 1;
    }
    proof {
        assert forall|t: int| 0 <= t <= bv.len() implies bottom@[t] == lcs(av, bv, av.len() - 0, t) by {}
    }
    rows.push(bottom);
    let mut k: usize = 0;
    while k < n
        invariant
            k <= n,
            n == a.len(),
            m == b.len(),
            av == text_views(a@),
            bv == text_views(b@),
            av.len() == n,
            bv.len() == m,
            rows@.len() == k + 1,
            lcs_rows(rows@, av, bv),
            m < usize::MAX,
        decreases n - k,
    {
        let i = n - 1 - k;
        let mut row: Vec<usize> = Vec::new();
        let mut t: usize = 0;
        while t <= m
            invariant
                t <= m + 1,
                m == b.len(),
                m < usize::MAX,
                row@.len() == t,
                forall|q: int| 0 <= q < t ==> row@[q] == 0,
            decreases m + 1 - t,
        {
            row.push(0);
            t += 1;
        }
        proof {
            lemma_lcs_bound(av, bv, i as int, m as int);
        }
        let mut jj: usize = m;
        while jj > 0
            invariant
                jj <= m,
                i < n,
                i == n - 1 - k,
                n == a.len(),
                m == b.len(),
                av == text_views(a@),
                bv == text_views(b@),
                av.len() == n,
                bv.len() == m,
                rows@.len() == k + 1,
                lcs_rows(rows@, av, bv),
                row@.len() == m + 1,
                forall|t: int| jj <= t <= m ==> row@[t] == lcs(av, bv, i as int, t),
            decreases jj,
        {
            let j = jj - 1;
            let below = &rows[k];
            proof {
                assert(below@.len() == m + 1);
                assert(av[i as int] == a@[i as int]@ && bv[j as int] == b@[j as int]@);
                lemma_lcs_bound(av, bv, i + 1, j + 1);
            }
            let v = if a[i] == b[j] {
                below[j + 1] + 1
            } else {
                let down = below[j];
                let right = row[j + 1];
                if down >= right {
                    down
                } else {
                    right
                }
            };
            row.set(j, v);
            jj = j;
        }
        let ghost before = rows@;
        rows.push(row);
        proof {
            assert forall|q: int| 0 <= q < rows@.len() implies {
                &&& (#[trigger] rows@[q])@.len() == bv.len() + 1
                &&& forall|t: int| 0 <= t <= bv.len() ==> rows@[q]@[t] == lcs(av, bv, av.len() - q, t)
            } by {
                if q < k + 1 {
                    assert(rows@[q] == before[q]);
                }
            }
        }
        k += 1;
    }
    rows
}

/// The length of a longest common subsequence of two token lists.
pub fn token_lcs_len(left: &[String], right: &[String]) -> (r: usize)
    requires
        right@.len() < usize::MAX,
    ensures
        r == lcs(text_views(left@), text_views(right@), 0, 0),
{
    let rows = lcs_table(left, right);
    let n = left.len();
    proof {
        assert(rows@[n as int]@[0] == lcs(text_views(left@), text_views(right@), 0, 0));
    }
    rows[n][0]
}

/// One step of the walk along a longest common subsequence.
pub enum Step {
    /// A token both lists share.
    Same(Seq<char>),
    /// A token only the old list has.
    Del(Seq<char>),
    /// A token only the new list has.
    Ins(Seq<char>),
}

/// The walk from `(i, j)`: shared tokens are taken together; otherwise the
/// old token is dropped when that keeps at least as long a common
/// subsequence as taking the new one, else the new token is inserted.
pub open spec fn steps(a: Seq<Seq<char>>, b: Seq<Seq<char>>, i: int, j: int) -> Seq<Step>
    decreases a.len() - i + b.len() - j,
{
    if i < 0 || j < 0 || i > a.len() || j > b.len() || (i == a.len() && j == b.len()) {
        Seq::empty()
    } else if i < a.len() && j < b.len() && a[i] == b[j] {
        seq![Step::Same(a[i])] + steps(a, b, i + 1, j + 1)
    } else if j >= b.len() || (i < a.len() && lcs(a, b, i + 1, j) >= lcs(a, b, i, j + 1)) {
        seq![Step::Del(a[i])] + steps(a, b, i + 1, j)
    } else {
        seq![Step::Ins(b[j])] + steps(a, b, i, j + 1)
    }
}

/// A hunk of a text comparison.
pub struct HunkView {
    pub kind: TextHunkKind,
    pub old_text: Option<Seq<char>>,
    pub new_text: Option<Seq<char>>,
}

impl TextHunk {
    pub open spec fn hunk(self) -> HunkView {
        HunkView { kind: self.kind, old_text: opt_chars(self.old_text), new_text: opt_chars(self.new_text) }
    }

    /// A token hunk: no granularity or ranges recorded.
    pub open spec fn plain(self) -> bool {
        self.granularity is None && self.old_range is None && self.new_range is None
    }
}

pub open spec fn hunk_views(hs: Seq<TextHunk>) -> Seq<HunkView> {
    hs.map_values(|h: TextHunk| h.hunk())
}

pub open spec fn all_plain(hs: Seq<TextHunk>) -> bool {
    forall|i: int| 0 <= i < hs.len() ==> (#[trigger] hs[i]).plain()
}

/// `addition` appended to `target`, after a space when `target` is not
/// empty.
pub open spec fn append_opt(target: Option<Seq<char>>, addition: Option<Seq<char>>) -> Option<Seq<char>> {
    match addition {
        None => target,
        Some(x) => match target {
            Some(t) => if t.len() > 0 {
                Some(t + seq![' '] + x)
            } else {
                Some(t + x)
            },
            None => Some(x),
        },
    }
}

/// A hunk added after `hs`, merged into the last one when of the same kind.
pub open spec fn push_merge(
    hs: Seq<HunkView>,
    kind: TextHunkKind,
    old_text: Option<Seq<char>>,
    new_text: Option<Seq<char>>,
) -> Seq<HunkView> {
    if hs.len() > 0 && hs.last().kind == kind {
        hs.update(
            hs.len() - 1,
            HunkView {
                kind,
                old_text: append_opt(hs.last().old_text, old_text),
                new_text: append_opt(hs.last().new_text, new_text),
            },
        )
    } else {
        hs.push(HunkView { kind, old_text, new_text })
    }
}

/// The pending deleted and inserted tokens, as one hunk.
pub open spec fn flush(hs: Seq<HunkView>, deleted: Seq<Seq<char>>, inserted: Seq<Seq<char>>) -> Seq<HunkView> {
    if deleted.len() == 0 && inserted.len() == 0 {
        hs
    } else {
        let kind = if deleted.len() > 0 && inserted.len() > 0 {
            TextHunkKind::Replaced
        } else if deleted.len() > 0 {
            TextHunkKind::Deleted
        } else {
            TextHunkKind::Inserted
        };
        push_merge(
            hs,
            kind,
            if deleted.len() > 0 { Some(join_space(deleted)) } else { None },
            if inserted.len() > 0 { Some(join_space(inserted)) } else { None },
        )
    }
}

pub struct HunkState {
    pub hunks: Seq<HunkView>,
    pub deleted: Seq<Seq<char>>,
    pub inserted: Seq<Seq<char>>,
}

pub open spec fn apply_step(st: HunkState, step: Step) -> HunkState {
    match step {
        Step::Same(t) => HunkState {
            hunks: push_merge(flush(st.hunks, st.deleted, st.inserted), TextHunkKind::Equal, Some(t), Some(t)),
            deleted: Seq::empty(),
            inserted: Seq::empty(),
        },
        Step::Del(t) => HunkState { hunks: st.hunks, deleted: st.deleted.push(t), inserted: st.inserted },
        Step::Ins(t) => HunkState { hunks: st.hunks, deleted: st.deleted, inserted: st.inserted.push(t) },
    }
}

pub open spec fn fold_steps(ss: Seq<Step>, k: int, st: HunkState) -> HunkState
    decreases k,
{
    if k <= 0 {
        st
    } else {
        apply_step(fold_steps(ss, k - 1, st), ss[k - 1])
    }
}

/// The hunks that turn token list `a` into `b`: runs of shared tokens, and
/// between them the dropped and inserted tokens, merged into one hunk.
pub open spec fn hunks_spec(a: Seq<Seq<char>>, b: Seq<Seq<char>>) -> Seq<HunkView> {
    let ss = steps(a, b, 0, 0);
    let st = fold_steps(ss, ss.len() as int, HunkState { hunks: Seq::empty(), deleted: Seq::empty(), inserted: Seq::empty() });
    flush(st.hunks, st.deleted, st.inserted)
}

fn append_optional_text(target: &mut Option<String>, addition: Option<String>)
    ensures
        opt_chars(*final(target)) == append_opt(opt_chars(*old(target)), opt_chars(addition)),
{
    let addition = match addition {
        Some(a) => a,
        None => return,
    };
    let current = target.take();
    match current {
        Some(t) => {
            if !t.as_str().is_empty() {
                let spaced = concat2(t.as_str(), " ");
                proof {
                    reveal_strlit(" ");
                }
                let joined = concat2(spaced.as_str(), addition.as_str());
                *target = Some(joined);
            } else {
                let joined = concat2(t.as_str(), addition.as_str());
                *target = Some(joined);
            }
        },
        None => {
            *target = Some(addition);
        },
    }
}

fn push_or_merge_hunk(hunks: &mut Vec<TextHunk>, kind: TextHunkKind, old_text: Option<String>, new_text: Option<String>)
    requires
        all_plain(old(hunks)@),
    ensures
        all_plain(final(hunks)@),
        hunk_views(final(hunks)@) == push_merge(hunk_views(old(hunks)@), kind, opt_chars(old_text), opt_chars(new_text)),
{
    let ghost before = hunk_views(hunks@);
    let n = hunks.len();
    if n > 0 && hunks[n - 1].kind == kind {
        let mut last = hunks.pop().unwrap();
        proof {
            assert(hunks@ =~= old(hunks)@.drop_last());
        }
        append_optional_text(&mut last.old_text, old_text);
        append_optional_text(&mut last.new_text, new_text);
        hunks.push(last);
        proof {
            assert(hunk_views(hunks@) =~= before.update(before.len() - 1, last.hunk()));
            assert forall|i: int| 0 <= i < hunks@.len() implies (#[trigger] hunks@[i]).plain() by {
                if i < n - 1 {
                    assert(hunks@[i] == old(hunks)@[i]);
                }
            }
        }
        return;
    }
    let h = TextHunk { kind, granularity: None, old_range: None, new_range: None, old_text, new_text };
    hunks.push(h);
    proof {
        assert(hunk_views(hunks@) =~= before.push(h.hunk()));
        assert forall|i: int| 0 <= i < hunks@.len() implies (#[trigger] hunks@[i]).plain() by {
            if i < n {
                assert(hunks@[i] == old(hunks)@[i]);
            }
        }
    }
}

/// The words joined by single spaces.
pub fn join_words(words: &Vec<String>) -> (r: String)
    ensures
        r@ == join_space(text_views(words@)),
{
    let ghost ws = text_views(words@);
    let mut out = String::new();
    let mut i: usize = 0;
    proof {
        assert(ws.take(0) =~= Seq::<Seq<char>>::empty());
        reveal_strlit(" ");
    }
    while i < words.len()
        invariant
            i <= words.len(),
            ws == text_views(words@),
            out@ == join_space(ws.take(i as int)),
            " "@ == seq![' '],
        decreases words.len() - i,
    {
        let ghost t = ws.take(i + 1);
        proof {
            assert(t.drop_last() =~= ws.take(i as int));
            assert(t.last() == words@[i as int]@);
        }
        if i == 0 {
            out = concat2(out.as_str(), words[i].as_str());
            proof {
                assert(ws.take(0) =~= Seq::<Seq<char>>::empty());
                assert(out@ =~= t[0]);
            }
        } else {
            let spaced = concat2(out.as_str(), " ");
            out = concat2(spaced.as_str(), words[i].as_str());
        }
        i += 1;
    }
    proof {
        assert(ws.take(i as int) =~= ws);
    }
    out
}

fn flush_change_hunk(hunks: &mut Vec<TextHunk>, deleted: &mut Vec<String>, inserted: &mut Vec<String>)
    requires
        all_plain(old(hunks)@),
    ensures
        all_plain(final(hunks)@),
        hunk_views(final(hunks)@) == flush(hunk_views(old(hunks)@), text_views(old(deleted)@), text_views(old(inserted)@)),
        final(deleted)@.len() == 0,
        final(inserted)@.len() == 0,
{
    if deleted.len() == 0 && inserted.len() == 0 {
        return;
    }
    let kind = if deleted.len() > 0 && inserted.len() > 0 {
        TextHunkKind::Replaced
    } else if deleted.len() > 0 {
        TextHunkKind::Deleted
    } else {
        TextHunkKind::Inserted
    };
    let old_text = if deleted.len() > 0 { Some(join_words(deleted)) } else { None };
    let new_text = if inserted.len() > 0 { Some(join_words(inserted)) } else { None };
    push_or_merge_hunk(hunks, kind, old_text, new_text);
    deleted.clear();
    inserted.clear();
}

proof fn lemma_fold_prefix(ss: Seq<Step>, x: Step, k: int, st: HunkState)
    requires
        0 <= k <= ss.len(),
    ensures
        fold_steps(ss.push(x), k, st) == fold_steps(ss, k, st),
    decreases k,
{
    if k > 0 {
        lemma_fold_prefix(ss, x, k - 1, st);
        assert(ss.push(x)[k - 1] == ss[k - 1]);
    }
}

pub open spec fn empty_state() -> HunkState {
    HunkState { hunks: Seq::empty(), deleted: Seq::empty(), inserted: Seq::empty() }
}

/// The hunks that turn `old_tokens` into `new_tokens`.
pub fn text_hunks_from_tokens(old_tokens: &[String], new_tokens: &[String]) -> (r: Vec<TextHunk>)
    requires
        new_tokens@.len() < usize::MAX,
    ensures
        all_plain(r@),
        hunk_views(r@) == hunks_spec(text_views(old_tokens@), text_views(new_tokens@)),
{
    let ghost a = text_views(old_tokens@);
    let ghost b = text_views(new_tokens@);
    let rows = lcs_table(old_tokens, new_tokens);
    let n = old_tokens.len();
    let m = new_tokens.len();
    let mut hunks: Vec<TextHunk> = Vec::new();
    let mut deleted: Vec<String> = Vec::new();
    let mut inserted: Vec<String> = Vec::new();
    let ghost mut done: Seq<Step> = Seq::empty();
    let mut i: usize = 0;
    let mut j: usize = 0;
    proof {
        assert(hunk_views(hunks@) =~= Seq::<HunkView>::empty());
        assert(text_views(deleted@) =~= Seq::<Seq<char>>::empty());
        assert(text_views(inserted@) =~= Seq::<Seq<char>>::empty());
        assert(done + steps(a, b, 0, 0) =~= steps(a, b, 0, 0));
    }
    while i < n || j < m
        invariant
            i <= n,
            j <= m,
            n == old_tokens.len(),
            m == new_tokens.len(),
            m < usize::MAX,
            a == text_views(old_tokens@),
            b == text_views(new_tokens@),
            a.len() == n,
            b.len() == m,
            rows@.len() == n + 1,
            lcs_rows(rows@, a, b),
            steps(a, b, 0, 0) == done + steps(a, b, i as int, j as int),
            fold_steps(done, done.len() as int, empty_state()) == (HunkState {
                hunks: hunk_views(hunks@),
                deleted: text_views(deleted@),
                inserted: text_views(inserted@),
            }),
            all_plain(hunks@),
        decreases n - i + m - j,
    {
        let ghost st0 = fold_steps(done, done.len() as int, empty_state());
        if i < n && j < m && old_tokens[i] == new_tokens[j] {
            proof {
                assert(a[i as int] == old_tokens@[i as int]@ && b[j as int] == new_tokens@[j as int]@);
            }
            flush_change_hunk(&mut hunks, &mut deleted, &mut inserted);
            let ot = old_tokens[i].clone();
            let nt = new_tokens[j].clone();
            push_or_merge_hunk(&mut hunks, TextHunkKind::Equal, Some(ot), Some(nt));
            proof {
                let x = Step::Same(a[i as int]);
                lemma_fold_prefix(done, x, done.len() as int, empty_state());
                assert(done.push(x) + steps(a, b, i + 1, j + 1) =~= done + steps(a, b, i as int, j as int));
                done = done.push(x);
                assert(text_views(deleted@) =~= Seq::<Seq<char>>::empty());
                assert(text_views(inserted@) =~= Seq::<Seq<char>>::empty());
            }
            i += 1;
            j += 1;
        } else {
            let take_old = if j >= m {
                true
            } else if i < n {
                let below = &rows[n - i - 1];
                let here = &rows[n - i];
                proof {
                    assert(below@.len() == m + 1 && here@.len() == m + 1);
                }
                below[j] >= here[j + 1]
            } else {
                false
            };
            proof {
                if i < n && j < m {
                    assert(a[i as int] == old_tokens@[i as int]@ && b[j as int] == new_tokens@[j as int]@);
                }
            }
            if take_old {
                let t = old_tokens[i].clone();
                let ghost before = text_views(deleted@);
                deleted.push(t);
                proof {
                    assert(a[i as int] == old_tokens@[i as int]@);
                    assert(text_views(deleted@) =~= before.push(t@));
                    let x = Step::Del(a[i as int]);
                    lemma_fold_prefix(done, x, done.len() as int, empty_state());
                    assert(done.push(x) + steps(a, b, i + 1, j as int) =~= done + steps(a, b, i as int, j as int));
                    done = done.push(x);
                }
                i += 1;
            } else {
                let t = new_tokens[j].clone();
                let ghost before = text_views(inserted@);
                inserted.push(t);
                proof {
                    assert(b[j as int] == new_tokens@[j as int]@);
                    assert(text_views(inserted@) =~= before.push(t@));
                    let x = Step::Ins(b[j as int]);
                    lemma_fold_prefix(done, x, done.len() as int, empty_state());
                    assert(done.push(x) + steps(a, b, i as int, j + 1) =~= done + steps(a, b, i as int, j as int));
                    done = done.push(x);
                }
                j += 1;
            }
        }
    }
    proof {
        assert(done + Seq::<Step>::empty() =~= done);
    }
    flush_change_hunk(&mut hunks, &mut deleted, &mut inserted);
    hunks
}

/// `left` and `right` differ, are both non-empty, and one begins with the
/// other.
pub open spec fn text_extension(left: Seq<char>, right: Seq<char>) -> bool {
    &&& left.len() > 0
    &&& right.len() > 0
    &&& left != right
    &&& (starts_with(left, right) || starts_with(right, left))
}

fn chars_prefix(s: &Vec<char>, p: &Vec<char>) -> (r: bool)
    ensures
        r == starts_with(s@, p@),
{
    if s.len() < p.len() {
        return false;
    }
    let mut i: usize = 0;
    while i < p.len()
        invariant
            i <= p.len() <= s.len(),
            forall|j: int| 0 <= j < i ==> s@[j] == p@[j],
        decreases p.len() - i,
    {
        if s[i] != p[i] {
            proof {
                assert(s@.take(p@.len() as int)[i as int] != p@[i as int]);
            }
            return false;
        }
        i += 1;
    }
    proof {
        assert(s@.take(p@.len() as int) =~= p@);
    }
    true
}

/// One text extends the other.
pub fn is_text_extension(left: &str, right: &str) -> (r: bool)
    ensures
        r == text_extension(left@, right@),
{
    let l = chars_of(left);
    let rt = chars_of(right);
    if l.len() == 0 || rt.len() == 0 {
        return false;
    }
    if l.len() == rt.len() && chars_prefix(&l, &rt) {
        proof {
            assert(l@.take(rt@.len() as int) =~= l@);
        }
        return false;
    }
    proof {
        if l@ == rt@ {
            assert(l@.take(rt@.len() as int) =~= l@);
        }
    }
    chars_prefix(&l, &rt) || chars_prefix(&rt, &l)
}

/// A `old_len` by `new_len` matrix has more cells than `limit` (or more than
/// `usize` can count).
pub fn matrix_cell_count_exceeds_limit(old_len: usize, new_len: usize, limit: usize) -> (r: bool)
    ensures
        r == (old_len * new_len > limit),
{
    match old_len.checked_mul(new_len) {
        Some(cells) => cells > limit,
        None => true,
    }
}

/// The cell count written in a limit message: the product, or `overflow`.
pub open spec fn cell_count_text(old_len: usize, new_len: usize) -> Seq<char> {
    if old_len * new_len <= usize::MAX {
        decimal_chars((old_len * new_len) as nat)
    } else {
        "overflow"@
    }
}

/// The text of a matrix-limit warning.
pub open spec fn limit_message(
    matrix_name: Seq<char>,
    old_len: usize,
    new_len: usize,
    limit: usize,
    fallback_name: Seq<char>,
) -> Seq<char> {
    matrix_name + " requires "@ + cell_count_text(old_len, new_len) + " cells for "@ + decimal_chars(old_len as nat)
        + " old nodes and "@ + decimal_chars(new_len as nat) + " new nodes, exceeding limit "@ + decimal_chars(
        limit as nat,
    ) + "; using "@ + fallback_name
}

/// The warning for a comparison matrix that would exceed its limit.
pub fn match_limit_diagnostic(
    code: &str,
    old_len: usize,
    new_len: usize,
    limit: usize,
    matrix_name: &str,
    fallback_name: &str,
) -> (d: Diagnostic)
    ensures
        d.view() == plain_diag(
            DiagnosticSeverity::Warning,
            code@,
            limit_message(matrix_name@, old_len, new_len, limit, fallback_name@),
        ),
{
    let cells = match old_len.checked_mul(new_len) {
        Some(c) => usize_to_string(c),
        None => "overflow".to_owned(),
    };
    let o = usize_to_string(old_len);
    let n = usize_to_string(new_len);
    let l = usize_to_string(limit);
    let message = concat(
        &[
            matrix_name,
            " requires ",
            cells.as_str(),
            " cells for ",
            o.as_str(),
            " old nodes and ",
            n.as_str(),
            " new nodes, exceeding limit ",
            l.as_str(),
            "; using ",
            fallback_name,
        ],
    );
    proof {
        reveal_with_fuel(crate::fmt::concat_spec, 12);
    }
    Diagnostic::warning(code, message.as_str())
}

/// The first new index from `from` on whose text is `t`.
pub open spec fn next_match(b: Seq<Seq<char>>, t: Seq<char>, from: int) -> Option<int>
    decreases b.len() - from,
{
    if from < 0 || from >= b.len() {
        None
    } else if b[from] == t {
        Some(from)
    } else {
        next_match(b, t, from + 1)
    }
}

/// Matches for the first `k` old texts, and the last new index matched:
/// each non-empty old text takes the first equal new text after the last
/// one taken.
pub open spec fn greedy_matches(a: Seq<Seq<char>>, b: Seq<Seq<char>>, k: int) -> (Seq<(usize, usize)>, Option<int>)
    decreases k,
{
    if k <= 0 {
        (Seq::empty(), None)
    } else {
        let (ms, last) = greedy_matches(a, b, k - 1);
        let lower = match last {
            Some(x) => x + 1,
            None => 0,
        };
        if a[k - 1].len() == 0 {
            (ms, last)
        } else {
            match next_match(b, a[k - 1], lower) {
                None => (ms, last),
                Some(j) => (ms.push(((k - 1) as usize, j as usize)), Some(j)),
            }
        }
    }
}

proof fn lemma_next_match(b: Seq<Seq<char>>, t: Seq<char>, from: int)
    requires
        from >= 0,
    ensures
        next_match(b, t, from) matches Some(j) ==> from <= j < b.len() && b[j] == t,
    decreases b.len() - from,
{
    if from < b.len() && b[from] != t {
        lemma_next_match(b, t, from + 1);
    }
}

proof fn lemma_greedy_last(a: Seq<Seq<char>>, b: Seq<Seq<char>>, k: int)
    ensures
        greedy_matches(a, b, k).1 matches Some(x) ==> 0 <= x < b.len(),
    decreases k,
{
    if k > 0 {
        lemma_greedy_last(a, b, k - 1);
        let last = greedy_matches(a, b, k - 1).1;
        let lower = match last {
            Some(x) => x + 1,
            None => 0,
        };
        lemma_next_match(b, a[k - 1], lower);
    }
}

/// Anchors equal texts in order without a matrix: each non-empty old text
/// takes the first equal new text after the last one taken.
pub fn greedy_exact_text_matches(old_texts: &[String], new_texts: &[String]) -> (r: Vec<(usize, usize)>)
    ensures
        r@ == greedy_matches(text_views(old_texts@), text_views(new_texts@), old_texts@.len() as int).0,
{
    let ghost a = text_views(old_texts@);
    let ghost b = text_views(new_texts@);
    let mut matches: Vec<(usize, usize)> = Vec::new();
    let mut lower: usize = 0;
    let mut k: usize = 0;
    while k < old_texts.len()
        invariant
            k <= old_texts.len(),
            a == text_views(old_texts@),
            b == text_views(new_texts@),
            matches@ == greedy_matches(a, b, k as int).0,
            lower as int == match greedy_matches(a, b, k as int).1 {
                Some(x) => x + 1,
                None => 0,
            },
        decreases old_texts.len() - k,
    {
        proof {
            assert(a[k as int] == old_texts@[k as int]@);
            lemma_greedy_last(a, b, k as int);
        }
        if !old_texts[k].as_str().is_empty() {
            let mut j = lower;
            while j < new_texts.len() && new_texts[j] != old_texts[k]
                invariant
                    lower <= j <= new_texts.len(),
                    k < old_texts.len(),
                    b == text_views(new_texts@),
                    a == text_views(old_texts@),
                    next_match(b, a[k as int], lower as int) == next_match(b, a[k as int], j as int),
                decreases new_texts.len() - j,
            {
                proof {
                    assert(b[j as int] == new_texts@[j as int]@);
                    assert(a[k as int] == old_texts@[k as int]@);
                }
                j += 1;
            }
            if j < new_texts.len() {
                proof {
                    assert(b[j as int] == new_texts@[j as int]@);
                }
                matches.push((k, j));
                lower = j + 1;
            }
        }
        k += 1;
    }
    matches
}

/// The matches read off the `lcs` table from `(i, j)`: equal texts are
/// matched; otherwise the walk drops the old text when that keeps at least
/// as long a common subsequence, else the new one.
pub open spec fn exact_walk(a: Seq<Seq<char>>, b: Seq<Seq<char>>, i: int, j: int) -> Seq<(usize, usize)>
    decreases a.len() - i + b.len() - j,
{
    if i < 0 || j < 0 || i >= a.len() || j >= b.len() {
        Seq::empty()
    } else if a[i] == b[j] {
        seq![(i as usize, j as usize)] + exact_walk(a, b, i + 1, j + 1)
    } else if lcs(a, b, i + 1, j) >= lcs(a, b, i, j + 1) {
        exact_walk(a, b, i + 1, j)
    } else {
        exact_walk(a, b, i, j + 1)
    }
}

/// Anchors of equal texts, with the warning when the matrix limit forced the
/// greedy fallback.
pub struct ExactMatchResult {
    pub matches: Vec<(usize, usize)>,
    pub diagnostic: Option<Diagnostic>,
}

/// Anchors equal old and new texts along a longest common subsequence, or
/// greedily (with a warning) when the matrix would exceed `max_cells`.
pub fn exact_text_matches(old_texts: &[String], new_texts: &[String], max_cells: usize) -> (r: ExactMatchResult)
    requires
        new_texts@.len() < usize::MAX,
    ensures
        ({
            let a = text_views(old_texts@);
            let b = text_views(new_texts@);
            if old_texts@.len() * new_texts@.len() > max_cells {
                &&& r.matches@ == greedy_matches(a, b, a.len() as int).0
                &&& r.diagnostic matches Some(d) && d.view() == plain_diag(
                    DiagnosticSeverity::Warning,
                    "EXACT_MATCH_LIMIT_EXCEEDED"@,
                    limit_message(
                        "exact text anchor matrix"@,
                        old_texts@.len() as usize,
                        new_texts@.len() as usize,
                        max_cells,
                        "greedy exact-anchor fallback"@,
                    ),
                )
            } else {
                &&& r.matches@ == exact_walk(a, b, 0, 0)
                &&& r.diagnostic is None
            }
        }),
{
    let old_len = old_texts.len();
    let new_len = new_texts.len();
    if matrix_cell_count_exceeds_limit(old_len, new_len, max_cells) {
        let matches = greedy_exact_text_matches(old_texts, new_texts);
        let d = match_limit_diagnostic(
            "EXACT_MATCH_LIMIT_EXCEEDED",
            old_len,
            new_len,
            max_cells,
            "exact text anchor matrix",
            "greedy exact-anchor fallback",
        );
        return ExactMatchResult { matches, diagnostic: Some(d) };
    }
    let ghost a = text_views(old_texts@);
    let ghost b = text_views(new_texts@);
    let rows = lcs_table(old_texts, new_texts);
    let n = old_len;
    let m = new_len;
    let mut matches: Vec<(usize, usize)> = Vec::new();
    let mut i: usize = 0;
    let mut j: usize = 0;
    proof {
        assert(matches@ + exact_walk(a, b, 0, 0) =~= exact_walk(a, b, 0, 0));
    }
    while i < n && j < m
        invariant
            i <= n,
            j <= m,
            n == old_texts.len(),
            m == new_texts.len(),
            a == text_views(old_texts@),
            b == text_views(new_texts@),
            a.len() == n,
            b.len() == m,
            rows@.len() == n + 1,
            lcs_rows(rows@, a, b),
            exact_walk(a, b, 0, 0) == matches@ + exact_walk(a, b, i as int, j as int),
        decreases n - i + m - j,
    {
        proof {
            assert(a[i as int] == old_texts@[i as int]@ && b[j as int] == new_texts@[j as int]@);
        }
        if old_texts[i] == new_texts[j] {
            let ghost before = matches@;
            matches.push((i, j));
            proof {
                assert(before + exact_walk(a, b, i as int, j as int) =~= matches@ + exact_walk(a, b, i + 1, j + 1));
            }
            i += 1;
            j += 1;
        } else {
            let below = &rows[n - i - 1];
            let here = &rows[n - i];
            proof {
                assert(below@.len() == m + 1 && here@.len() == m + 1);
            }
            if below[j] >= here[j + 1] {
                i += 1;
            } else {
                j += 1;
            }
        }
    }
    proof {
        assert(matches@ + Seq::<(usize, usize)>::empty() =~= matches@);
    }
    ExactMatchResult { matches, diagnostic: None }
}

} // verus!
