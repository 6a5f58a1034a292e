//! The reader-facing review of a diff: the tags that flag what a change may
//! touch, the sentence that explains it, the answers to the standing review
//! questions, and the diagnostic counts by code.
use vstd::prelude::*;
use crate::types::{AiDiagnosticCount, AiReviewTag, AiReviewAnswer, AiReviewQuestionHint, AiReviewSummary, ChangeKind, Diagnostic, DiffSummary, TextHunk};
use crate::content::strs;
use crate::tagged::{code_lt, code_less, lemma_code_order, lemma_code_trans};
use crate::fonts::{has_prefix, starts_with};
use crate::chars::{chars_of, lowercase, to_lowercase};
use crate::report::{contains_any, has_any, has_digit, hunk_has_digit_change, opens_section, first_words_ok, first_words_spec, section_hint_from_text};
use crate::cmap::trim;
use crate::textscan::{contains_chars, find_chars};

verus! {

/// What the review reads of one semantic change: its identifier and kind,
/// the texts of its old and new nodes, its text hunks, whether its
/// confidence is low (under 0.75), and the reason the engine gave.
#[derive(Debug, Clone, PartialEq, Eq)]
pub struct ReviewedChange {
    pub id: String,
    pub kind: ChangeKind,
    pub old_text: Option<String>,
    pub new_text: Option<String>,
    pub text_hunks: Vec<TextHunk>,
    pub low_confidence: bool,
    pub reason: String,
}

/// The text, or nothing where there is none.
pub open spec fn text_or_empty(o: Option<String>) -> Seq<char> {
    match o {
        Some(s) => s@,
        None => Seq::empty(),
    }
}

/// The old and the new node text joined by one space.
pub open spec fn change_text_spec(old_text: Option<String>, new_text: Option<String>) -> Seq<char> {
    text_or_empty(old_text) + seq![' '] + text_or_empty(new_text)
}

fn joined_texts(old_text: &Option<String>, new_text: &Option<String>) -> (r: String)
    ensures
        r@ == change_text_spec(*old_text, *new_text),
{
    proof {
        reveal_strlit("");
        reveal_strlit(" ");
    }
    let a: &str = match old_text {
        Some(s) => s.as_str(),
        None => "",
    };
    let b: &str = match new_text {
        Some(s) => s.as_str(),
        None => "",
    };
    let mut out = a.to_owned();
    out.append(" ");
    out.append(b);
    out
}

/// The texts of the change's old and new nodes, joined by a space.
pub fn change_text(change: &ReviewedChange) -> (r: String)
    ensures
        r@ == change_text_spec(change.old_text, change.new_text),
{
    joined_texts(&change.old_text, &change.new_text)
}

/// The words that mark payment or amount terms.
pub open spec fn payment_words() -> Seq<Seq<char>> {
    seq![
        "payment"@, "invoice"@, "amount"@, "fee"@, "price"@, "revenue"@, "total"@, "usd"@, "$"@, "maintenance"@,
        "schedule"@
    ]
}

/// The words that mark a date or a duration.
pub open spec fn duration_words() -> Seq<Seq<char>> {
    seq!["day"@, "days"@, "date"@, "term"@, "notice"@, "year"@, "annual"@, "month"@, "weekly"@]
}

/// The words that mark a party's name.
pub open spec fn party_words() -> Seq<Seq<char>> {
    seq!["corp"@, "llc"@, "inc"@, "client"@, "vendor"@, "party"@, "contractor"@]
}

/// The words that mark an obligation.
pub open spec fn obligation_words() -> Seq<Seq<char>> {
    seq![
        "shall"@, "must"@, "required"@, "obligation"@, "liable"@, "liability"@, "indemnification"@,
        "termination"@, "notice"@, "payment"@
    ]
}

/// Either side of the hunk holds an ASCII digit.
pub open spec fn hunk_digit(h: TextHunk) -> bool {
    (h.old_text matches Some(t) && has_digit(t@)) || (h.new_text matches Some(t) && has_digit(t@))
}

pub open spec fn hunks_have_digit(hunks: Seq<TextHunk>) -> bool {
    exists|i: int| 0 <= i < hunks.len() && hunk_digit(#[trigger] hunks[i])
}

/// Whether tag `t` applies to a change of this kind, whose lower-cased
/// text is `lower`, whose hunks hold a digit (`digit`), whose confidence
/// is low (`low`), and whose reason is `reason`.
pub open spec fn tag_holds(
    t: AiReviewTag,
    kind: ChangeKind,
    lower: Seq<char>,
    digit: bool,
    low: bool,
    reason: Seq<char>,
) -> bool {
    match t {
        AiReviewTag::TextChanged => kind is Modified,
        AiReviewTag::ContentInserted => kind is Inserted,
        AiReviewTag::ContentDeleted => kind is Deleted,
        AiReviewTag::ContentMoved => kind is Moved,
        AiReviewTag::LayoutOnly => kind is LayoutChanged,
        AiReviewTag::RepeatedPageRegion => false,
        AiReviewTag::PaymentTermsCandidate => contains_any(lower, payment_words()),
        AiReviewTag::DateOrDurationCandidate => contains_any(lower, duration_words()),
        AiReviewTag::PartyNameCandidate => contains_any(lower, party_words()),
        AiReviewTag::NumericValueChanged => digit,
        AiReviewTag::AnnotationOrLinkChanged => kind is AnnotationChanged,
        AiReviewTag::FormFieldChanged => kind is FormFieldChanged,
        AiReviewTag::MetadataChanged => kind is MetadataChanged,
        AiReviewTag::VisualSurfaceChanged => kind is ObjectChanged || kind is StyleChanged,
        AiReviewTag::UnsupportedSurface => contains_chars(reason, "UNSUPPORTED_"@),
        AiReviewTag::LowConfidence => low,
    }
}

/// Whether tag `t` applies to the change.
pub open spec fn change_tag_holds(c: ReviewedChange, t: AiReviewTag) -> bool {
    tag_holds(
        t,
        c.kind,
        lowercase(change_text_spec(c.old_text, c.new_text)),
        hunks_have_digit(c.text_hunks@),
        c.low_confidence,
        c.reason@,
    )
}

/// The position of a tag in the tags' declared order.
pub open spec fn tag_rank(t: AiReviewTag) -> int {
    match t {
        AiReviewTag::TextChanged => 0,
        AiReviewTag::ContentInserted => 1,
        AiReviewTag::ContentDeleted => 2,
        AiReviewTag::ContentMoved => 3,
        AiReviewTag::LayoutOnly => 4,
        AiReviewTag::RepeatedPageRegion => 5,
        AiReviewTag::PaymentTermsCandidate => 6,
        AiReviewTag::DateOrDurationCandidate => 7,
        AiReviewTag::PartyNameCandidate => 8,
        AiReviewTag::NumericValueChanged => 9,
        AiReviewTag::AnnotationOrLinkChanged => 10,
        AiReviewTag::FormFieldChanged => 11,
        AiReviewTag::MetadataChanged => 12,
        AiReviewTag::VisualSurfaceChanged => 13,
        AiReviewTag::UnsupportedSurface => 14,
        AiReviewTag::LowConfidence => 15,
    }
}

/// The tag at position `k` of the declared order.
pub open spec fn rank_tag(k: int) -> AiReviewTag {
    if k <= 0 {
        AiReviewTag::TextChanged
    } else if k == 1 {
        AiReviewTag::ContentInserted
    } else if k == 2 {
        AiReviewTag::ContentDeleted
    } else if k == 3 {
        AiReviewTag::ContentMoved
    } else if k == 4 {
        AiReviewTag::LayoutOnly
    } else if k == 5 {
        AiReviewTag::RepeatedPageRegion
    } else if k == 6 {
        AiReviewTag::PaymentTermsCandidate
    } else if k == 7 {
        AiReviewTag::DateOrDurationCandidate
    } else if k == 8 {
        AiReviewTag::PartyNameCandidate
    } else if k == 9 {
        AiReviewTag::NumericValueChanged
    } else if k == 10 {
        AiReviewTag::AnnotationOrLinkChanged
    } else if k == 11 {
        AiReviewTag::FormFieldChanged
    } else if k == 12 {
        AiReviewTag::MetadataChanged
    } else if k == 13 {
        AiReviewTag::VisualSurfaceChanged
    } else if k == 14 {
        AiReviewTag::UnsupportedSurface
    } else {
        AiReviewTag::LowConfidence
    }
}

proof fn lemma_rank(t: AiReviewTag)
    ensures
        0 <= tag_rank(t) < 16,
        rank_tag(tag_rank(t)) == t,
{
}

fn tag_at(k: usize) -> (t: AiReviewTag)
    requires
        k < 16,
    ensures
        t == rank_tag(k as int),
        tag_rank(t) == k,
{
    if k == 0 {
        AiReviewTag::TextChanged
    } else if k == 1 {
        AiReviewTag::ContentInserted
    } else if k == 2 {
        AiReviewTag::ContentDeleted
    } else if k == 3 {
        AiReviewTag::ContentMoved
    } else if k == 4 {
        AiReviewTag::LayoutOnly
    } else if k == 5 {
        AiReviewTag::RepeatedPageRegion
    } else if k == 6 {
        AiReviewTag::PaymentTermsCandidate
    } else if k == 7 {
        AiReviewTag::DateOrDurationCandidate
    } else if k == 8 {
        AiReviewTag::PartyNameCandidate
    } else if k == 9 {
        AiReviewTag::NumericValueChanged
    } else if k == 10 {
        AiReviewTag::AnnotationOrLinkChanged
    } else if k == 11 {
        AiReviewTag::FormFieldChanged
    } else if k == 12 {
        AiReviewTag::MetadataChanged
    } else if k == 13 {
        AiReviewTag::VisualSurfaceChanged
    } else if k == 14 {
        AiReviewTag::UnsupportedSurface
    } else {
        AiReviewTag::LowConfidence
    }
}

fn hunks_digit(hunks: &Vec<TextHunk>) -> (r: bool)
    ensures
        r == hunks_have_digit(hunks@),
{
    let mut i: usize = 0;
    while i < hunks.len()
        invariant
            i <= hunks.len(),
            forall|j: int| 0 <= j < i ==> !hunk_digit(#[trigger] hunks@[j]),
        decreases hunks.len() - i,
    {
        if hunk_has_digit_change(&hunks[i]) {
            proof {
                assert(hunk_digit(hunks@[i as int]));
            }
            return true;
        }
        i += 1;
    }
    false
}

fn payment_terms(lower: &str) -> (r: bool)
    ensures
        r == contains_any(lower@, payment_words()),
{
    let words: [&str; 11] = [
        "payment", "invoice", "amount", "fee", "price", "revenue", "total", "usd", "$", "maintenance", "schedule",
    ];
    proof {
        assert(words@.map_values(|n: &str| n@) =~= payment_words());
    }
    has_any(lower, &words)
}

fn duration_terms(lower: &str) -> (r: bool)
    ensures
        r == contains_any(lower@, duration_words()),
{
    let words: [&str; 9] = ["day", "days", "date", "term", "notice", "year", "annual", "month", "weekly"];
    proof {
        assert(words@.map_values(|n: &str| n@) =~= duration_words());
    }
    has_any(lower, &words)
}

fn party_terms(lower: &str) -> (r: bool)
    ensures
        r == contains_any(lower@, party_words()),
{
    let words: [&str; 7] = ["corp", "llc", "inc", "client", "vendor", "party", "contractor"];
    proof {
        assert(words@.map_values(|n: &str| n@) =~= party_words());
    }
    has_any(lower, &words)
}

fn obligation_terms(lower: &str) -> (r: bool)
    ensures
        r == contains_any(lower@, obligation_words()),
{
    let words: [&str; 10] = [
        "shall", "must", "required", "obligation", "liable", "liability", "indemnification", "termination",
        "notice", "payment",
    ];
    proof {
        assert(words@.map_values(|n: &str| n@) =~= obligation_words());
    }
    has_any(lower, &words)
}

/// The flags that decide the tags of one change.
struct TagFlags {
    payment: bool,
    duration: bool,
    party: bool,
    digit: bool,
    low: bool,
    unsupported: bool,
}

fn tag_applies(t: AiReviewTag, kind: ChangeKind, f: &TagFlags) -> (r: bool)
    ensures
        r == (match t {
            AiReviewTag::TextChanged => kind is Modified,
            AiReviewTag::ContentInserted => kind is Inserted,
            AiReviewTag::ContentDeleted => kind is Deleted,
            AiReviewTag::ContentMoved => kind is Moved,
            AiReviewTag::LayoutOnly => kind is LayoutChanged,
            AiReviewTag::RepeatedPageRegion => false,
            AiReviewTag::PaymentTermsCandidate => f.payment,
            AiReviewTag::DateOrDurationCandidate => f.duration,
            AiReviewTag::PartyNameCandidate => f.party,
            AiReviewTag::NumericValueChanged => f.digit,
            AiReviewTag::AnnotationOrLinkChanged => kind is AnnotationChanged,
            AiReviewTag::FormFieldChanged => kind is FormFieldChanged,
            AiReviewTag::MetadataChanged => kind is MetadataChanged,
            AiReviewTag::VisualSurfaceChanged => kind is ObjectChanged || kind is StyleChanged,
            AiReviewTag::UnsupportedSurface => f.unsupported,
            AiReviewTag::LowConfidence => f.low,
        }),
{
    match t {
        AiReviewTag::TextChanged => matches!(kind, ChangeKind::Modified),
        AiReviewTag::ContentInserted => matches!(kind, ChangeKind::Inserted),
        AiReviewTag::ContentDeleted => matches!(kind, ChangeKind::Deleted),
        AiReviewTag::ContentMoved => matches!(kind, ChangeKind::Moved),
        AiReviewTag::LayoutOnly => matches!(kind, ChangeKind::LayoutChanged),
        AiReviewTag::RepeatedPageRegion => false,
        AiReviewTag::PaymentTermsCandidate => f.payment,
        AiReviewTag::DateOrDurationCandidate => f.duration,
        AiReviewTag::PartyNameCandidate => f.party,
        AiReviewTag::NumericValueChanged => f.digit,
        AiReviewTag::AnnotationOrLinkChanged => matches!(kind, ChangeKind::AnnotationChanged),
        AiReviewTag::FormFieldChanged => matches!(kind, ChangeKind::FormFieldChanged),
        AiReviewTag::MetadataChanged => matches!(kind, ChangeKind::MetadataChanged),
        AiReviewTag::VisualSurfaceChanged => matches!(kind, ChangeKind::ObjectChanged)
            || matches!(kind, ChangeKind::StyleChanged),
        AiReviewTag::UnsupportedSurface => f.unsupported,
        AiReviewTag::LowConfidence => f.low,
    }
}

/// The review tags of a change, each once, in the tags' declared order:
/// exactly those that apply to it.
pub fn review_tags(change: &ReviewedChange) -> (r: Vec<AiReviewTag>)
    ensures
        forall|t: AiReviewTag| r@.contains(t) <==> change_tag_holds(*change, t),
        forall|i: int, j: int| 0 <= i < j < r@.len() ==> tag_rank(#[trigger] r@[i]) < tag_rank(#[trigger] r@[j]),
{
    let text = change_text(change);
    let lower = to_lowercase(text.as_str());
    let reason = chars_of(change.reason.as_str());
    let marker = chars_of("UNSUPPORTED_");
    let flags = TagFlags {
        payment: payment_terms(lower.as_str()),
        duration: duration_terms(lower.as_str()),
        party: party_terms(lower.as_str()),
        digit: hunks_digit(&change.text_hunks),
        low: change.low_confidence,
        unsupported: find_chars(&reason, &marker, 0).is_some(),
    };
    let ghost holds = |t: AiReviewTag| change_tag_holds(*change, t);
    let mut tags: Vec<AiReviewTag> = Vec::new();
    let mut k: usize = 0;
    while k < 16
        invariant
            k <= 16,
            holds == (|t: AiReviewTag| change_tag_holds(*change, t)),
            forall|t: AiReviewTag| #[trigger] change_tag_holds(*change, t) == tag_holds(
                t,
                change.kind,
                lowercase(change_text_spec(change.old_text, change.new_text)),
                flags.digit,
                flags.low,
                change.reason@,
            ),
            flags.payment == contains_any(lowercase(change_text_spec(change.old_text, change.new_text)), payment_words()),
            flags.duration == contains_any(lowercase(change_text_spec(change.old_text, change.new_text)), duration_words()),
            flags.party == contains_any(lowercase(change_text_spec(change.old_text, change.new_text)), party_words()),
            flags.unsupported == contains_chars(change.reason@, "UNSUPPORTED_"@),
            forall|t: AiReviewTag| tags@.contains(t) <==> (change_tag_holds(*change, t) && tag_rank(t) < k),
            forall|i: int| 0 <= i < tags@.len() ==> tag_rank(#[trigger] tags@[i]) < k,
            forall|i: int, j: int| 0 <= i < j < tags@.len() ==> tag_rank(#[trigger] tags@[i]) < tag_rank(#[trigger] tags@[j]),
        decreases 16 - k,
    {
        let t = tag_at(k);
        let applies = tag_applies(t, change.kind, &flags);
        let ghost before = tags@;
        if applies {
            tags.push(t);
        }
        proof {
            assert(applies == change_tag_holds(*change, t));
            assert forall|u: AiReviewTag| tags@.contains(u) <==> (change_tag_holds(*change, u) && tag_rank(u) < k + 1) by {
                lemma_rank(u);
                if tag_rank(u) == k {
                    assert(u == t);
                }
                if applies {
                    assert(tags@ == before.push(t));
                    if tags@.contains(u) && u != t {
                        let q = choose|q: int| 0 <= q < tags@.len() && tags@[q] == u;
                        assert(before[q] == u);
                    }
                    if before.contains(u) {
                        let q = choose|q: int| 0 <= q < before.len() && before[q] == u;
                        assert(tags@[q] == u);
                    }
                    if u == t {
                        assert(tags@[before.len() as int] == u);
                    }
                }
            }
        }
        k += 1;
    }
    tags
}

/// The words of the change mention an obligation.
pub fn change_text_mentions_obligation(change: &ReviewedChange) -> (r: bool)
    ensures
        r == contains_any(lowercase(change_text_spec(change.old_text, change.new_text)), obligation_words()),
{
    let text = change_text(change);
    let lower = to_lowercase(text.as_str());
    obligation_terms(lower.as_str())
}

/// The sentence that opens the explanation of a change of this kind.
pub open spec fn kind_sentence(kind: ChangeKind) -> Seq<char> {
    match kind {
        ChangeKind::Inserted => "Content was inserted."@,
        ChangeKind::Deleted => "Content was deleted."@,
        ChangeKind::Modified => "Text changed between matched semantic nodes."@,
        ChangeKind::Moved => "Content appears to have moved without a primary text change."@,
        ChangeKind::LayoutChanged => "Layout changed while text evidence stayed comparable."@,
        ChangeKind::StyleChanged => "A style-facing surface changed."@,
        ChangeKind::MetadataChanged => "A metadata-facing surface changed."@,
        ChangeKind::AnnotationChanged => "An annotation or link surface changed."@,
        ChangeKind::FormFieldChanged => "A form-field surface changed."@,
        ChangeKind::ObjectChanged => "A report-facing PDF object surface changed."@,
        ChangeKind::Unknown => "A change was detected but not classified further."@,
    }
}

pub open spec fn payment_note() -> Seq<char> {
    "Payment or amount terms are mentioned; treat this as a review candidate, not a legal conclusion."@
}

pub open spec fn duration_note() -> Seq<char> {
    "Date, duration, or notice language is mentioned."@
}

pub open spec fn low_confidence_note() -> Seq<char> {
    "Confidence is low; inspect extraction diagnostics and source evidence."@
}

/// A space and `note` where `present`, else nothing.
pub open spec fn note_if(present: bool, note: Seq<char>) -> Seq<char> {
    if present {
        seq![' '] + note
    } else {
        Seq::empty()
    }
}

/// The explanation of a change: the sentence for its kind, a note for each
/// of the payment, duration and low-confidence tags it carries, and its
/// reason, separated by single spaces.
pub open spec fn explanation_spec(kind: ChangeKind, tags: Seq<AiReviewTag>, reason: Seq<char>) -> Seq<char> {
    kind_sentence(kind) + note_if(tags.contains(AiReviewTag::PaymentTermsCandidate), payment_note()) + note_if(
        tags.contains(AiReviewTag::DateOrDurationCandidate),
        duration_note(),
    ) + note_if(tags.contains(AiReviewTag::LowConfidence), low_confidence_note()) + seq![' '] + reason
}

fn kind_text(kind: ChangeKind) -> (r: &'static str)
    ensures
        r@ == kind_sentence(kind),
{
    match kind {
        ChangeKind::Inserted => "Content was inserted.",
        ChangeKind::Deleted => "Content was deleted.",
        ChangeKind::Modified => "Text changed between matched semantic nodes.",
        ChangeKind::Moved => "Content appears to have moved without a primary text change.",
        ChangeKind::LayoutChanged => "Layout changed while text evidence stayed comparable.",
        ChangeKind::StyleChanged => "A style-facing surface changed.",
        ChangeKind::MetadataChanged => "A metadata-facing surface changed.",
        ChangeKind::AnnotationChanged => "An annotation or link surface changed.",
        ChangeKind::FormFieldChanged => "A form-field surface changed.",
        ChangeKind::ObjectChanged => "A report-facing PDF object surface changed.",
        ChangeKind::Unknown => "A change was detected but not classified further.",
    }
}

fn has_tag(tags: &[AiReviewTag], t: AiReviewTag) -> (r: bool)
    ensures
        r == tags@.contains(t),
{
    let mut i: usize = 0;
    while i < tags.len()
        invariant
            i <= tags.len(),
            forall|j: int| 0 <= j < i ==> tags@[j] != t,
        decreases tags.len() - i,
    {
        if tags[i] == t {
            proof {
                assert(tags@[i as int] == t);
            }
            return true;
        }
        i += 1;
    }
    false
}

fn push_note(out: &mut String, present: bool, note: &str)
    ensures
        final(out)@ == old(out)@ + note_if(present, note@),
{
    proof {
        reveal_strlit(" ");
    }
    if present {
        out.append(" ");
        out.append(note);
    } else {
        proof {
            assert(old(out)@ + note_if(present, note@) =~= old(out)@);
        }
    }
}

/// The explanation of a change that carries `tags`.
pub fn review_explanation(change: &ReviewedChange, tags: &[AiReviewTag]) -> (r: String)
    ensures
        r@ == explanation_spec(change.kind, tags@, change.reason@),
{
    proof {
        reveal_strlit(" ");
    }
    let mut out = kind_text(change.kind).to_owned();
    push_note(
        &mut out,
        has_tag(tags, AiReviewTag::PaymentTermsCandidate),
        "Payment or amount terms are mentioned; treat this as a review candidate, not a legal conclusion.",
    );
    push_note(
        &mut out,
        has_tag(tags, AiReviewTag::DateOrDurationCandidate),
        "Date, duration, or notice language is mentioned.",
    );
    push_note(
        &mut out,
        has_tag(tags, AiReviewTag::LowConfidence),
        "Confidence is low; inspect extraction diagnostics and source evidence.",
    );
    out.append(" ");
    out.append(change.reason.as_str());
    out
}

/// What the standing review questions read of one review item: the change
/// it reviews, its tags, and the old and new node texts of its evidence.
#[derive(Debug, Clone, PartialEq, Eq)]
pub struct ReviewedItem {
    pub change_id: String,
    pub tags: Vec<AiReviewTag>,
    pub old_text: Option<String>,
    pub new_text: Option<String>,
}

/// The standing review questions that are answered from the items.
#[derive(Debug, Clone, Copy, PartialEq, Eq)]
pub enum ReviewQuestion {
    Obligations,
    PaymentTerms,
    LayoutOnly,
    LowConfidence,
}

/// Whether `item` supports a "yes" to question `q`.
pub open spec fn supports(item: ReviewedItem, q: ReviewQuestion) -> bool {
    let tags = item.tags@;
    match q {
        ReviewQuestion::Obligations => (tags.contains(AiReviewTag::TextChanged) || tags.contains(
            AiReviewTag::ContentInserted,
        ) || tags.contains(AiReviewTag::ContentDeleted) || tags.contains(AiReviewTag::ContentMoved))
            && contains_any(lowercase(change_text_spec(item.old_text, item.new_text)), obligation_words()),
        ReviewQuestion::PaymentTerms => tags.contains(AiReviewTag::PaymentTermsCandidate),
        ReviewQuestion::LayoutOnly => tags.contains(AiReviewTag::LayoutOnly),
        ReviewQuestion::LowConfidence => tags.contains(AiReviewTag::LowConfidence),
    }
}

/// The change identifiers of the items that support question `q`, in the
/// items' order.
pub open spec fn supporting_ids(items: Seq<ReviewedItem>, q: ReviewQuestion) -> Seq<Seq<char>>
    decreases items.len(),
{
    if items.len() == 0 {
        Seq::empty()
    } else {
        let rest = supporting_ids(items.drop_last(), q);
        if supports(items.last(), q) {
            rest.push(items.last().change_id@)
        } else {
            rest
        }
    }
}

/// `h` asks `question`, lists `ids` in support, answers yes exactly when
/// there is one, and gives `rationale`.
pub open spec fn hint_is(h: AiReviewQuestionHint, question: Seq<char>, ids: Seq<Seq<char>>, rationale: Seq<char>) -> bool {
    &&& h.question@ == question
    &&& strs(h.supporting_change_ids@) == ids
    &&& h.answer == (if ids.len() == 0 {
        AiReviewAnswer::No
    } else {
        AiReviewAnswer::Yes
    })
    &&& h.rationale@ == rationale
}

fn item_supports(item: &ReviewedItem, q: ReviewQuestion) -> (r: bool)
    ensures
        r == supports(*item, q),
{
    let tags = item.tags.as_slice();
    match q {
        ReviewQuestion::Obligations => {
            let edited = has_tag(tags, AiReviewTag::TextChanged) || has_tag(tags, AiReviewTag::ContentInserted)
                || has_tag(tags, AiReviewTag::ContentDeleted) || has_tag(tags, AiReviewTag::ContentMoved);
            if !edited {
                return false;
            }
            let text = joined_texts(&item.old_text, &item.new_text);
            let lower = to_lowercase(text.as_str());
            obligation_terms(lower.as_str())
        },
        ReviewQuestion::PaymentTerms => has_tag(tags, AiReviewTag::PaymentTermsCandidate),
        ReviewQuestion::LayoutOnly => has_tag(tags, AiReviewTag::LayoutOnly),
        ReviewQuestion::LowConfidence => has_tag(tags, AiReviewTag::LowConfidence),
    }
}

fn question_hint(question: &str, items: &[ReviewedItem], q: ReviewQuestion, rationale: &str) -> (h: AiReviewQuestionHint)
    ensures
        hint_is(h, question@, supporting_ids(items@, q), rationale@),
{
    let mut ids: Vec<String> = Vec::new();
    let mut i: usize = 0;
    while i < items.len()
        invariant
            i <= items.len(),
            strs(ids@) == supporting_ids(items@.take(i as int), q),
        decreases items.len() - i,
    {
        let ghost before = ids@;
        proof {
            assert(items@.take(i + 1).drop_last() =~= items@.take(i as int));
        }
        if item_supports(&items[i], q) {
            let id = items[i].change_id.clone();
            ids.push(id);
            proof {
                assert(strs(ids@) =~= strs(before).push(id@));
            }
        }
        i += 1;
    }
    proof {
        assert(items@.take(items@.len() as int) =~= items@);
    }
    let answer = if ids.len() == 0 {
        AiReviewAnswer::No
    } else {
        AiReviewAnswer::Yes
    };
    AiReviewQuestionHint {
        question: question.to_owned(),
        answer,
        supporting_change_ids: ids,
        rationale: rationale.to_owned(),
    }
}

/// The answers to the five standing review questions: which items show
/// changed obligations, payment terms, layout-only changes and low
/// confidence, and whether any unsupported surface was met.
pub fn build_question_hints(items: &[ReviewedItem], unsupported_surface_count: usize) -> (r: Vec<
    AiReviewQuestionHint,
>)
    ensures
        r@.len() == 5,
        hint_is(
            r@[0],
            "Which contractual obligations changed?"@,
            supporting_ids(items@, ReviewQuestion::Obligations),
            "Candidate obligation changes are based on obligation-like keywords and semantic change evidence."@,
        ),
        hint_is(
            r@[1],
            "Were payment terms modified?"@,
            supporting_ids(items@, ReviewQuestion::PaymentTerms),
            "Payment-term candidates are based on payment, invoice, amount, or currency language in changed evidence."@,
        ),
        hint_is(
            r@[2],
            "Did layout change without text changing?"@,
            supporting_ids(items@, ReviewQuestion::LayoutOnly),
            "Layout-only answers use changes classified separately from text modifications."@,
        ),
        hint_is(
            r@[3],
            "Which changes are low-confidence because extraction was incomplete?"@,
            supporting_ids(items@, ReviewQuestion::LowConfidence),
            "Low-confidence answers use the engine confidence bucket and should be cross-checked with diagnostics."@,
        ),
        r@[4].question@ == "Were unsupported PDF surfaces encountered?"@,
        r@[4].answer == (if unsupported_surface_count > 0 {
            AiReviewAnswer::Yes
        } else {
            AiReviewAnswer::No
        }),
        r@[4].supporting_change_ids@.len() == 0,
        r@[4].rationale@
            == "Unsupported surfaces are counted from stable diagnostic codes that start with UNSUPPORTED_."@,
{
    let mut hints: Vec<AiReviewQuestionHint> = Vec::new();
    hints.push(
        question_hint(
            "Which contractual obligations changed?",
            items,
            ReviewQuestion::Obligations,
            "Candidate obligation changes are based on obligation-like keywords and semantic change evidence.",
        ),
    );
    hints.push(
        question_hint(
            "Were payment terms modified?",
            items,
            ReviewQuestion::PaymentTerms,
            "Payment-term candidates are based on payment, invoice, amount, or currency language in changed evidence.",
        ),
    );
    hints.push(
        question_hint(
            "Did layout change without text changing?",
            items,
            ReviewQuestion::LayoutOnly,
            "Layout-only answers use changes classified separately from text modifications.",
        ),
    );
    hints.push(
        question_hint(
            "Which changes are low-confidence because extraction was incomplete?",
            items,
            ReviewQuestion::LowConfidence,
            "Low-confidence answers use the engine confidence bucket and should be cross-checked with diagnostics.",
        ),
    );
    let answer = if unsupported_surface_count > 0 {
        AiReviewAnswer::Yes
    } else {
        AiReviewAnswer::No
    };
    hints.push(
        AiReviewQuestionHint {
            question: "Were unsupported PDF surfaces encountered?".to_owned(),
            answer,
            supporting_change_ids: Vec::new(),
            rationale: "Unsupported surfaces are counted from stable diagnostic codes that start with UNSUPPORTED_.".to_owned(),
        },
    );
    hints
}

/// The number of diagnostics whose code starts with `UNSUPPORTED_`.
pub open spec fn unsupported_count(d: Seq<Diagnostic>) -> nat
    decreases d.len(),
{
    if d.len() == 0 {
        0
    } else {
        unsupported_count(d.drop_last()) + if starts_with(d.last().code@, "UNSUPPORTED_"@) {
            1nat
        } else {
            0nat
        }
    }
}

/// The number of changes of low confidence.
pub open spec fn low_confidence_count(c: Seq<ReviewedChange>) -> nat
    decreases c.len(),
{
    if c.len() == 0 {
        0
    } else {
        low_confidence_count(c.drop_last()) + if c.last().low_confidence {
            1nat
        } else {
            0nat
        }
    }
}

/// The number of diagnostics whose code starts with `UNSUPPORTED_`.
pub fn unsupported_surface_count(diagnostics: &[Diagnostic]) -> (r: usize)
    ensures
        r == unsupported_count(diagnostics@),
{
    let mut n: usize = 0;
    let mut i: usize = 0;
    while i < diagnostics.len()
        invariant
            i <= diagnostics.len(),
            n == unsupported_count(diagnostics@.take(i as int)),
            n <= i,
        decreases diagnostics.len() - i,
    {
        proof {
            assert(diagnostics@.take(i + 1).drop_last() =~= diagnostics@.take(i as int));
        }
        if has_prefix(&diagnostics[i].code, "UNSUPPORTED_") {
            n += 1;
        }
        i += 1;
    }
    proof {
        assert(diagnostics@.take(diagnostics@.len() as int) =~= diagnostics@);
    }
    n
}

fn low_confidence_changes(changes: &[ReviewedChange]) -> (r: usize)
    ensures
        r == low_confidence_count(changes@),
{
    let mut n: usize = 0;
    let mut i: usize = 0;
    while i < changes.len()
        invariant
            i <= changes.len(),
            n == low_confidence_count(changes@.take(i as int)),
            n <= i,
        decreases changes.len() - i,
    {
        proof {
            assert(changes@.take(i + 1).drop_last() =~= changes@.take(i as int));
        }
        if changes[i].low_confidence {
            n += 1;
        }
        i += 1;
    }
    proof {
        assert(changes@.take(changes@.len() as int) =~= changes@);
    }
    n
}

/// The head counts of a review: the changes, the diff's own counts by kind,
/// the diagnostics, the changes of low confidence and the unsupported
/// surfaces met.
pub fn review_summary(changes: &[ReviewedChange], summary: DiffSummary, diagnostics: &[Diagnostic]) -> (r: AiReviewSummary)
    ensures
        r.total_changes == changes@.len(),
        r.inserted == summary.inserted,
        r.deleted == summary.deleted,
        r.modified == summary.modified,
        r.moved == summary.moved,
        r.layout_changed == summary.layout_changed,
        r.diagnostic_count == diagnostics@.len(),
        r.low_confidence_change_count == low_confidence_count(changes@),
        r.unsupported_surface_count == unsupported_count(diagnostics@),
{
    AiReviewSummary {
        total_changes: changes.len(),
        inserted: summary.inserted,
        deleted: summary.deleted,
        modified: summary.modified,
        moved: summary.moved,
        layout_changed: summary.layout_changed,
        diagnostic_count: diagnostics.len(),
        low_confidence_change_count: low_confidence_changes(changes),
        unsupported_surface_count: unsupported_surface_count(diagnostics),
    }
}

/// How many of the diagnostics carry `code`.
pub open spec fn code_count(d: Seq<Diagnostic>, code: Seq<char>) -> nat
    decreases d.len(),
{
    if d.len() == 0 {
        0
    } else {
        code_count(d.drop_last(), code) + if d.last().code@ == code {
            1nat
        } else {
            0nat
        }
    }
}

/// The counts are keyed by strictly increasing codes.
pub open spec fn counts_sorted(c: Seq<AiDiagnosticCount>) -> bool {
    forall|i: int, j: int| 0 <= i < j < c.len() ==> code_lt(#[trigger] c[i].code@, #[trigger] c[j].code@)
}

/// Each count is the positive number of diagnostics that carry its code.
pub open spec fn counts_exact(c: Seq<AiDiagnosticCount>, d: Seq<Diagnostic>) -> bool {
    forall|j: int| 0 <= j < c.len() ==> (#[trigger] c[j]).count == code_count(d, c[j].code@) && c[j].count > 0
}

/// Each diagnostic's code has its count.
pub open spec fn codes_covered(c: Seq<AiDiagnosticCount>, d: Seq<Diagnostic>) -> bool {
    forall|k: int| 0 <= k < d.len() ==> exists|j: int| 0 <= j < c.len() && (#[trigger] c[j]).code@ == (#[trigger] d[k]).code@
}

proof fn lemma_code_count_bounds(d: Seq<Diagnostic>, code: Seq<char>)
    ensures
        code_count(d, code) <= d.len(),
        code_count(d, code) > 0 ==> exists|k: int| 0 <= k < d.len() && (#[trigger] d[k]).code@ == code,
    decreases d.len(),
{
    if d.len() > 0 {
        lemma_code_count_bounds(d.drop_last(), code);
        if code_count(d.drop_last(), code) > 0 {
            let k = choose|k: int| 0 <= k < d.drop_last().len() && (#[trigger] d.drop_last()[k]).code@ == code;
            assert(d[k] == d.drop_last()[k]);
        }
        if d.last().code@ == code {
            assert(d[d.len() - 1].code@ == code);
        }
    }
}

/// The number of diagnostics for each code, one entry per code, ordered by
/// code.
pub fn diagnostic_summary(diagnostics: &[Diagnostic]) -> (r: Vec<AiDiagnosticCount>)
    ensures
        counts_sorted(r@),
        counts_exact(r@, diagnostics@),
        codes_covered(r@, diagnostics@),
{
    let mut counts: Vec<AiDiagnosticCount> = Vec::new();
    let mut i: usize = 0;
    while i < diagnostics.len()
        invariant
            i <= diagnostics.len(),
            counts_sorted(counts@),
            counts_exact(counts@, diagnostics@.take(i as int)),
            codes_covered(counts@, diagnostics@.take(i as int)),
            forall|j: int| 0 <= j < counts@.len() ==> (#[trigger] counts@[j]).count <= i,
        decreases diagnostics.len() - i,
    {
        let code = &diagnostics[i].code;
        let ghost c = code@;
        let ghost pre = diagnostics@.take(i as int);
        let ghost post = diagnostics@.take(i + 1);
        proof {
            assert(post.drop_last() =~= pre);
            assert(post.last() == diagnostics@[i as int]);
            assert forall|x: Seq<char>| #[trigger] code_count(post, x) == code_count(pre, x) + if x == c {
                1nat
            } else {
                0nat
            } by {}
        }
        let mut p: usize = 0;
        while p < counts.len() && code_less(&counts[p].code, code)
            invariant
                p <= counts@.len(),
                c == code@,
                forall|q: int| 0 <= q < p ==> code_lt((#[trigger] counts@[q]).code@, c),
            decreases counts@.len() - p,
        {
            p += 1;
        }
        let ghost old_counts = counts@;
        if p < counts.len() && counts[p].code == *code {
            let updated = AiDiagnosticCount { code: counts[p].code.clone(), count: counts[p].count + 1 };
            counts.set(p, updated);
            proof {
                assert forall|j: int| 0 <= j < counts@.len() && j != p implies (#[trigger] counts@[j]).code@ != c by {
                    lemma_code_order(c, c);
                    if j < p {
                        assert(code_lt(old_counts[j].code@, old_counts[p as int].code@));
                    } else {
                        assert(code_lt(old_counts[p as int].code@, old_counts[j].code@));
                    }
                }
                assert forall|k: int| 0 <= k < post.len() implies exists|j: int|
                    0 <= j < counts@.len() && (#[trigger] counts@[j]).code@ == (#[trigger] post[k]).code@ by {
                    if k < pre.len() {
                        assert(post[k] == pre[k]);
                        let j = choose|j: int| 0 <= j < old_counts.len() && (#[trigger] old_counts[j]).code@ == pre[k].code@;
                        assert(counts@[j].code@ == old_counts[j].code@);
                    } else {
                        assert(counts@[p as int].code@ == post[k].code@);
                    }
                }
            }
        } else {
            proof {
                if p < old_counts.len() {
                    lemma_code_order(old_counts[p as int].code@, c);
                }
                assert forall|j: int| 0 <= j < old_counts.len() implies (#[trigger] old_counts[j]).code@ != c by {
                    lemma_code_order(c, c);
                    if j >= p {
                        lemma_code_trans(c, old_counts[p as int].code@, old_counts[j].code@);
                    }
                }
                lemma_code_count_bounds(pre, c);
                if code_count(pre, c) > 0 {
                    let k = choose|k: int| 0 <= k < pre.len() && (#[trigger] pre[k]).code@ == c;
                    let j = choose|j: int| 0 <= j < old_counts.len() && (#[trigger] old_counts[j]).code@ == pre[k].code@;
                    assert(old_counts[j].code@ == c);
                }
            }
            let entry = AiDiagnosticCount { code: code.clone(), count: 1 };
            counts.insert(p, entry);
            proof {
                assert(counts@ == old_counts.insert(p as int, entry));
                assert forall|a: int, b: int| 0 <= a < b < counts@.len() implies code_lt(
                    (#[trigger] counts@[a]).code@,
                    (#[trigger] counts@[b]).code@,
                ) by {
                    if b < p {
                        assert(counts@[a] == old_counts[a] && counts@[b] == old_counts[b]);
                    } else if b == p {
                        assert(counts@[a] == old_counts[a]);
                    } else if a == p {
                        assert(counts@[b] == old_counts[b - 1]);
                        if b - 1 > p {
                            lemma_code_trans(c, old_counts[p as int].code@, old_counts[b - 1].code@);
                        }
                    } else if a < p {
                        assert(counts@[a] == old_counts[a] && counts@[b] == old_counts[b - 1]);
                    } else {
                        assert(counts@[a] == old_counts[a - 1] && counts@[b] == old_counts[b - 1]);
                    }
                }
                assert forall|j: int| 0 <= j < counts@.len() implies (#[trigger] counts@[j]).count == code_count(
                    post,
                    counts@[j].code@,
                ) && counts@[j].count > 0 && counts@[j].count <= i + 1 by {
                    if j < p {
                        assert(counts@[j] == old_counts[j]);
                    } else if j > p {
                        assert(counts@[j] == old_counts[j - 1]);
                    }
                }
                assert forall|k: int| 0 <= k < post.len() implies exists|j: int|
                    0 <= j < counts@.len() && (#[trigger] counts@[j]).code@ == (#[trigger] post[k]).code@ by {
                    if k < pre.len() {
                        assert(post[k] == pre[k]);
                        let j = choose|j: int| 0 <= j < old_counts.len() && (#[trigger] old_counts[j]).code@ == pre[k].code@;
                        if j < p {
                            assert(counts@[j] == old_counts[j]);
                        } else {
                            assert(counts@[j + 1] == old_counts[j]);
                        }
                    } else {
                        assert(counts@[p as int].code@ == post[k].code@);
                    }
                }
            }
        }
        i += 1;
    }
    proof {
        assert(diagnostics@.take(diagnostics@.len() as int) =~= diagnostics@);
    }
    counts
}

/// The section hint of one node text: its first ten words where it opens a
/// section.
pub open spec fn text_hint(text: Option<String>) -> Option<Seq<char>> {
    match text {
        Some(t) => if opens_section(t@) {
            Some(first_words_spec(trim(t@), 10))
        } else {
            None
        },
        None => None,
    }
}

/// The hint of `text` can be read: where it opens a section, its first ten
/// words do not end inside a character at the length cap.
pub open spec fn text_hint_readable(text: Option<String>) -> bool {
    text matches Some(t) ==> (opens_section(t@) ==> first_words_ok(trim(t@), 10))
}

fn node_hint(text: &Option<String>) -> (r: Option<String>)
    requires
        text_hint_readable(*text),
    ensures
        opt_view(r) == text_hint(*text),
{
    match text {
        Some(t) => section_hint_from_text(t.as_str()),
        None => None,
    }
}

pub open spec fn opt_view(o: Option<String>) -> Option<Seq<char>> {
    match o {
        Some(s) => Some(s@),
        None => None,
    }
}

/// The section hint of a change: that of its new text, else that of its
/// old text.
pub fn section_hint(change: &ReviewedChange) -> (r: Option<String>)
    requires
        text_hint_readable(change.new_text),
        text_hint(change.new_text) is None ==> text_hint_readable(change.old_text),
    ensures
        opt_view(r) == match text_hint(change.new_text) {
            Some(h) => Some(h),
            None => text_hint(change.old_text),
        },
{
    let from_new = node_hint(&change.new_text);
    match from_new {
        Some(h) => Some(h),
        None => node_hint(&change.old_text),
    }
}

} // verus!
