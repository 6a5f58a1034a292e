//! The document: header, revisions, objects, pages and what the parser
//! noticed along the way.
use vstd::prelude::*;
use crate::types::{ObjectId, ByteRange, ParseConfig, ResourceLimits, PdfDiffError, Diagnostic,
    DiagnosticSeverity, DiagView, diag_views, plain_diag, object_warning, invalid_input, limit_error};
use crate::bytes::{is_digit, matches_at, find_from, find_keyword, keyword_count, count_from, skip_ws_from,
    skip_ascii_whitespace_bytes, lemma_skip_ws_bounds, lemma_find_from_props, byte_matches_at, slice_range};
use crate::lexer::{digit_run_end, digits_value, lemma_digit_run_end, digit_run};
use crate::xref::{usize_at, read_usize};
use crate::fmt::{decimal_chars, usize_to_string, concat, concat_spec};
use crate::utf8text::utf8;

verus! {

/// The `%PDF-M.m` version.
#[derive(Debug, Clone, Copy, PartialEq, Eq, Structural)]
pub struct PdfVersion {
    pub major: u8,
    pub minor: u8,
}

/// The version in the header, or why the header was refused.
pub open spec fn header_spec(s: Seq<u8>) -> Result<PdfVersion, crate::object::Failure> {
    if s.len() < 8 {
        Err(crate::object::Failure::Invalid)
    } else if !matches_at(s, 0, utf8("%PDF-")) {
        Err(crate::object::Failure::Unsupported)
    } else if !is_digit(s[5]) || s[6] != 0x2eu8 || !is_digit(s[7]) {
        Err(crate::object::Failure::Invalid)
    } else {
        Ok(PdfVersion { major: (s[5] - 0x30u8) as u8, minor: (s[7] - 0x30u8) as u8 })
    }
}

/// Reads the `%PDF-M.m` header.
pub fn parse_header(bytes: &[u8]) -> (r: Result<PdfVersion, PdfDiffError>)
    ensures
        match header_spec(bytes@) {
            Ok(v) => r == Ok::<PdfVersion, PdfDiffError>(v),
            Err(f) => r matches Err(e) && crate::object::failure_is(f, e),
        },
{
    if bytes.len() < 8 {
        return Err(invalid_input("file is too short for a PDF header"));
    }
    proof {
        reveal_strlit("%PDF-");
        crate::utf8text::lemma_ascii_utf8("%PDF-");
    }
    if !byte_matches_at(bytes, 0, "%PDF-".as_bytes()) {
        return Err(PdfDiffError::UnsupportedPdf("missing %PDF- header".to_owned()));
    }
    let major = bytes[5];
    let minor = bytes[7];
    if !crate::bytes::is_ascii_digit(major) || bytes[6] != 0x2eu8 || !crate::bytes::is_ascii_digit(minor) {
        return Err(invalid_input("malformed PDF version header"));
    }
    Ok(PdfVersion { major: major - 0x30u8, minor: minor - 0x30u8 })
}

/// Offsets written after each `startxref` from `cursor` on, in file order
/// (an unreadable offset is skipped).
pub open spec fn startxref_offsets_spec(s: Seq<u8>, cursor: int, acc: Seq<usize>) -> Seq<usize>
    decreases s.len() - cursor,
{
    match find_from(s, cursor, utf8("startxref")) {
        None => acc,
        Some(m) => if m < cursor || m + 9 > s.len() {
            acc
        } else {
            let next = match usize_at(s, skip_ws_from(s, m + 9)) {
                Some((v, _)) => acc.push(v as usize),
                None => acc,
            };
            startxref_offsets_spec(s, m + 9, next)
        },
    }
}

pub fn startxref_offsets(bytes: &[u8]) -> (r: Vec<usize>)
    ensures
        r@ == startxref_offsets_spec(bytes@, 0, Seq::empty()),
{
    proof {
        reveal_strlit("startxref");
        crate::utf8text::lemma_ascii_utf8("startxref");
    }
    let kw = "startxref".as_bytes();
    let mut offsets: Vec<usize> = Vec::new();
    let mut cursor: usize = 0;
    loop
        invariant
            cursor <= bytes.len(),
            kw@ == utf8("startxref"),
            utf8("startxref").len() == 9,
            startxref_offsets_spec(bytes@, 0, Seq::empty()) == startxref_offsets_spec(bytes@, cursor as int, offsets@),
        decreases bytes.len() - cursor,
    {
        proof {
            lemma_find_from_props(bytes@, cursor as int, utf8("startxref"));
        }
        let marker = match find_keyword(bytes, cursor, kw) {
            Some(m) => m,
            None => return offsets,
        };
        let j = skip_ascii_whitespace_bytes(bytes, marker + 9);
        proof {
            lemma_skip_ws_bounds(bytes@, marker + 9);
        }
        if let Ok((offset, _)) = read_usize(bytes, j) {
            offsets.push(offset);
        }
        cursor = marker + 9;
    }
}

/// Values written after each `/Prev` from `cursor` on (a value that does
/// not fit in `usize` is skipped).
pub open spec fn prev_offsets_spec(s: Seq<u8>, cursor: int, acc: Seq<usize>) -> Seq<usize>
    decreases s.len() - cursor,
{
    match find_from(s, cursor, utf8("/Prev")) {
        None => acc,
        Some(m) => if m < cursor || m + 5 > s.len() {
            acc
        } else {
            let a = skip_ws_from(s, m + 5);
            let e = digit_run_end(s, a);
            if a < m + 5 || e < a || e > s.len() {
                acc
            } else {
                let next = if e > a && digits_value(s.subrange(a, e)) <= usize::MAX {
                    acc.push(digits_value(s.subrange(a, e)) as usize)
                } else {
                    acc
                };
                prev_offsets_spec(s, e, next)
            }
        },
    }
}

pub fn trailer_prev_offsets(bytes: &[u8]) -> (r: Vec<usize>)
    ensures
        r@ == prev_offsets_spec(bytes@, 0, Seq::empty()),
{
    proof {
        reveal_strlit("/Prev");
        crate::utf8text::lemma_ascii_utf8("/Prev");
    }
    let kw = "/Prev".as_bytes();
    let mut offsets: Vec<usize> = Vec::new();
    let mut cursor: usize = 0;
    loop
        invariant
            cursor <= bytes.len(),
            kw@ == utf8("/Prev"),
            utf8("/Prev").len() == 5,
            prev_offsets_spec(bytes@, 0, Seq::empty()) == prev_offsets_spec(bytes@, cursor as int, offsets@),
        decreases bytes.len() - cursor,
    {
        proof {
            lemma_find_from_props(bytes@, cursor as int, utf8("/Prev"));
        }
        let marker = match find_keyword(bytes, cursor, kw) {
            Some(m) => m,
            None => return offsets,
        };
        let a = skip_ascii_whitespace_bytes(bytes, marker + 5);
        proof {
            lemma_skip_ws_bounds(bytes@, marker + 5);
            lemma_digit_run_end(bytes@, a as int);
        }
        let e = digit_run(bytes, a);
        if e > a {
            if let Ok((v, _)) = read_usize(bytes, a) {
                offsets.push(v);
            }
        }
        cursor = e;
    }
}

/// What a file reveals about incremental updates.
#[derive(Debug, Clone, PartialEq, Eq)]
pub struct IncrementalUpdateInfo {
    pub revision_count: usize,
    pub selected_startxref_offset: Option<usize>,
    pub prior_startxref_offsets: Vec<usize>,
    pub trailer_prev_offsets: Vec<usize>,
}

pub struct UpdateView {
    pub revision_count: int,
    pub selected: Option<usize>,
    pub prior: Seq<usize>,
    pub prev: Seq<usize>,
}

impl IncrementalUpdateInfo {
    pub open spec fn view(self) -> UpdateView {
        UpdateView {
            revision_count: self.revision_count as int,
            selected: self.selected_startxref_offset,
            prior: self.prior_startxref_offsets@,
            prev: self.trailer_prev_offsets@,
        }
    }
}

pub open spec fn opt_update(i: Option<IncrementalUpdateInfo>) -> Option<UpdateView> {
    match i {
        Some(x) => Some(x.view()),
        None => None,
    }
}

/// Incremental-update metadata: present when the file has more than one
/// `startxref` or a `/Prev` trailer entry. The latest `startxref` is the
/// selected revision; the earlier ones are prior revisions.
pub open spec fn incremental_spec(s: Seq<u8>) -> Option<UpdateView> {
    let count = count_from(s, 0, utf8("startxref"));
    let offsets = startxref_offsets_spec(s, 0, Seq::empty());
    let prev = prev_offsets_spec(s, 0, Seq::empty());
    if count <= 1 && prev.len() == 0 {
        None
    } else {
        Some(
            UpdateView {
                revision_count: count as int,
                selected: if offsets.len() > 0 { Some(offsets.last()) } else { None },
                prior: if offsets.len() > 0 { offsets.drop_last() } else { offsets },
                prev,
            },
        )
    }
}

pub fn incremental_update_info(bytes: &[u8]) -> (r: Option<IncrementalUpdateInfo>)
    ensures
        opt_update(r) == incremental_spec(bytes@),
{
    proof {
        reveal_strlit("startxref");
        crate::utf8text::lemma_ascii_utf8("startxref");
    }
    let revision_count = keyword_count(bytes, "startxref".as_bytes());
    let offsets = startxref_offsets(bytes);
    let prev = trailer_prev_offsets(bytes);
    if revision_count <= 1 && prev.len() == 0 {
        return None;
    }
    let n = offsets.len();
    let selected = if n > 0 { Some(offsets[n - 1]) } else { None };
    let prior = if n > 0 { slice_usize(&offsets, n - 1) } else { slice_usize(&offsets, 0) };
    proof {
        if n > 0 {
            assert(prior@ =~= offsets@.drop_last());
        } else {
            assert(prior@ =~= offsets@);
        }
    }
    Some(IncrementalUpdateInfo {
        revision_count,
        selected_startxref_offset: selected,
        prior_startxref_offsets: prior,
        trailer_prev_offsets: prev,
    })
}

fn slice_usize(v: &Vec<usize>, end: usize) -> (r: Vec<usize>)
    requires
        end <= v.len(),
    ensures
        r@ == v@.take(end as int),
{
    let mut out: Vec<usize> = Vec::new();
    let mut i: usize = 0;
    while i < end
        invariant
            i <= end <= v.len(),
            out@ == v@.take(i as int),
        decreases end - i,
    {
        out.push(v[i]);
        proof {
            assert(v@.take(i + 1) =~= v@.take(i as int).push(v@[i as int]));
        }
        i += 1;
    }
    out
}

/// The diagnostics that incremental-update metadata calls for.
pub open spec fn incremental_diags(info: Option<UpdateView>) -> Seq<DiagView> {
    match info {
        None => Seq::empty(),
        Some(i) => {
            let first = if i.revision_count > 1 {
                seq![
                    plain_diag(
                        DiagnosticSeverity::Info,
                        "INCREMENTAL_UPDATE_DETECTED"@,
                        "PDF contains "@ + decimal_chars(i.revision_count as nat)
                            + " startxref sections; the latest revision was selected"@,
                    ),
                ]
            } else {
                Seq::empty()
            };
            if i.prev.len() > 0 {
                first.push(
                    plain_diag(
                        DiagnosticSeverity::Info,
                        "PRIOR_REVISION_PRESENT"@,
                        "xref trailer contains /Prev; prior revision offsets are exposed in parser metadata"@,
                    ),
                )
            } else {
                first
            }
        },
    }
}

fn append_incremental_update_diagnostics(info: &Option<IncrementalUpdateInfo>, diagnostics: &mut Vec<Diagnostic>)
    ensures
        diag_views(final(diagnostics)@) == diag_views(old(diagnostics)@) + incremental_diags(opt_update(*info)),
{
    let ghost before = diag_views(diagnostics@);
    let info = match info {
        Some(i) => i,
        None => {
            proof {
                assert(before + Seq::<DiagView>::empty() =~= before);
            }
            return;
        },
    };
    let ghost after_first = if info.revision_count > 1 {
        before + seq![
            plain_diag(
                DiagnosticSeverity::Info,
                "INCREMENTAL_UPDATE_DETECTED"@,
                "PDF contains "@ + decimal_chars(info.revision_count as nat)
                    + " startxref sections; the latest revision was selected"@,
            ),
        ]
    } else {
        before
    };
    if info.revision_count > 1 {
        let n = usize_to_string(info.revision_count);
        let msg = concat(&["PDF contains ", n.as_str(), " startxref sections; the latest revision was selected"]);
        let d = Diagnostic::info("INCREMENTAL_UPDATE_DETECTED", msg.as_str());
        diagnostics.push(d);
        proof {
            reveal_with_fuel(concat_spec, 4);
            assert(diag_views(diagnostics@) =~= after_first);
        }
    } else {
        proof {
            assert(diag_views(diagnostics@) =~= after_first);
        }
    }
    if info.trailer_prev_offsets.len() > 0 {
        let d = Diagnostic::info(
            "PRIOR_REVISION_PRESENT",
            "xref trailer contains /Prev; prior revision offsets are exposed in parser metadata",
        );
        diagnostics.push(d);
        proof {
            assert(diag_views(diagnostics@) =~= before + incremental_diags(opt_update(Some(*info))));
        }
    } else {
        proof {
            assert(diag_views(diagnostics@) =~= before + incremental_diags(opt_update(Some(*info))));
        }
    }
}

/// `/name` for each filter, separated by single spaces.
pub open spec fn chain_text(fs: Seq<Seq<char>>) -> Seq<char>
    decreases fs.len(),
{
    if fs.len() == 0 {
        Seq::empty()
    } else if fs.len() == 1 {
        "/"@ + fs[0]
    } else {
        chain_text(fs.drop_last()) + " /"@ + fs.last()
    }
}

/// The filters of a chain that this library does not decode.
pub open spec fn unsupported_names(fs: Seq<Seq<char>>) -> Seq<Seq<char>>
    decreases fs.len(),
{
    if fs.len() == 0 {
        Seq::empty()
    } else {
        let rest = unsupported_names(fs.drop_last());
        if crate::stream::filter_kind(fs.last()) is None {
            rest.push(fs.last())
        } else {
            rest
        }
    }
}

/// What is worth reporting about one stream.
pub open spec fn stream_diags(id: ObjectId, st: crate::object::StreamView) -> Seq<DiagView> {
    let length = match st.declared_length {
        Some(d) => {
            let actual = st.raw.len() as int;
            let missing = if d > actual { d - actual } else { 0 };
            if actual > d || missing > 2 {
                seq![
                    object_warning(
                        "STREAM_LENGTH_MISMATCH"@,
                        "stream declared "@ + decimal_chars(d as nat) + " bytes but contains "@ + decimal_chars(
                            actual as nat,
                        ) + " bytes"@,
                        id,
                    ),
                ]
            } else {
                Seq::empty()
            }
        },
        None => Seq::empty(),
    };
    let unsupported = unsupported_names(st.filters);
    let filters = if unsupported.len() > 0 {
        seq![
            object_warning(
                "UNSUPPORTED_STREAM_FILTER"@,
                "unsupported stream filter chain "@ + chain_text(unsupported) + "; raw bytes were preserved"@,
                id,
            ),
        ]
    } else if !st.decoded && st.filters.len() > 0 {
        seq![
            object_warning(
                "STREAM_DECODE_FAILED"@,
                "stream filter chain "@ + chain_text(st.filters) + " could not be decoded; raw bytes were preserved"@,
                id,
            ),
        ]
    } else {
        Seq::empty()
    };
    let params = if st.params.len() > st.filters.len() {
        seq![
            object_warning(
                "STREAM_DECODE_PARAMS_MISMATCH"@,
                "stream has "@ + decimal_chars(st.params.len()) + " DecodeParms entries for "@ + decimal_chars(
                    st.filters.len(),
                ) + " filters"@,
                id,
            ),
        ]
    } else {
        Seq::empty()
    };
    length + filters + params
}

/// What is worth reporting about the streams of the objects.
pub open spec fn unsupported_diags(rs: Seq<crate::scan::ObjectRecord>) -> Seq<DiagView>
    decreases rs.len(),
{
    if rs.len() == 0 {
        Seq::empty()
    } else {
        unsupported_diags(rs.drop_last()) + match rs.last().stream {
            Some(st) => stream_diags(rs.last().id, st),
            None => Seq::empty(),
        }
    }
}

/// `/name` for each of `names`, separated by single spaces.
fn chain_string(names: &Vec<String>) -> (s: String)
    ensures
        s@ == chain_text(crate::signature::texts(names@)),
{
    let ghost t = crate::signature::texts(names@);
    let mut out = String::new();
    let mut i: usize = 0;
    while i < names.len()
        invariant
            i <= names.len(),
            t == crate::signature::texts(names@),
            out@ == chain_text(t.take(i as int)),
        decreases names.len() - i,
    {
        if i == 0 {
            out.append("/");
        } else {
            out.append(" /");
        }
        out.append(names[i].as_str());
        proof {
            assert(t.take(i + 1).drop_last() =~= t.take(i as int));
            assert(t.take(i + 1).last() == names@[i as int]@);
            if i == 0 {
                assert(t.take(1)[0] == names@[0]@);
            }
        }
        i += 1;
    }
    proof {
        assert(t.take(names.len() as int) =~= t);
    }
    out
}

fn unsupported_filters(filters: &Vec<String>) -> (r: Vec<String>)
    ensures
        crate::signature::texts(r@) == unsupported_names(crate::signature::texts(filters@)),
{
    let ghost t = crate::signature::texts(filters@);
    let mut out: Vec<String> = Vec::new();
    let mut i: usize = 0;
    while i < filters.len()
        invariant
            i <= filters.len(),
            t == crate::signature::texts(filters@),
            crate::signature::texts(out@) == unsupported_names(t.take(i as int)),
        decreases filters.len() - i,
    {
        proof {
            assert(t.take(i + 1).drop_last() =~= t.take(i as int));
            assert(t.take(i + 1).last() == filters@[i as int]@);
        }
        if !crate::stream::is_supported_stream_filter(&filters[i]) {
            let name = filters[i].as_str().to_owned();
            let ghost before = crate::signature::texts(out@);
            out.push(name);
            proof {
                assert(crate::signature::texts(out@) =~= before.push(name@));
            }
        }
        i += 1;
    }
    proof {
        assert(t.take(filters.len() as int) =~= t);
    }
    out
}

fn push_warning(diagnostics: &mut Vec<Diagnostic>, code: &str, message: &str, id: ObjectId)
    ensures
        diag_views(final(diagnostics)@) == diag_views(old(diagnostics)@).push(object_warning(code@, message@, id)),
{
    let ghost before = diag_views(diagnostics@);
    let d = Diagnostic::warning(code, message).with_object(id);
    diagnostics.push(d);
    proof {
        assert(diag_views(diagnostics@) =~= before.push(d.view()));
    }
}

fn append_stream_diagnostics(id: ObjectId, stream: &crate::stream::PdfStream, diagnostics: &mut Vec<Diagnostic>)
    ensures
        diag_views(final(diagnostics)@) == diag_views(old(diagnostics)@) + stream_diags(
            id,
            crate::object::stream_view(*stream),
        ),
{
    let ghost st = crate::object::stream_view(*stream);
    let ghost d0 = diag_views(diagnostics@);
    proof {
        reveal_with_fuel(concat_spec, 6);
    }
    if let Some(declared) = stream.declared_length {
        let actual = stream.raw_bytes.len();
        let missing = if declared > actual { declared - actual } else { 0 };
        if actual > declared || missing > 2 {
            let a = usize_to_string(declared);
            let b = usize_to_string(actual);
            let msg = concat(&["stream declared ", a.as_str(), " bytes but contains ", b.as_str(), " bytes"]);
            push_warning(diagnostics, "STREAM_LENGTH_MISMATCH", msg.as_str(), id);
        }
    }
    let ghost d1 = diag_views(diagnostics@);
    assert(d1 =~= d0 + (match st.declared_length {
        Some(d) => {
            let actual = st.raw.len() as int;
            let missing = if d > actual { d - actual } else { 0 };
            if actual > d || missing > 2 {
                seq![
                    object_warning(
                        "STREAM_LENGTH_MISMATCH"@,
                        "stream declared "@ + decimal_chars(d as nat) + " bytes but contains "@ + decimal_chars(
                            actual as nat,
                        ) + " bytes"@,
                        id,
                    ),
                ]
            } else {
                Seq::empty()
            }
        },
        None => Seq::empty(),
    }));
    let unsupported = unsupported_filters(&stream.filters);
    if unsupported.len() > 0 {
        let chain = chain_string(&unsupported);
        let msg = concat(&["unsupported stream filter chain ", chain.as_str(), "; raw bytes were preserved"]);
        push_warning(diagnostics, "UNSUPPORTED_STREAM_FILTER", msg.as_str(), id);
    } else if !stream.decoded && stream.filters.len() > 0 {
        let chain = chain_string(&stream.filters);
        let msg = concat(&["stream filter chain ", chain.as_str(), " could not be decoded; raw bytes were preserved"]);
        push_warning(diagnostics, "STREAM_DECODE_FAILED", msg.as_str(), id);
    }
    let ghost d2 = diag_views(diagnostics@);
    if stream.decode_params.len() > stream.filters.len() {
        let a = usize_to_string(stream.decode_params.len());
        let b = usize_to_string(stream.filters.len());
        let msg = concat(&["stream has ", a.as_str(), " DecodeParms entries for ", b.as_str(), " filters"]);
        push_warning(diagnostics, "STREAM_DECODE_PARAMS_MISMATCH", msg.as_str(), id);
    }
    proof {
        assert(diag_views(diagnostics@) =~= d0 + stream_diags(id, st));
    }
}

/// Reports stream length mismatches, unsupported or failed filter chains
/// and surplus decode parameters.
pub fn scan_unsupported_features(objects: &Vec<crate::scan::PdfObject>) -> (r: Vec<Diagnostic>)
    ensures
        diag_views(r@) == unsupported_diags(crate::scan::records(objects@)),
{
    let ghost rs = crate::scan::records(objects@);
    let mut diagnostics: Vec<Diagnostic> = Vec::new();
    proof {
        assert(diag_views(diagnostics@) =~= unsupported_diags(rs.take(0)));
    }
    let mut i: usize = 0;
    while i < objects.len()
        invariant
            i <= objects.len(),
            rs == crate::scan::records(objects@),
            diag_views(diagnostics@) == unsupported_diags(rs.take(i as int)),
        decreases objects.len() - i,
    {
        proof {
            assert(rs.take(i + 1).drop_last() =~= rs.take(i as int));
            assert(rs.take(i + 1).last() == objects@[i as int].view());
        }
        let ghost before = diag_views(diagnostics@);
        match &objects[i].stream {
            Some(stream) => {
                append_stream_diagnostics(objects[i].id, stream, &mut diagnostics);
            },
            None => {
                proof {
                    assert(before + Seq::<DiagView>::empty() =~= before);
                }
            },
        }
        i += 1;
    }
    proof {
        assert(rs.take(objects.len() as int) =~= rs);
    }
    diagnostics
}

/// A parsed PDF document.
#[derive(Debug, Clone, PartialEq, Eq)]
pub struct PdfDocument {
    pub version: PdfVersion,
    pub objects: Vec<crate::scan::PdfObject>,
    pub pages: Vec<crate::pages::PdfPage>,
    pub diagnostics: Vec<Diagnostic>,
    pub incremental_update: Option<IncrementalUpdateInfo>,
}

/// Model of a document.
pub struct DocView {
    pub version: PdfVersion,
    pub objects: Seq<crate::scan::ObjectRecord>,
    pub pages: Seq<crate::pages::PageView>,
    pub diags: Seq<DiagView>,
    pub update: Option<UpdateView>,
}

/// The file shows cross-reference data (`startxref` or `xref`).
pub open spec fn has_xref_surface_spec(s: Seq<u8>) -> bool {
    count_from(s, 0, utf8("startxref")) > 0 || count_from(s, 0, utf8("xref")) > 0
}

pub fn has_xref_surface(bytes: &[u8]) -> (r: bool)
    ensures
        r == has_xref_surface_spec(bytes@),
{
    proof {
        reveal_strlit("startxref");
        reveal_strlit("xref");
        crate::utf8text::lemma_ascii_utf8("startxref");
        crate::utf8text::lemma_ascii_utf8("xref");
    }
    keyword_count(bytes, "startxref".as_bytes()) > 0 || keyword_count(bytes, "xref".as_bytes()) > 0
}

/// The warning that records recovery by scanning. Its message names the
/// cross-reference failure in words that no contract fixes.
pub open spec fn recovery_diag() -> DiagView {
    plain_diag(DiagnosticSeverity::Warning, "XREF_RECOVERY_USED"@, Seq::empty())
}

/// `actual` are the diagnostics `expected`, except that an expected
/// diagnostic with an empty message leaves the actual message free.
pub open spec fn diags_agree(actual: Seq<DiagView>, expected: Seq<DiagView>) -> bool {
    &&& actual.len() == expected.len()
    &&& forall|i: int| 0 <= i < actual.len() ==> diag_agrees(#[trigger] actual[i], expected[i])
}

pub open spec fn diag_agrees(a: DiagView, b: DiagView) -> bool {
    a == b || (b.message.len() == 0 && a.code == b.code && a.severity == b.severity && a.object == b.object
        && a.page_index == b.page_index)
}

/// The objects of a document: every object the cross-reference data lists,
/// or, when that fails, every object found by scanning; and whether
/// scanning was used.
#[verifier::opaque]
pub open spec fn document_objects_spec(s: Seq<u8>, limits: ResourceLimits) -> Result<(Seq<crate::scan::ObjectRecord>, bool), crate::object::Failure> {
    match crate::store::object_store_spec(s, limits) {
        Ok((_, _, _, objs)) => Ok((objs.map_values(|o: crate::object::ObjectView| crate::scan::record_of(o)), false)),
        Err(_) => match crate::scan::scan_objects_spec(s, 0, Seq::empty(), limits) {
            Err(f) => Err(f),
            Ok(found) => Ok((crate::scan::sort_records(found), true)),
        },
    }
}

/// What parsing a file yields.
#[verifier::opaque]
pub open spec fn document_spec(s: Seq<u8>, limits: ResourceLimits) -> Result<DocView, crate::object::Failure> {
    if s.len() > limits.max_file_bytes {
        Err(crate::object::Failure::FileSize)
    } else {
        match header_spec(s) {
            Err(f) => Err(f),
            Ok(version) => if count_from(s, 0, utf8("/Encrypt")) > 0 {
                Err(crate::object::Failure::Encrypted)
            } else {
                let update = incremental_spec(s);
                let d0 = incremental_diags(update);
                match document_objects_spec(s, limits) {
                    Err(f) => Err(f),
                    Ok((objects, recovered)) => {
                        let d1 = if recovered && has_xref_surface_spec(s) {
                            d0.push(recovery_diag())
                        } else {
                            d0
                        };
                        if objects.len() > limits.max_objects {
                            Err(crate::object::Failure::Limit("RESOURCE_LIMIT_OBJECT_COUNT"@))
                        } else {
                            let d2 = d1 + unsupported_diags(objects);
                            match crate::pages::resolve_pages_spec(objects, limits, Seq::empty()) {
                                Err(f) => Err(f),
                                Ok(st) => Ok(
                                    DocView { version, objects, pages: st.pages, diags: d2 + st.diags, update },
                                ),
                            }
                        }
                    },
                }
            },
        }
    }
}

proof fn lemma_agree_append(a: Seq<DiagView>, b: Seq<DiagView>, c: Seq<DiagView>)
    requires
        diags_agree(a, b),
    ensures
        diags_agree(a + c, b + c),
{
    assert forall|i: int| 0 <= i < (a + c).len() implies diag_agrees(#[trigger] (a + c)[i], (b + c)[i]) by {
        if i < a.len() {
            assert((a + c)[i] == a[i]);
            assert((b + c)[i] == b[i]);
        } else {
            assert((a + c)[i] == c[i - a.len()]);
            assert((b + c)[i] == c[i - b.len()]);
        }
    }
}

/// Reads the objects of a document; records the recovery when scanning was
/// used on a file with cross-reference data.
fn document_objects(bytes: &[u8], config: ParseConfig, diagnostics: &mut Vec<Diagnostic>) -> (r: Result<Vec<crate::scan::PdfObject>, PdfDiffError>)
    requires
        bytes@.len() <= config.limits.max_file_bytes,
    ensures
        match document_objects_spec(bytes@, config.limits) {
            Ok((objects, recovered)) => r matches Ok(v) && crate::scan::records(v@) == objects && diags_agree(
                diag_views(final(diagnostics)@),
                if recovered && has_xref_surface_spec(bytes@) {
                    diag_views(old(diagnostics)@).push(recovery_diag())
                } else {
                    diag_views(old(diagnostics)@)
                },
            ),
            Err(f) => r matches Err(e) && crate::object::failure_is(f, e),
        },
{
    proof {
        reveal(document_objects_spec);
    }
    let ghost before = diag_views(diagnostics@);
    match crate::store::parse_object_store(bytes, config) {
        Ok(store) => {
            let objects = crate::scan::pdf_objects_from_object_store(store.objects);
            proof {
                assert forall|i: int| 0 <= i < diag_views(diagnostics@).len() implies diag_agrees(
                    #[trigger] diag_views(diagnostics@)[i],
                    before[i],
                ) by {}
            }
            Ok(objects)
        },
        Err(error) => {
            if has_xref_surface(bytes) {
                let shown = error.to_display_string();
                let message = concat(&[
                    "xref/object-store parsing failed (",
                    shown.as_str(),
                    "); recovered by scanning indirect objects",
                ]);
                let d = Diagnostic::warning("XREF_RECOVERY_USED", message.as_str());
                diagnostics.push(d);
                proof {
                    assert(diag_views(diagnostics@) =~= before.push(d.view()));
                    let exp = before.push(recovery_diag());
                    assert forall|i: int| 0 <= i < diag_views(diagnostics@).len() implies diag_agrees(
                        #[trigger] diag_views(diagnostics@)[i],
                        exp[i],
                    ) by {
                        if i < before.len() {
                            assert(diag_views(diagnostics@)[i] == before[i]);
                        }
                    }
                }
            }
            crate::scan::parse_indirect_objects(bytes, config)
        },
    }
}

impl PdfDocument {
    /// The document agrees with the model `v`.
    pub open spec fn agrees(self, v: DocView) -> bool {
        &&& self.version == v.version
        &&& crate::scan::records(self.objects@) == v.objects
        &&& crate::pages::page_views(self.pages@) == v.pages
        &&& diags_agree(diag_views(self.diagnostics@), v.diags)
        &&& opt_update(self.incremental_update) == v.update
    }

    /// Parses a file with the default limits.
    pub fn parse(bytes: &[u8]) -> (r: Result<Self, PdfDiffError>)
        ensures
            match document_spec(bytes@, ResourceLimits::default_spec()) {
                Ok(v) => r matches Ok(d) && d.agrees(v),
                Err(f) => r matches Err(e) && crate::object::failure_is(f, e),
            },
    {
        Self::parse_with_config(bytes, ParseConfig::default())
    }

    /// Parses a file: header, revisions, objects (recovering by scanning
    /// when the cross-reference data fails), stream checks and pages.
    pub fn parse_with_config(bytes: &[u8], config: ParseConfig) -> (r: Result<Self, PdfDiffError>)
        ensures
            match document_spec(bytes@, config.limits) {
                Ok(v) => r matches Ok(d) && d.agrees(v),
                Err(f) => r matches Err(e) && crate::object::failure_is(f, e),
            },
            bytes@.len() > config.limits.max_file_bytes ==> (r matches Err(e) && e is ResourceLimitExceeded),
    {
        proof {
            reveal(document_spec);
        }
        config.limits.check_file_size(bytes.len())?;
        let version = parse_header(bytes)?;
        proof {
            reveal_strlit("/Encrypt");
            crate::utf8text::lemma_ascii_utf8("/Encrypt");
        }
        if keyword_count(bytes, "/Encrypt".as_bytes()) > 0 {
            let message = "UNSUPPORTED_ENCRYPTION: encrypted or protected PDF is not supported".to_owned();
            proof {
                reveal_strlit("UNSUPPORTED_ENCRYPTION: encrypted or protected PDF is not supported");
                reveal_strlit("UNSUPPORTED_ENCRYPTION");
                assert("UNSUPPORTED_ENCRYPTION"@.is_prefix_of(message@));
            }
            return Err(PdfDiffError::UnsupportedPdf(message));
        }
        let incremental_update = incremental_update_info(bytes);
        let mut diagnostics: Vec<Diagnostic> = Vec::new();
        append_incremental_update_diagnostics(&incremental_update, &mut diagnostics);
        proof {
            assert(diag_views(Seq::<Diagnostic>::empty()) =~= Seq::<DiagView>::empty());
            assert(diag_views(diagnostics@) =~= incremental_diags(opt_update(incremental_update)));
        }
        let objects = document_objects(bytes, config, &mut diagnostics)?;
        if objects.len() > config.limits.max_objects {
            let a = usize_to_string(objects.len());
            let b = usize_to_string(config.limits.max_objects);
            let detail = concat(&["file has ", a.as_str(), " indirect objects, limit is ", b.as_str()]);
            return Err(limit_error("RESOURCE_LIMIT_OBJECT_COUNT", detail.as_str()));
        }
        let ghost d1 = diag_views(diagnostics@);
        let mut unsupported = scan_unsupported_features(&objects);
        let ghost du = diag_views(unsupported@);
        diagnostics.append(&mut unsupported);
        proof {
            assert(diag_views(diagnostics@) =~= d1 + du);
        }
        let mut page_diagnostics: Vec<Diagnostic> = Vec::new();
        proof {
            assert(diag_views(page_diagnostics@) =~= Seq::<DiagView>::empty());
        }
        let pages = crate::pages::resolve_pages(&objects, config.limits, &mut page_diagnostics)?;
        let ghost d2 = diag_views(diagnostics@);
        let ghost dp = diag_views(page_diagnostics@);
        diagnostics.append(&mut page_diagnostics);
        proof {
            assert(diag_views(diagnostics@) =~= d2 + dp);
            let ds = document_objects_spec(bytes@, config.limits);
            let objs = ds->Ok_0.0;
            let recovered = ds->Ok_0.1;
            let e1 = if recovered && has_xref_surface_spec(bytes@) {
                incremental_diags(opt_update(incremental_update)).push(recovery_diag())
            } else {
                incremental_diags(opt_update(incremental_update))
            };
            lemma_agree_append(d1, e1, du);
            assert((e1 + du) + dp =~= e1 + du + dp);
            lemma_agree_append(d2, e1 + du, dp);
        }
        Ok(PdfDocument { version, objects, pages, diagnostics, incremental_update })
    }
}

/// One content stream of a page.
#[derive(Debug, Clone, Copy, PartialEq, Eq)]
pub struct PageContent<'a> {
    pub page_index: usize,
    pub page_object_id: ObjectId,
    pub stream_object_id: ObjectId,
    pub bytes: &'a [u8],
    pub byte_range: ByteRange,
}

pub struct ContentView {
    pub page_index: usize,
    pub page_object_id: ObjectId,
    pub stream_object_id: ObjectId,
    pub bytes: Seq<u8>,
    pub start: int,
    pub end: int,
}

impl<'a> PageContent<'a> {
    pub open spec fn view(self) -> ContentView {
        ContentView {
            page_index: self.page_index,
            page_object_id: self.page_object_id,
            stream_object_id: self.stream_object_id,
            bytes: self.bytes@,
            start: self.byte_range.start as int,
            end: self.byte_range.end as int,
        }
    }
}

pub open spec fn content_views<'a>(s: Seq<PageContent<'a>>) -> Seq<ContentView> {
    s.map_values(|c: PageContent<'a>| c.view())
}

/// Index of the first object with id `id`.
pub open spec fn first_record(objs: Seq<crate::scan::ObjectRecord>, id: ObjectId, from: int) -> Option<int>
    decreases objs.len() - from,
{
    if from < 0 || from >= objs.len() {
        None
    } else if objs[from].id == id {
        Some(from)
    } else {
        first_record(objs, id, from + 1)
    }
}

proof fn lemma_first_record(objs: Seq<crate::scan::ObjectRecord>, id: ObjectId, from: int)
    requires
        0 <= from,
    ensures
        first_record(objs, id, from) matches Some(i) ==> from <= i < objs.len() && objs[i].id == id,
    decreases objs.len() - from,
{
    if from < objs.len() && objs[from].id != id {
        lemma_first_record(objs, id, from + 1);
    }
}

/// The content of `page` from its `k`-th content reference: the first
/// object with that id, when it has a stream.
pub open spec fn content_at(objs: Seq<crate::scan::ObjectRecord>, page: crate::pages::PageView, k: int) -> Option<ContentView> {
    match first_record(objs, page.content_object_ids[k], 0) {
        Some(i) => match objs[i].stream {
            Some(st) => Some(
                ContentView {
                    page_index: page.page_index,
                    page_object_id: page.object_id,
                    stream_object_id: objs[i].id,
                    bytes: st.bytes,
                    start: st.start,
                    end: st.end,
                },
            ),
            None => None,
        },
        None => None,
    }
}

/// The contents of `page` from its first `m` content references, in order.
pub open spec fn page_contents_spec(objs: Seq<crate::scan::ObjectRecord>, page: crate::pages::PageView, m: int) -> Seq<ContentView>
    decreases m,
{
    if m <= 0 {
        Seq::empty()
    } else {
        let prev = page_contents_spec(objs, page, m - 1);
        match content_at(objs, page, m - 1) {
            Some(c) => prev.push(c),
            None => prev,
        }
    }
}

/// The contents of the first `m` pages, page by page.
pub open spec fn all_contents_spec(objs: Seq<crate::scan::ObjectRecord>, pages: Seq<crate::pages::PageView>, m: int) -> Seq<ContentView>
    decreases m,
{
    if m <= 0 {
        Seq::empty()
    } else {
        all_contents_spec(objs, pages, m - 1) + page_contents_spec(
            objs,
            pages[m - 1],
            pages[m - 1].content_object_ids.len() as int,
        )
    }
}

impl PdfDocument {
    fn first_object_index(&self, id: ObjectId) -> (r: Option<usize>)
        ensures
            r is Some <==> first_record(crate::scan::records(self.objects@), id, 0) is Some,
            r matches Some(i) ==> i < self.objects.len() && first_record(crate::scan::records(self.objects@), id, 0)
                == Some(i as int),
    {
        let ghost objs = crate::scan::records(self.objects@);
        proof {
            lemma_first_record(objs, id, 0);
        }
        let mut i: usize = 0;
        while i < self.objects.len()
            invariant
                i <= self.objects.len(),
                objs == crate::scan::records(self.objects@),
                first_record(objs, id, 0) == first_record(objs, id, i as int),
            decreases self.objects.len() - i,
        {
            assert(objs[i as int].id == self.objects@[i as int].id);
            if self.objects[i].id == id {
                return Some(i);
            }
            i += 1;
        }
        None
    }

    fn contents_for_page(&self, page: &crate::pages::PdfPage) -> (r: Vec<PageContent<'_>>)
        ensures
            content_views(r@) == page_contents_spec(
                crate::scan::records(self.objects@),
                page.view(),
                page.content_object_ids@.len() as int,
            ),
    {
        let ghost objs = crate::scan::records(self.objects@);
        let mut out: Vec<PageContent<'_>> = Vec::new();
        proof {
            assert(content_views(out@) =~= Seq::<ContentView>::empty());
        }
        let mut k: usize = 0;
        while k < page.content_object_ids.len()
            invariant
                k <= page.content_object_ids.len(),
                objs == crate::scan::records(self.objects@),
                content_views(out@) == page_contents_spec(objs, page.view(), k as int),
            decreases page.content_object_ids.len() - k,
        {
            let id = page.content_object_ids[k];
            if let Some(i) = self.first_object_index(id) {
                let object = &self.objects[i];
                assert(objs[i as int] == object.view());
                if let Some(stream) = &object.stream {
                    let content = PageContent {
                        page_index: page.page_index,
                        page_object_id: page.object_id,
                        stream_object_id: object.id,
                        bytes: stream.bytes.as_slice(),
                        byte_range: stream.byte_range,
                    };
                    let ghost before = content_views(out@);
                    out.push(content);
                    proof {
                        assert(content_views(out@) =~= before.push(content.view()));
                    }
                }
            }
            k += 1;
        }
        out
    }

    /// The content streams of every page, page by page and in the order
    /// each page lists them.
    pub fn page_contents(&self) -> (r: Vec<PageContent<'_>>)
        ensures
            content_views(r@) == all_contents_spec(
                crate::scan::records(self.objects@),
                crate::pages::page_views(self.pages@),
                self.pages@.len() as int,
            ),
    {
        let ghost objs = crate::scan::records(self.objects@);
        let ghost pv = crate::pages::page_views(self.pages@);
        let mut out: Vec<PageContent<'_>> = Vec::new();
        proof {
            assert(content_views(out@) =~= Seq::<ContentView>::empty());
        }
        let mut p: usize = 0;
        while p < self.pages.len()
            invariant
                p <= self.pages.len(),
                objs == crate::scan::records(self.objects@),
                pv == crate::pages::page_views(self.pages@),
                content_views(out@) == all_contents_spec(objs, pv, p as int),
            decreases self.pages.len() - p,
        {
            let mut more = self.contents_for_page(&self.pages[p]);
            let ghost before = content_views(out@);
            let ghost added = content_views(more@);
            out.append(&mut more);
            proof {
                assert(pv[p as int] == self.pages@[p as int].view());
                assert(content_views(out@) =~= before + added);
            }
            p += 1;
        }
        out
    }

    /// The content streams of the first page, when it has any.
    pub fn first_page_contents(&self) -> (r: Option<Vec<PageContent<'_>>>)
        ensures
            self.pages@.len() == 0 ==> r is None,
            self.pages@.len() > 0 ==> {
                let c = page_contents_spec(
                    crate::scan::records(self.objects@),
                    self.pages@[0].view(),
                    self.pages@[0].content_object_ids@.len() as int,
                );
                if c.len() == 0 {
                    r is None
                } else {
                    r matches Some(v) && content_views(v@) == c
                }
            },
    {
        if self.pages.len() == 0 {
            return None;
        }
        let contents = self.contents_for_page(&self.pages[0]);
        if contents.len() == 0 {
            None
        } else {
            Some(contents)
        }
    }

    /// The first content stream of the first page.
    pub fn first_page_content(&self) -> (r: Option<PageContent<'_>>)
        ensures
            self.pages@.len() == 0 ==> r is None,
            self.pages@.len() > 0 ==> {
                let c = page_contents_spec(
                    crate::scan::records(self.objects@),
                    self.pages@[0].view(),
                    self.pages@[0].content_object_ids@.len() as int,
                );
                if c.len() == 0 {
                    r is None
                } else {
                    r matches Some(x) && x.view() == c[0]
                }
            },
    {
        match self.first_page_contents() {
            Some(contents) => Some(contents[0]),
            None => None,
        }
    }
}

/// The default resource limits.
pub fn default_resource_limits() -> (r: ResourceLimits)
    ensures
        r == ResourceLimits::default_spec(),
{
    ResourceLimits::default()
}

} // verus!
