//! Data shared by the parser, the text layer and the reports.
use vstd::prelude::*;
use crate::fmt::{concat, concat2, concat_spec, decimal_chars, usize_to_string};

verus! {

/// Version string of the diff report schema.
pub const DIFF_SCHEMA_VERSION: &'static str = "0.1.0";

/// Errors returned by the parser and the diff pipeline.
#[derive(Debug, Clone, PartialEq, Eq)]
pub enum PdfDiffError {
    ResourceLimitExceeded(String),
    UnsupportedPdf(String),
    InvalidInput(String),
    InternalInvariant(String),
}

impl PdfDiffError {
    /// The message carried by the error, whatever its variant.
    pub open spec fn message(self) -> Seq<char> {
        match self {
            PdfDiffError::ResourceLimitExceeded(m) => m@,
            PdfDiffError::UnsupportedPdf(m) => m@,
            PdfDiffError::InvalidInput(m) => m@,
            PdfDiffError::InternalInvariant(m) => m@,
        }
    }

    pub open spec fn message_string(self) -> String {
        match self {
            PdfDiffError::ResourceLimitExceeded(m) => m,
            PdfDiffError::UnsupportedPdf(m) => m,
            PdfDiffError::InvalidInput(m) => m,
            PdfDiffError::InternalInvariant(m) => m,
        }
    }

    /// Human-readable rendering, in the words of the error's `Display` form.
    pub fn to_display_string(&self) -> (s: String)
        ensures
            s@ == self.display_spec(),
    {
        match self {
            PdfDiffError::ResourceLimitExceeded(m) => concat2(
                "input exceeds configured resource limit: ", m.as_str()),
            PdfDiffError::UnsupportedPdf(m) => concat2("input is not a supported PDF: ", m.as_str()),
            PdfDiffError::InvalidInput(m) => concat2("invalid input: ", m.as_str()),
            PdfDiffError::InternalInvariant(m) => concat2("internal invariant failed: ", m.as_str()),
        }
    }

    pub open spec fn display_spec(self) -> Seq<char> {
        match self {
            PdfDiffError::ResourceLimitExceeded(m) => "input exceeds configured resource limit: "@ + m@,
            PdfDiffError::UnsupportedPdf(m) => "input is not a supported PDF: "@ + m@,
            PdfDiffError::InvalidInput(m) => "invalid input: "@ + m@,
            PdfDiffError::InternalInvariant(m) => "internal invariant failed: "@ + m@,
        }
    }
}

/// `e` is a resource-limit error whose message starts with `code`.
pub open spec fn is_limit_error(e: PdfDiffError, code: Seq<char>) -> bool {
    &&& e is ResourceLimitExceeded
    &&& code.len() <= e.message().len()
    &&& e.message().subrange(0, code.len() as int) == code
}

/// A resource-limit error whose message is `code: detail`.
pub fn limit_error(code: &str, detail: &str) -> (e: PdfDiffError)
    ensures
        e is ResourceLimitExceeded,
        e.message() == code@ + ": "@ + detail@,
        is_limit_error(e, code@),
{
    let mut m = code.to_owned();
    m.append(": ");
    m.append(detail);
    let e = PdfDiffError::ResourceLimitExceeded(m);
    proof {
        assert(e.message().subrange(0, code@.len() as int) =~= code@);
    }
    e
}

/// An invalid-input error with the given message.
pub fn invalid_input(message: &str) -> (e: PdfDiffError)
    ensures
        e == PdfDiffError::InvalidInput(e.message_string()),
        e.message() == message@,
{
    PdfDiffError::InvalidInput(message.to_owned())
}

/// An indirect object number with its generation.
#[derive(Debug, Clone, Copy, PartialEq, Eq, Structural, PartialOrd, Ord, Hash)]
pub struct ObjectId {
    pub number: u32,
    pub generation: u16,
}

/// A half-open range of byte offsets into a file or stream.
#[derive(Debug, Clone, Copy, PartialEq, Eq, Structural)]
pub struct ByteRange {
    pub start: usize,
    pub end: usize,
}

impl ByteRange {
    pub fn new(start: usize, end: usize) -> (r: Self)
        ensures
            r.start == start,
            r.end == end,
    {
        ByteRange { start, end }
    }
}

/// Which side of a comparison a piece of evidence belongs to.
#[derive(Debug, Clone, Copy, PartialEq, Eq, Structural)]
pub enum FileRole {
    Old,
    New,
}

/// Where a piece of extracted evidence came from.
#[derive(Debug, Clone, Copy, PartialEq, Eq, Structural)]
pub struct Provenance {
    pub file_role: Option<FileRole>,
    pub object_id: Option<ObjectId>,
    pub page_index: Option<usize>,
    pub stream_object_id: Option<ObjectId>,
    pub content_op_index: Option<usize>,
    pub byte_range: Option<ByteRange>,
}

impl Provenance {
    pub fn unknown() -> (p: Self)
        ensures
            p.file_role is None,
            p.object_id is None,
            p.page_index is None,
            p.stream_object_id is None,
            p.content_op_index is None,
            p.byte_range is None,
    {
        Provenance {
            file_role: None,
            object_id: None,
            page_index: None,
            stream_object_id: None,
            content_op_index: None,
            byte_range: None,
        }
    }
}

#[derive(Debug, Clone, Copy, PartialEq, Eq, Structural)]
pub enum DiagnosticSeverity {
    Info,
    Warning,
    Error,
}

/// A stable, machine-readable finding about the input.
#[derive(Debug, Clone, PartialEq, Eq)]
pub struct Diagnostic {
    pub severity: DiagnosticSeverity,
    pub code: String,
    pub message: String,
    pub object: Option<ObjectId>,
    pub page_index: Option<usize>,
}

impl Diagnostic {
    pub fn new(severity: DiagnosticSeverity, code: &str, message: &str) -> (d: Self)
        ensures
            d.severity == severity,
            d.code@ == code@,
            d.message@ == message@,
            d.object is None,
            d.page_index is None,
    {
        Diagnostic {
            severity,
            code: code.to_owned(),
            message: message.to_owned(),
            object: None,
            page_index: None,
        }
    }

    pub fn info(code: &str, message: &str) -> (d: Self)
        ensures
            d.severity == DiagnosticSeverity::Info,
            d.code@ == code@,
            d.message@ == message@,
            d.object is None,
            d.page_index is None,
    {
        Self::new(DiagnosticSeverity::Info, code, message)
    }

    pub fn warning(code: &str, message: &str) -> (d: Self)
        ensures
            d.severity == DiagnosticSeverity::Warning,
            d.code@ == code@,
            d.message@ == message@,
            d.object is None,
            d.page_index is None,
    {
        Self::new(DiagnosticSeverity::Warning, code, message)
    }

    pub fn error(code: &str, message: &str) -> (d: Self)
        ensures
            d.severity == DiagnosticSeverity::Error,
            d.code@ == code@,
            d.message@ == message@,
            d.object is None,
            d.page_index is None,
    {
        Self::new(DiagnosticSeverity::Error, code, message)
    }

    /// A copy of the diagnostic.
    pub fn duplicate(&self) -> (d: Self)
        ensures
            d == *self,
    {
        Diagnostic {
            severity: self.severity,
            code: self.code.clone(),
            message: self.message.clone(),
            object: self.object,
            page_index: self.page_index,
        }
    }

    /// The same diagnostic, attributed to an object.
    pub fn with_object(self, object_id: ObjectId) -> (d: Self)
        ensures
            d.severity == self.severity,
            d.code == self.code,
            d.message == self.message,
            d.object == Some(object_id),
            d.page_index == self.page_index,
    {
        Diagnostic { object: Some(object_id), ..self }
    }

    /// The same diagnostic, attributed to a page.
    pub fn with_page(self, page_index: usize) -> (d: Self)
        ensures
            d.severity == self.severity,
            d.code == self.code,
            d.message == self.message,
            d.object == self.object,
            d.page_index == Some(page_index),
    {
        Diagnostic { page_index: Some(page_index), ..self }
    }
}

/// Model of a diagnostic.
pub struct DiagView {
    pub severity: DiagnosticSeverity,
    pub code: Seq<char>,
    pub message: Seq<char>,
    pub object: Option<ObjectId>,
    pub page_index: Option<usize>,
}

impl Diagnostic {
    pub open spec fn view(self) -> DiagView {
        DiagView {
            severity: self.severity,
            code: self.code@,
            message: self.message@,
            object: self.object,
            page_index: self.page_index,
        }
    }
}

pub open spec fn diag_views(s: Seq<Diagnostic>) -> Seq<DiagView> {
    s.map_values(|d: Diagnostic| d.view())
}

/// A warning about an object.
pub open spec fn object_warning(code: Seq<char>, message: Seq<char>, object: ObjectId) -> DiagView {
    DiagView { severity: DiagnosticSeverity::Warning, code, message, object: Some(object), page_index: None }
}

/// A warning about the document as a whole.
pub open spec fn plain_diag(severity: DiagnosticSeverity, code: Seq<char>, message: Seq<char>) -> DiagView {
    DiagView { severity, code, message, object: None, page_index: None }
}

/// Bounds that keep parsing of hostile input finite and small.
#[derive(Debug, Clone, Copy, PartialEq, Eq, Structural)]
pub struct ResourceLimits {
    pub max_file_bytes: usize,
    pub max_objects: usize,
    pub max_indirect_depth: usize,
    pub max_stream_bytes: usize,
    pub max_decoded_stream_bytes: usize,
    pub max_content_ops_per_page: usize,
    pub max_pages: usize,
}

impl ResourceLimits {
    pub open spec fn default_spec() -> ResourceLimits {
        ResourceLimits {
            max_file_bytes: 104857600,
            max_objects: 250000,
            max_indirect_depth: 64,
            max_stream_bytes: 52428800,
            max_decoded_stream_bytes: 209715200,
            max_content_ops_per_page: 1000000,
            max_pages: 10000,
        }
    }

    /// Fails when a file of `byte_len` bytes is larger than the limit allows.
    pub fn check_file_size(self, byte_len: usize) -> (r: Result<(), PdfDiffError>)
        ensures
            r is Ok <==> byte_len <= self.max_file_bytes,
            r matches Err(e) ==> e is ResourceLimitExceeded
                && e.message() == concat_spec(seq![
                    "file has "@, decimal_chars(byte_len as nat), " bytes, limit is "@,
                    decimal_chars(self.max_file_bytes as nat),
                ]),
    {
        if byte_len > self.max_file_bytes {
            let n = usize_to_string(byte_len);
            let m = usize_to_string(self.max_file_bytes);
            let parts = ["file has ", n.as_str(), " bytes, limit is ", m.as_str()];
            let msg = concat(&parts);
            proof {
                assert(parts@.map_values(|p: &str| p@) =~= seq![
                    "file has "@, decimal_chars(byte_len as nat), " bytes, limit is "@,
                    decimal_chars(self.max_file_bytes as nat),
                ]);
            }
            return Err(PdfDiffError::ResourceLimitExceeded(msg));
        }
        Ok(())
    }
}

impl Default for ResourceLimits {
    fn default() -> (r: Self)
        ensures
            r == ResourceLimits::default_spec(),
    {
        ResourceLimits {
            max_file_bytes: 100 * 1024 * 1024,
            max_objects: 250_000,
            max_indirect_depth: 64,
            max_stream_bytes: 50 * 1024 * 1024,
            max_decoded_stream_bytes: 200 * 1024 * 1024,
            max_content_ops_per_page: 1_000_000,
            max_pages: 10_000,
        }
    }
}

/// Parser configuration.
#[derive(Debug, Clone, Copy, PartialEq, Eq, Structural)]
pub struct ParseConfig {
    pub limits: ResourceLimits,
}

impl Default for ParseConfig {
    fn default() -> (c: Self)
        ensures
            c.limits == ResourceLimits::default_spec(),
    {
        ParseConfig { limits: ResourceLimits::default() }
    }
}

#[derive(Debug, Clone, Copy, PartialEq, Eq, Structural)]
pub enum ChangeKind {
    Inserted,
    Deleted,
    Modified,
    Moved,
    LayoutChanged,
    StyleChanged,
    MetadataChanged,
    AnnotationChanged,
    FormFieldChanged,
    ObjectChanged,
    Unknown,
}

#[derive(Debug, Clone, Copy, PartialEq, Eq, Structural)]
pub enum ChangeSeverity {
    Critical,
    Major,
    Minor,
    Info,
}

#[derive(Debug, Clone, Copy, PartialEq, Eq, Structural, Default)]
pub struct DiffSummary {
    pub inserted: usize,
    pub deleted: usize,
    pub modified: usize,
    pub moved: usize,
    pub layout_changed: usize,
}

#[derive(Debug, Clone, Copy, PartialEq, Eq, Structural)]
pub enum TextHunkKind {
    Equal,
    Inserted,
    Deleted,
    Replaced,
}

/// A half-open range of token or character positions.
#[derive(Debug, Clone, Copy, PartialEq, Eq, Structural)]
pub struct TextRange {
    pub start: usize,
    pub end: usize,
}

impl TextRange {
    pub fn new(start: usize, end: usize) -> (r: Self)
        ensures
            r.start == start,
            r.end == end,
    {
        TextRange { start, end }
    }
}

#[derive(Debug, Clone, Copy, PartialEq, Eq, Structural)]
pub enum TextHunkGranularity {
    Token,
    Character,
}

#[derive(Debug, Clone, PartialEq, Eq)]
pub struct TextHunk {
    pub kind: TextHunkKind,
    pub granularity: Option<TextHunkGranularity>,
    pub old_range: Option<TextRange>,
    pub new_range: Option<TextRange>,
    pub old_text: Option<String>,
    pub new_text: Option<String>,
}

#[derive(Debug, Clone, Copy, PartialEq, Eq, Structural)]
pub struct AiReviewSummary {
    pub total_changes: usize,
    pub inserted: usize,
    pub deleted: usize,
    pub modified: usize,
    pub moved: usize,
    pub layout_changed: usize,
    pub diagnostic_count: usize,
    pub low_confidence_change_count: usize,
    pub unsupported_surface_count: usize,
}

#[derive(Debug, Clone, PartialEq, Eq)]
pub struct AiReviewQuestionHint {
    pub question: String,
    pub answer: AiReviewAnswer,
    pub supporting_change_ids: Vec<String>,
    pub rationale: String,
}

#[derive(Debug, Clone, Copy, PartialEq, Eq, Structural)]
pub enum AiReviewAnswer {
    Yes,
    No,
    Unknown,
}

#[derive(Debug, Clone, Copy, PartialEq, Eq, Structural)]
pub enum AiConfidenceBucket {
    High,
    Medium,
    Low,
}

#[derive(Debug, Clone, Copy, PartialEq, Eq, Structural, PartialOrd, Ord)]
pub enum AiReviewTag {
    TextChanged,
    ContentInserted,
    ContentDeleted,
    ContentMoved,
    LayoutOnly,
    RepeatedPageRegion,
    PaymentTermsCandidate,
    DateOrDurationCandidate,
    PartyNameCandidate,
    NumericValueChanged,
    AnnotationOrLinkChanged,
    FormFieldChanged,
    MetadataChanged,
    VisualSurfaceChanged,
    UnsupportedSurface,
    LowConfidence,
}

#[derive(Debug, Clone, PartialEq, Eq)]
pub struct AiDiagnosticCount {
    pub code: String,
    pub count: usize,
}

} // verus!
