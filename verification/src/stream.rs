//! Stream objects: their metadata and the filter chain that decodes them.
use vstd::prelude::*;
use crate::types::{ByteRange, ParseConfig, PdfDiffError, is_limit_error};
use crate::filters::{
    FilterOutcome, DECODED_LIMIT_CODE, ahx_spec, rl_spec, flate_spec, ascii_hex_decode_limited,
    run_length_decode_limited, flate_decode_limited,
};
use crate::bytes::slice_range;

verus! {

/// The data of a stream object. `raw_bytes` are the bytes between `stream`
/// and `endstream`; `bytes` are the decoded bytes when every filter of the
/// chain is supported and succeeded (`decoded`), and the raw bytes otherwise.
#[derive(Debug, Clone, PartialEq, Eq)]
pub struct PdfStream {
    pub bytes: Vec<u8>,
    pub raw_bytes: Vec<u8>,
    pub byte_range: ByteRange,
    pub declared_length: Option<usize>,
    pub filters: Vec<String>,
    pub decode_params: Vec<Option<String>>,
    pub decoded: bool,
}

impl PdfStream {
    /// The same stream with its dictionary metadata set.
    pub fn with_metadata(
        self,
        declared_length: Option<usize>,
        filters: Vec<String>,
        decode_params: Vec<Option<String>>,
    ) -> (s: Self)
        ensures
            s.bytes == self.bytes,
            s.raw_bytes == self.raw_bytes,
            s.byte_range == self.byte_range,
            s.declared_length == declared_length,
            s.filters == filters,
            s.decode_params == decode_params,
            s.decoded == self.decoded,
    {
        PdfStream { declared_length, filters, decode_params, ..self }
    }

    /// The filter names as character sequences.
    pub open spec fn filter_names(self) -> Seq<Seq<char>> {
        self.filters@.map_values(|f: String| f@)
    }
}

/// The filters this library decodes.
#[derive(Debug, Clone, Copy, PartialEq, Eq, Structural)]
pub enum FilterKind {
    Flate,
    AsciiHex,
    RunLength,
}

/// The filter a name stands for, full or abbreviated.
pub open spec fn filter_kind(name: Seq<char>) -> Option<FilterKind> {
    if name == "FlateDecode"@ || name == "Fl"@ {
        Some(FilterKind::Flate)
    } else if name == "ASCIIHexDecode"@ || name == "AHx"@ {
        Some(FilterKind::AsciiHex)
    } else if name == "RunLengthDecode"@ || name == "RL"@ {
        Some(FilterKind::RunLength)
    } else {
        None
    }
}

fn same_text(a: &String, b: &str) -> (r: bool)
    ensures
        r == (a@ == b@),
{
    let owned = b.to_owned();
    *a == owned
}

/// Classifies a filter name.
pub fn filter_kind_of(name: &String) -> (r: Option<FilterKind>)
    ensures
        r == filter_kind(name@),
{
    if same_text(name, "FlateDecode") || same_text(name, "Fl") {
        Some(FilterKind::Flate)
    } else if same_text(name, "ASCIIHexDecode") || same_text(name, "AHx") {
        Some(FilterKind::AsciiHex)
    } else if same_text(name, "RunLengthDecode") || same_text(name, "RL") {
        Some(FilterKind::RunLength)
    } else {
        None
    }
}

/// A filter name is one this library decodes.
pub fn is_supported_stream_filter(name: &String) -> (r: bool)
    ensures
        r == filter_kind(name@) is Some,
{
    filter_kind_of(name).is_some()
}

/// What one filter makes of its input.
pub open spec fn apply_filter(kind: FilterKind, input: Seq<u8>, limit: nat) -> FilterOutcome {
    match kind {
        FilterKind::Flate => flate_spec(input, limit),
        FilterKind::AsciiHex => ahx_spec(input, 0, None, Seq::empty(), limit),
        FilterKind::RunLength => rl_spec(input, 0, Seq::empty(), limit),
    }
}

/// What a filter chain makes of a stream.
pub enum ChainOutcome {
    /// Every filter decoded: the final bytes.
    Decoded(Seq<u8>),
    /// A filter is unsupported or failed: the raw bytes are kept.
    Raw,
    /// A filter's output would exceed the decoded-size limit.
    TooLarge,
}

/// Applies `names[i..]` in order to `data`.
pub open spec fn chain_spec(names: Seq<Seq<char>>, i: int, data: Seq<u8>, limit: nat) -> ChainOutcome
    decreases names.len() - i,
{
    if i < 0 || i >= names.len() {
        ChainOutcome::Decoded(data)
    } else {
        match filter_kind(names[i]) {
            None => ChainOutcome::Raw,
            Some(kind) => match apply_filter(kind, data, limit) {
                FilterOutcome::Decoded(next) => chain_spec(names, i + 1, next, limit),
                FilterOutcome::Invalid => ChainOutcome::Raw,
                FilterOutcome::TooLarge => ChainOutcome::TooLarge,
            },
        }
    }
}

fn run_filter(kind: FilterKind, input: &[u8], limit: usize) -> (r: Result<Vec<u8>, PdfDiffError>)
    ensures
        crate::filters::filter_result(apply_filter(kind, input@, limit as nat), r),
{
    match kind {
        FilterKind::Flate => flate_decode_limited(input, limit),
        FilterKind::AsciiHex => ascii_hex_decode_limited(input, limit),
        FilterKind::RunLength => run_length_decode_limited(input, limit),
    }
}

/// The stream with its raw bytes as its data, marked undecoded.
fn keep_raw(stream: PdfStream) -> (s: PdfStream)
    ensures
        s.raw_bytes == stream.raw_bytes,
        s.byte_range == stream.byte_range,
        s.declared_length == stream.declared_length,
        s.filters == stream.filters,
        s.decode_params == stream.decode_params,
        s.bytes@ == stream.raw_bytes@,
        !s.decoded,
{
    let bytes = slice_range(stream.raw_bytes.as_slice(), 0, stream.raw_bytes.len());
    proof {
        assert(bytes@ =~= stream.raw_bytes@);
    }
    PdfStream { bytes, decoded: false, ..stream }
}

/// Runs the stream's filter chain over its raw bytes. An unsupported or
/// failing filter keeps the raw bytes and marks the stream undecoded; only
/// the decoded-size limit is an error.
pub fn decode_stream(input: PdfStream, config: ParseConfig) -> (r: Result<PdfStream, PdfDiffError>)
    ensures
        r matches Ok(s) ==> s.raw_bytes == input.raw_bytes && s.byte_range == input.byte_range
            && s.declared_length == input.declared_length && s.filters == input.filters
            && s.decode_params == input.decode_params,
        match chain_spec(
            input.filter_names(),
            0,
            input.raw_bytes@,
            config.limits.max_decoded_stream_bytes as nat,
        ) {
            ChainOutcome::Decoded(d) => r matches Ok(s) && s.bytes@ == d && s.decoded,
            ChainOutcome::Raw => r matches Ok(s) && s.bytes@ == input.raw_bytes@ && !s.decoded,
            ChainOutcome::TooLarge => r matches Err(e) && is_limit_error(
                e,
                DECODED_LIMIT_CODE@,
            ),
        },
{
    let mut stream = input;
    let ghost s0 = stream;
    let limit = config.limits.max_decoded_stream_bytes;
    let ghost names = s0.filter_names();
    let mut decoded = slice_range(stream.raw_bytes.as_slice(), 0, stream.raw_bytes.len());
    proof {
        assert(decoded@ =~= s0.raw_bytes@);
    }
    let mut i: usize = 0;
    while i < stream.filters.len()
        invariant
            stream == s0,
            s0 == input,
            names == s0.filter_names(),
            limit == config.limits.max_decoded_stream_bytes,
            i <= stream.filters.len(),
            chain_spec(names, 0, s0.raw_bytes@, limit as nat) == chain_spec(names, i as int, decoded@, limit as nat),
        decreases stream.filters.len() - i,
    {
        let kind = filter_kind_of(&stream.filters[i]);
        assert(names[i as int] == stream.filters@[i as int]@);
        match kind {
            None => {
                return Ok(keep_raw(stream));
            },
            Some(k) => {
                let result = run_filter(k, decoded.as_slice(), limit);
                match result {
                    Ok(next) => {
                        decoded = next;
                    },
                    Err(e) => {
                        if let PdfDiffError::ResourceLimitExceeded(_) = e {
                            return Err(e);
                        }
                        return Ok(keep_raw(stream));
                    },
                }
            },
        }
        i += 1;
    }
    stream.bytes = decoded;
    stream.decoded = true;
    Ok(stream)
}

} // verus!
