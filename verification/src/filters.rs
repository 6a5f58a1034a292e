//! Stream filters: `/ASCIIHexDecode`, `/RunLengthDecode` and
//! `/FlateDecode`, each bounded by the decoded-size limit.
use vstd::prelude::*;
use std::io::Read;
use crate::bytes::{is_ws, is_ascii_whitespace};
use crate::lexer::{hex_val, hex_value};
use crate::types::{PdfDiffError, limit_error, is_limit_error, invalid_input};

verus! {

/// What a filter makes of its input.
pub enum FilterOutcome {
    /// The decoded bytes.
    Decoded(Seq<u8>),
    /// The input is not valid for the filter.
    Invalid,
    /// The decoded bytes would exceed the limit.
    TooLarge,
}

pub const DECODED_LIMIT_CODE: &'static str = "RESOURCE_LIMIT_DECODED_STREAM_BYTES";

/// `r` is the exec form of `o`.
pub open spec fn filter_result(o: FilterOutcome, r: Result<Vec<u8>, PdfDiffError>) -> bool {
    match o {
        FilterOutcome::Decoded(d) => r matches Ok(v) && v@ == d,
        FilterOutcome::Invalid => r matches Err(e) && e is InvalidInput,
        FilterOutcome::TooLarge => r matches Err(e) && is_limit_error(e, DECODED_LIMIT_CODE@),
    }
}

/// ASCIIHex decoding from `i`, with a pending high nibble and the bytes
/// decoded so far. Decoding stops at `>` or the end; whitespace is skipped;
/// an odd final nibble is padded with zero.
pub open spec fn ahx_spec(s: Seq<u8>, i: int, high: Option<u8>, acc: Seq<u8>, limit: nat) -> FilterOutcome
    decreases s.len() - i,
{
    if i < 0 || i >= s.len() || s[i] == 0x3eu8 {
        match high {
            Some(h) => if acc.len() + 1 > limit {
                FilterOutcome::TooLarge
            } else {
                FilterOutcome::Decoded(acc.push((h * 16) as u8))
            },
            None => FilterOutcome::Decoded(acc),
        }
    } else if is_ws(s[i]) {
        ahx_spec(s, i + 1, high, acc, limit)
    } else {
        match hex_val(s[i]) {
            None => FilterOutcome::Invalid,
            Some(n) => match high {
                Some(h) => if acc.len() + 1 > limit {
                    FilterOutcome::TooLarge
                } else {
                    ahx_spec(s, i + 1, None, acc.push((h * 16 + n) as u8), limit)
                },
                None => ahx_spec(s, i + 1, Some(n), acc, limit),
            },
        }
    }
}

fn decoded_limit_error(limit: usize) -> (e: PdfDiffError)
    ensures
        is_limit_error(e, DECODED_LIMIT_CODE@),
{
    let l = crate::fmt::usize_to_string(limit);
    let detail = crate::fmt::concat(&["decoded stream exceeds limit of ", l.as_str(), " bytes"]);
    limit_error(DECODED_LIMIT_CODE, detail.as_str())
}

/// Decodes `/ASCIIHexDecode` data.
pub fn ascii_hex_decode_limited(bytes: &[u8], limit: usize) -> (r: Result<Vec<u8>, PdfDiffError>)
    ensures
        filter_result(ahx_spec(bytes@, 0, None, Seq::empty(), limit as nat), r),
{
    let mut decoded: Vec<u8> = Vec::new();
    let mut high: Option<u8> = None;
    let mut i: usize = 0;
    while i < bytes.len() && bytes[i] != 0x3eu8
        invariant
            i <= bytes@.len(),
            high matches Some(h) ==> h < 16,
            decoded@.len() <= limit,
            ahx_spec(bytes@, 0, None, Seq::empty(), limit as nat) == ahx_spec(bytes@, i as int, high, decoded@, limit as nat),
        decreases bytes@.len() - i,
    {
        let byte = bytes[i];
        if !is_ascii_whitespace(byte) {
            match hex_value(byte) {
                None => {
                    return Err(invalid_input("ASCIIHexDecode contained a non-hex byte"));
                },
                Some(n) => match high {
                    Some(h) => {
                        if decoded.len() >= limit {
                            return Err(decoded_limit_error(limit));
                        }
                        decoded.push(h * 16 + n);
                        high = None;
                    },
                    None => {
                        high = Some(n);
                    },
                },
            }
        }
        i += 1;
    }
    if let Some(h) = high {
        if decoded.len() >= limit {
            return Err(decoded_limit_error(limit));
        }
        decoded.push(h * 16);
    }
    Ok(decoded)
}

/// Run-length decoding from `i`: a length byte `n < 128` copies the next
/// `n + 1` bytes, `n > 128` repeats the next byte `257 - n` times, and 128
/// ends the data.
pub open spec fn rl_spec(s: Seq<u8>, i: int, acc: Seq<u8>, limit: nat) -> FilterOutcome
    decreases s.len() - i,
{
    if i < 0 || i >= s.len() || s[i] == 128u8 {
        FilterOutcome::Decoded(acc)
    } else if s[i] < 128u8 {
        let count = s[i] + 1;
        let end = i + 1 + count;
        if end > s.len() {
            FilterOutcome::Invalid
        } else if acc.len() + count > limit {
            FilterOutcome::TooLarge
        } else {
            rl_spec(s, end, acc + s.subrange(i + 1, end), limit)
        }
    } else {
        let count = 257 - s[i];
        if i + 1 >= s.len() {
            FilterOutcome::Invalid
        } else if acc.len() + count > limit {
            FilterOutcome::TooLarge
        } else {
            rl_spec(s, i + 2, acc + Seq::new(count as nat, |k: int| s[i + 1]), limit)
        }
    }
}

/// Decodes `/RunLengthDecode` data.
pub fn run_length_decode_limited(bytes: &[u8], limit: usize) -> (r: Result<Vec<u8>, PdfDiffError>)
    ensures
        filter_result(rl_spec(bytes@, 0, Seq::empty(), limit as nat), r),
{
    let mut decoded: Vec<u8> = Vec::new();
    let mut index: usize = 0;
    while index < bytes.len() && bytes[index] != 128u8
        invariant
            index <= bytes@.len(),
            decoded@.len() <= limit,
            rl_spec(bytes@, 0, Seq::empty(), limit as nat) == rl_spec(bytes@, index as int, decoded@, limit as nat),
        decreases bytes@.len() - index,
    {
        let length = bytes[index];
        let ghost i0 = index as int;
        index += 1;
        if length < 128u8 {
            let count: usize = length as usize + 1;
            if count > bytes.len() - index {
                return Err(invalid_input("RunLengthDecode literal segment is truncated"));
            }
            let end = index + count;
            if count > limit - decoded.len() {
                return Err(decoded_limit_error(limit));
            }
            let ghost before = decoded@;
            let mut k = index;
            while k < end
                invariant
                    index <= k <= end,
                    end <= bytes@.len(),
                    decoded@ == before + bytes@.subrange(index as int, k as int),
                decreases end - k,
            {
                decoded.push(bytes[k]);
                proof {
                    assert(bytes@.subrange(index as int, k + 1) =~= bytes@.subrange(index as int, k as int).push(bytes@[k as int]));
                }
                k += 1;
            }
            index = end;
        } else {
            let count: usize = 257 - length as usize;
            if index >= bytes.len() {
                return Err(invalid_input("RunLengthDecode repeat segment is truncated"));
            }
            let byte = bytes[index];
            index += 1;
            if count > limit - decoded.len() {
                return Err(decoded_limit_error(limit));
            }
            let ghost before = decoded@;
            let mut k: usize = 0;
            while k < count
                invariant
                    k <= count,
                    count == 257 - length,
                    decoded@ == before + Seq::new(k as nat, |t: int| byte),
                decreases count - k,
            {
                decoded.push(byte);
                proof {
                    assert(Seq::new((k + 1) as nat, |t: int| byte) =~= Seq::new(k as nat, |t: int| byte).push(byte));
                }
                k += 1;
            }
            proof {
                assert(Seq::new(count as nat, |t: int| byte) =~= Seq::new(count as nat, |t: int| bytes@[i0 + 1]));
            }
        }
    }
    Ok(decoded)
}

/// The bytes that a zlib decoder (`flate2::read::ZlibDecoder`) produces from
/// `input` before it reaches the end of the compressed stream or fails, and
/// whether it ended without error.
pub uninterp spec fn zlib_inflate(input: Seq<u8>) -> (Seq<u8>, bool);

/// Reads at most `cap` bytes from a `flate2::read::ZlibDecoder` over
/// `input`. When the decoder yields `cap` bytes the read stops there;
/// otherwise it reads to the end and fails, with the decoder's error text,
/// when the decoder fails. What was read, on success or before a failure,
/// was held in a `Vec<u8>`, whose length never exceeds `isize::MAX`.
#[verifier::external_body]
fn zlib_read_capped(input: &[u8], cap: u64) -> (r: Result<Vec<u8>, String>)
    ensures
        ({
            let (out, clean) = zlib_inflate(input@);
            match r {
                Ok(v) => v@.len() <= isize::MAX && ((out.len() >= cap && v@ == out.take(cap as int)) || (
                out.len() < cap && clean && v@ == out)),
                Err(_) => out.len() < cap && !clean && out.len() <= isize::MAX,
            }
        }),
{
    let mut out = Vec::new();
    match flate2::read::ZlibDecoder::new(input).take(cap).read_to_end(&mut out) {
        Ok(_) => Ok(out),
        Err(e) => Err(e.to_string()),
    }
}

/// What `/FlateDecode` makes of `input` under `limit`.
pub open spec fn flate_spec(input: Seq<u8>, limit: nat) -> FilterOutcome {
    let (out, clean) = zlib_inflate(input);
    if out.len() > limit {
        FilterOutcome::TooLarge
    } else if clean {
        FilterOutcome::Decoded(out)
    } else {
        FilterOutcome::Invalid
    }
}

/// Decodes `/FlateDecode` (zlib) data; a decoder failure is reported as
/// `FlateDecode failed: ` followed by the decoder's error text.
pub fn flate_decode_limited(bytes: &[u8], limit: usize) -> (r: Result<Vec<u8>, PdfDiffError>)
    ensures
        filter_result(flate_spec(bytes@, limit as nat), r),
        r matches Err(e) ==> (e is InvalidInput ==> "FlateDecode failed: "@.is_prefix_of(e.message())),
{
    let cap: u64 = if limit == usize::MAX { u64::MAX } else { limit as u64 + 1 };
    match zlib_read_capped(bytes, cap) {
        Ok(v) => {
            if v.len() > limit {
                Err(decoded_limit_error(limit))
            } else {
                Ok(v)
            }
        },
        Err(detail) => {
            let mut m = "FlateDecode failed: ".to_owned();
            m.append(detail.as_str());
            let e = PdfDiffError::InvalidInput(m);
            proof {
                assert("FlateDecode failed: "@.is_prefix_of(e.message()));
            }
            Err(e)
        },
    }
}

} // verus!
