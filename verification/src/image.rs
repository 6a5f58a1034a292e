//! Image XObjects: the byte fingerprints that compare payloads, and the
//! samples of 8-bit images stored behind PNG row predictors.
use vstd::prelude::*;
use crate::fmt::{decimal_chars, hex_chars, hex_digits, u64_to_decimal, usize_to_string};
use crate::chars::{chars_of, string_of};
use crate::cmap::equals_text;
use crate::fonts::{normalized, normalize_text};
use crate::document::PdfDocument;
use crate::scan::PdfObject;
use crate::textscan::{contains_chars, contains_text, report_value_after_key, report_value_after_name, usize_after_key, pdf_usize_after_name, reference_after_key, reference_after_key_spec};
use crate::types::{ByteRange, Diagnostic, DiagnosticSeverity, DiagView, ObjectId, diag_views};

verus! {

/// The FNV-1a offset basis.
pub open spec fn fnv_offset() -> u64 {
    0xcbf2_9ce4_8422_2325
}

/// The FNV-1a prime.
pub open spec fn fnv_prime() -> u64 {
    0x0000_0100_0000_01b3
}

/// The 64-bit FNV-1a hash of `bytes`.
pub open spec fn fnv1a(bytes: Seq<u8>) -> u64
    decreases bytes.len(),
{
    if bytes.len() == 0 {
        fnv_offset()
    } else {
        (((fnv1a(bytes.drop_last()) ^ (bytes.last() as u64)) as nat * fnv_prime() as nat) % 0x1_0000_0000_0000_0000nat) as u64
    }
}

/// The FNV-1a hash of `bytes` as sixteen lower-case hexadecimal digits.
pub fn stable_hash(bytes: &[u8]) -> (r: String)
    ensures
        r@ == hex_chars(fnv1a(bytes@) as nat, 16),
{
    let mut hash: u64 = 0xcbf2_9ce4_8422_2325;
    let mut i: usize = 0;
    while i < bytes.len()
        invariant
            i <= bytes.len(),
            hash == fnv1a(bytes@.take(i as int)),
        decreases bytes.len() - i,
    {
        proof {
            assert(bytes@.take(i + 1).drop_last() =~= bytes@.take(i as int));
        }
        hash = (hash ^ (bytes[i] as u64)).wrapping_mul(0x0000_0100_0000_01b3);
        i += 1;
    }
    proof {
        assert(bytes@.take(bytes.len() as int) =~= bytes@);
    }
    hex_digits(hash, 16)
}

pub open spec fn abs_int(v: int) -> int {
    if v < 0 {
        -v
    } else {
        v
    }
}

/// The Paeth predictor: of the left, upper and upper-left bytes, the one
/// nearest to `left + up - up_left` (ties go left, then up).
pub open spec fn paeth(left: u8, up: u8, up_left: u8) -> u8 {
    let estimate = left as int + up as int - up_left as int;
    let left_distance = abs_int(estimate - left as int);
    let up_distance = abs_int(estimate - up as int);
    let up_left_distance = abs_int(estimate - up_left as int);
    if left_distance <= up_distance && left_distance <= up_left_distance {
        left
    } else if up_distance <= up_left_distance {
        up
    } else {
        up_left
    }
}

/// The Paeth predictor of PNG row filter 4.
pub fn paeth_predictor(left: u8, up: u8, up_left: u8) -> (r: u8)
    ensures
        r == paeth(left, up, up_left),
{
    let estimate: i32 = left as i32 + up as i32 - up_left as i32;
    let a: i32 = estimate - left as i32;
    let b: i32 = estimate - up as i32;
    let c: i32 = estimate - up_left as i32;
    let left_distance: i32 = if a < 0 { -a } else { a };
    let up_distance: i32 = if b < 0 { -b } else { b };
    let up_left_distance: i32 = if c < 0 { -c } else { c };
    if left_distance <= up_distance && left_distance <= up_left_distance {
        left
    } else if up_distance <= up_left_distance {
        up
    } else {
        up_left
    }
}

/// The byte that PNG row filter `filter` (0 to 4) predicts.
pub open spec fn prediction(filter: u8, left: u8, up: u8, up_left: u8) -> u8 {
    if filter == 0 {
        0
    } else if filter == 1 {
        left
    } else if filter == 2 {
        up
    } else if filter == 3 {
        ((left as int + up as int) / 2) as u8
    } else {
        paeth(left, up, up_left)
    }
}

fn predict(filter: u8, left: u8, up: u8, up_left: u8) -> (r: u8)
    requires
        filter <= 4,
    ensures
        r == prediction(filter, left, up, up_left),
{
    if filter == 0 {
        0
    } else if filter == 1 {
        left
    } else if filter == 2 {
        up
    } else if filter == 3 {
        ((left as u16 + up as u16) / 2) as u8
    } else {
        paeth_predictor(left, up, up_left)
    }
}

/// The first `n` decoded bytes of a row filtered by `filter`, whose encoded
/// bytes start at `start` of `bytes`, below the decoded row `prev` (empty
/// for the first row); `comps` bytes make one pixel.
pub open spec fn decode_row(bytes: Seq<u8>, start: int, filter: u8, prev: Seq<u8>, comps: int, n: int) -> Seq<u8>
    decreases n,
{
    if n <= 0 {
        Seq::empty()
    } else {
        let cur = decode_row(bytes, start, filter, prev, comps, n - 1);
        let x = n - 1;
        let left: u8 = if x >= comps {
            cur[x - comps]
        } else {
            0
        };
        let up: u8 = if prev.len() > 0 {
            prev[x]
        } else {
            0
        };
        let up_left: u8 = if prev.len() > 0 && x >= comps {
            prev[x - comps]
        } else {
            0
        };
        cur.push(((bytes[start + x] as int + prediction(filter, left, up, up_left) as int) % 256) as u8)
    }
}

/// The decoded rows `0..y`: each row's encoded form is its filter byte and
/// `row_len` bytes.
pub open spec fn png_rows(bytes: Seq<u8>, row_len: int, comps: int, y: int) -> Seq<Seq<u8>>
    decreases y,
{
    if y <= 0 {
        Seq::empty()
    } else {
        let rows = png_rows(bytes, row_len, comps, y - 1);
        let prev = if y - 1 > 0 {
            rows.last()
        } else {
            Seq::empty()
        };
        let start = (y - 1) * (row_len + 1);
        rows.push(decode_row(bytes, start + 1, bytes[start], prev, comps, row_len))
    }
}

/// The rows, one after another.
pub open spec fn joined_rows(rows: Seq<Seq<u8>>) -> Seq<u8>
    decreases rows.len(),
{
    if rows.len() == 0 {
        Seq::empty()
    } else {
        joined_rows(rows.drop_last()) + rows.last()
    }
}

/// The first row from `y` on whose filter byte is above 4 (the filter of a
/// row of no bytes is never read).
pub open spec fn bad_filter_row(bytes: Seq<u8>, row_len: int, height: int, y: int) -> Option<int>
    decreases height - y,
{
    if y >= height || row_len == 0 || y < 0 {
        None
    } else if bytes[y * (row_len + 1)] > 4 {
        Some(y)
    } else {
        bad_filter_row(bytes, row_len, height, y + 1)
    }
}

pub open spec fn short_stream_message(have: nat, want: nat) -> Seq<char> {
    "decoded stream has "@ + decimal_chars(have) + " bytes but expected at least "@ + decimal_chars(want)
}

/// The samples of an image `width` pixels wide and `height` high with
/// `comps` bytes per pixel, read from its decoded stream: the bytes as they
/// stand (predictor 1) or the rows behind PNG filters (predictors 10 to 15);
/// else the reason they cannot be read.
pub open spec fn image_samples(
    bytes: Seq<u8>,
    width: usize,
    height: usize,
    comps: usize,
    predictor: usize,
) -> Result<Seq<u8>, Seq<char>> {
    let row_len = width * comps;
    let expected = row_len * height;
    let encoded = (row_len + 1) * height;
    if row_len > usize::MAX {
        Err("image row size overflowed"@)
    } else if expected > usize::MAX {
        Err("image size overflowed"@)
    } else if predictor == 1 {
        if bytes.len() < expected {
            Err(short_stream_message(bytes.len(), expected as nat))
        } else {
            Ok(bytes.take(expected))
        }
    } else if !(10 <= predictor <= 15) {
        Err("Predictor "@ + decimal_chars(predictor as nat) + " is not supported"@)
    } else if row_len + 1 > usize::MAX {
        Err("PNG predictor row size overflowed"@)
    } else if encoded > usize::MAX {
        Err("PNG predictor image size overflowed"@)
    } else if bytes.len() < encoded {
        Err(short_stream_message(bytes.len(), encoded as nat))
    } else {
        png_samples(bytes, row_len, comps as int, height as int)
    }
}

/// The samples behind PNG row filters, or the first unsupported filter.
pub open spec fn png_samples(bytes: Seq<u8>, row_len: int, comps: int, height: int) -> Result<Seq<u8>, Seq<char>> {
    match bad_filter_row(bytes, row_len, height, 0) {
        Some(y) => Err("PNG row filter "@ + decimal_chars(bytes[y * (row_len + 1)] as nat) + " is not supported"@),
        None => Ok(joined_rows(png_rows(bytes, row_len, comps, height))),
    }
}

pub open spec fn result_view(r: Result<Vec<u8>, String>) -> Result<Seq<u8>, Seq<char>> {
    match r {
        Ok(v) => Ok(v@),
        Err(e) => Err(e@),
    }
}

pub proof fn lemma_rows_shape(bytes: Seq<u8>, row_len: int, comps: int, y: int)
    requires
        0 <= y,
        0 <= row_len,
    ensures
        png_rows(bytes, row_len, comps, y).len() == y,
        joined_rows(png_rows(bytes, row_len, comps, y)).len() == y * row_len,
        forall|k: int| 0 <= k < y ==> (#[trigger] png_rows(bytes, row_len, comps, y)[k]).len() == row_len,
    decreases y,
{
    if y > 0 {
        lemma_rows_shape(bytes, row_len, comps, y - 1);
        let rows = png_rows(bytes, row_len, comps, y - 1);
        let prev = if y - 1 > 0 {
            rows.last()
        } else {
            Seq::empty()
        };
        let start = (y - 1) * (row_len + 1);
        lemma_row_len(bytes, start + 1, bytes[start], prev, comps, row_len);
        assert(png_rows(bytes, row_len, comps, y).drop_last() =~= rows);
        assert((y - 1) * row_len + row_len == y * row_len) by (nonlinear_arith);
        assert forall|k: int| 0 <= k < y implies (#[trigger] png_rows(bytes, row_len, comps, y)[k]).len() == row_len by {
            if k < y - 1 {
                assert(png_rows(bytes, row_len, comps, y)[k] == rows[k]);
            }
        }
    }
}

pub proof fn lemma_row_len(bytes: Seq<u8>, start: int, filter: u8, prev: Seq<u8>, comps: int, n: int)
    requires
        0 <= n,
    ensures
        decode_row(bytes, start, filter, prev, comps, n).len() == n,
    decreases n,
{
    if n > 0 {
        lemma_row_len(bytes, start, filter, prev, comps, n - 1);
    }
}

proof fn lemma_bad_filter_from(bytes: Seq<u8>, row_len: int, height: int, y: int)
    requires
        0 <= y < height,
        row_len > 0,
        bytes[y * (row_len + 1)] <= 4,
    ensures
        bad_filter_row(bytes, row_len, height, y) == bad_filter_row(bytes, row_len, height, y + 1),
{
}

fn copy_prefix(bytes: &[u8], n: usize) -> (r: Vec<u8>)
    requires
        n <= bytes.len(),
    ensures
        r@ == bytes@.take(n as int),
{
    let mut out: Vec<u8> = Vec::new();
    let mut i: usize = 0;
    while i < n
        invariant
            i <= n <= bytes.len(),
            out@ == bytes@.take(i as int),
        decreases n - i,
    {
        out.push(bytes[i]);
        proof {
            assert(bytes@.take(i + 1) =~= bytes@.take(i as int).push(bytes@[i as int]));
        }
        i += 1;
    }
    out
}

fn short_stream_error(have: usize, want: usize) -> (r: String)
    ensures
        r@ == short_stream_message(have as nat, want as nat),
{
    let mut s = "decoded stream has ".to_owned();
    s.append(usize_to_string(have).as_str());
    s.append(" bytes but expected at least ");
    s.append(usize_to_string(want).as_str());
    s
}

fn number_message(before: &str, n: usize, after: &str) -> (r: String)
    ensures
        r@ == before@ + decimal_chars(n as nat) + after@,
{
    let mut s = before.to_owned();
    s.append(usize_to_string(n).as_str());
    s.append(after);
    s
}

/// Reads the samples of an image as `image_samples` describes.
#[verifier::rlimit(40)]
pub fn decode_image_samples(
    bytes: &[u8],
    width: usize,
    height: usize,
    components: usize,
    predictor: usize,
) -> (r: Result<Vec<u8>, String>)
    ensures
        result_view(r) == image_samples(bytes@, width, height, components, predictor),
{
    let row_len = match width.checked_mul(components) {
        Some(v) => v,
        None => return Err("image row size overflowed".to_owned()),
    };
    let expected = match row_len.checked_mul(height) {
        Some(v) => v,
        None => return Err("image size overflowed".to_owned()),
    };
    if predictor == 1 {
        if bytes.len() < expected {
            return Err(short_stream_error(bytes.len(), expected));
        }
        return Ok(copy_prefix(bytes, expected));
    }
    if !(10 <= predictor && predictor <= 15) {
        return Err(number_message("Predictor ", predictor, " is not supported"));
    }
    let encoded_row_len = match row_len.checked_add(1) {
        Some(v) => v,
        None => return Err("PNG predictor row size overflowed".to_owned()),
    };
    let expected_encoded = match encoded_row_len.checked_mul(height) {
        Some(v) => v,
        None => return Err("PNG predictor image size overflowed".to_owned()),
    };
    if bytes.len() < expected_encoded {
        return Err(short_stream_error(bytes.len(), expected_encoded));
    }
    let ghost b = bytes@;
    let ghost rl = row_len as int;
    let ghost comps = components as int;
    proof {
        assert(components == 0 ==> row_len == 0) by (nonlinear_arith)
            requires
                row_len == width * components,
        ;
    }
    let mut out: Vec<u8> = Vec::new();
    let mut y: usize = 0;
    let mut start: usize = 0;
    while y < height
        invariant
            y <= height,
            b == bytes@,
            rl == row_len,
            comps == components,
            encoded_row_len == row_len + 1,
            expected_encoded == encoded_row_len * height,
            expected_encoded <= bytes.len(),
            start == y * encoded_row_len,
            out@ == joined_rows(png_rows(b, rl, comps, y as int)),
            bad_filter_row(b, rl, height as int, 0) == bad_filter_row(b, rl, height as int, y as int),
            image_samples(bytes@, width, height, components, predictor) == png_samples(b, rl, comps, height as int),
            components == 0 ==> row_len == 0,
        decreases height - y,
    {
        proof {
            assert((y + 1) * encoded_row_len <= height * encoded_row_len) by (nonlinear_arith)
                requires
                    y + 1 <= height,
            ;
            assert((y + 1) * encoded_row_len == y * encoded_row_len + encoded_row_len) by (nonlinear_arith);
            assert(height * encoded_row_len == encoded_row_len * height) by (nonlinear_arith);
            lemma_rows_shape(b, rl, comps, y as int);
        }
        let filter = bytes[start];
        if row_len > 0 && filter > 4 {
            proof {
                assert(start == y * (rl + 1));
            }
            return Err(number_message("PNG row filter ", filter as usize, " is not supported"));
        }
        let ghost rows = png_rows(b, rl, comps, y as int);
        let ghost prev: Seq<u8> = if y > 0 {
            rows.last()
        } else {
            Seq::empty()
        };
        let base = out.len();
        proof {
            assert(base == y * rl);
            if y > 0 {
                assert(rows.drop_last().len() == y - 1);
                assert(joined_rows(rows) == joined_rows(rows.drop_last()) + rows.last());
                assert(out@.subrange(base - rl, base as int) =~= prev);
                assert(prev.len() == rl);
                assert(rl > 0 ==> base >= rl);
            }
        }
        let mut x: usize = 0;
        while x < row_len
            invariant
                x <= row_len,
                rl == row_len,
                comps == components,
                b == bytes@,
                out@.len() == base + x,
                start + 1 + row_len <= bytes.len(),
                filter == b[start as int],
                filter <= 4 || row_len == 0,
                components == 0 ==> row_len == 0,
                y > 0 ==> base >= row_len && out@.subrange(base - row_len, base as int) == prev,
                y > 0 ==> prev.len() == row_len,
                y == 0 ==> prev == Seq::<u8>::empty(),
                out@.subrange(base as int, base + x) == decode_row(b, start + 1, filter, prev, comps, x as int),
                out@.subrange(0, base as int) == joined_rows(rows),
            decreases row_len - x,
        {
            let ghost cur = out@.subrange(base as int, base + x);
            let left: u8 = if x >= components {
                out[out.len() - components]
            } else {
                0
            };
            let up: u8 = if y > 0 {
                out[out.len() - row_len]
            } else {
                0
            };
            let up_left: u8 = if y > 0 && x >= components {
                out[out.len() - row_len - components]
            } else {
                0
            };
            proof {
                if x >= components {
                    assert(left == cur[x - comps]);
                }
                if y > 0 {
                    assert(up == prev[x as int]);
                    if x >= components {
                        assert(up_left == prev[x - comps]);
                    }
                }
                assert(prev.len() > 0 <==> y > 0);
            }
            let p = predict(filter, left, up, up_left);
            let value = bytes[start + 1 + x].wrapping_add(p);
            let ghost before = out@;
            out.push(value);
            proof {
                assert(out@.subrange(base as int, base + x + 1) =~= cur.push(value));
                assert(out@.subrange(0, base as int) =~= before.subrange(0, base as int));
                if y > 0 {
                    assert(out@.subrange(base - row_len, base as int) =~= before.subrange(base - row_len, base as int));
                }
            }
            x += 1;
        }
        proof {
            assert(out@ =~= out@.subrange(0, base as int) + out@.subrange(base as int, base + row_len));
            let next = png_rows(b, rl, comps, y + 1);
            assert(next.drop_last() =~= rows);
            assert(start as int == (y + 1 - 1) * (rl + 1));
            if row_len > 0 {
                lemma_bad_filter_from(b, rl, height as int, y as int);
            }
        }
        start = start + encoded_row_len;
        y += 1;
    }
    Ok(out)
}

/// The object's text marks it as an image XObject.
pub open spec fn is_image_object(o: PdfObject) -> bool {
    contains_chars(o.body@, "/Subtype /Image"@)
}

/// The image objects that carry a stream, in document order.
pub open spec fn image_streams(objs: Seq<PdfObject>) -> Seq<PdfObject>
    decreases objs.len(),
{
    if objs.len() == 0 {
        Seq::empty()
    } else {
        let rest = image_streams(objs.drop_last());
        let o = objs.last();
        if is_image_object(o) && o.stream is Some {
            rest.push(o)
        } else {
            rest
        }
    }
}

/// An image XObject's payload: its position among the images, its object,
/// where its stream lies, the stream's length and its fingerprint.
#[derive(Debug, Clone, PartialEq, Eq)]
pub struct ImagePayload {
    pub index: usize,
    pub object_id: ObjectId,
    pub byte_range: ByteRange,
    pub byte_len: usize,
    pub hash: String,
}

/// `p` describes `o`, the image at position `index`.
pub open spec fn payload_is(p: ImagePayload, index: int, o: PdfObject) -> bool {
    &&& p.index == index
    &&& p.object_id == o.id
    &&& o.stream matches Some(s) && p.byte_range == s.byte_range && p.byte_len == s.bytes@.len() && p.hash@
        == hex_chars(fnv1a(s.bytes@) as nat, 16)
}

/// The payloads of a document's image XObjects, in document order.
pub fn image_payloads(document: &PdfDocument) -> (r: Vec<ImagePayload>)
    ensures
        r@.len() == image_streams(document.objects@).len(),
        forall|i: int| 0 <= i < r@.len() ==> payload_is(#[trigger] r@[i], i, image_streams(document.objects@)[i]),
{
    let objects = &document.objects;
    let mut out: Vec<ImagePayload> = Vec::new();
    let mut i: usize = 0;
    while i < objects.len()
        invariant
            i <= objects.len(),
            out@.len() == image_streams(objects@.take(i as int)).len(),
            forall|k: int| 0 <= k < out@.len() ==> payload_is(#[trigger] out@[k], k, image_streams(objects@.take(i as int))[k]),
        decreases objects.len() - i,
    {
        let ghost prefix = objects@.take(i as int);
        proof {
            assert(objects@.take(i + 1).drop_last() =~= prefix);
            assert(objects@.take(i + 1).last() == objects@[i as int]);
        }
        let object = &objects[i];
        let body = chars_of(object.body.as_str());
        if contains_text(&body, "/Subtype /Image") {
            match &object.stream {
                Some(stream) => {
                    let index = out.len();
                    let payload = ImagePayload {
                        index,
                        object_id: object.id,
                        byte_range: stream.byte_range,
                        byte_len: stream.bytes.len(),
                        hash: stable_hash(stream.bytes.as_slice()),
                    };
                    out.push(payload);
                    proof {
                        let next = image_streams(objects@.take(i + 1));
                        assert(next == image_streams(prefix).push(objects@[i as int]));
                        assert forall|k: int| 0 <= k < out@.len() implies payload_is(#[trigger] out@[k], k, next[k]) by {
                            if k < index {
                                assert(next[k] == image_streams(prefix)[k]);
                            }
                        }
                    }
                },
                None => {},
            }
        }
        i += 1;
    }
    proof {
        assert(objects@.take(objects.len() as int) =~= objects@);
    }
    out
}

/// Each gray sample repeated as a red, green and blue sample.
pub open spec fn gray_to_rgb(s: Seq<u8>) -> Seq<u8>
    decreases s.len(),
{
    if s.len() == 0 {
        Seq::empty()
    } else {
        gray_to_rgb(s.drop_last()) + seq![s.last(), s.last(), s.last()]
    }
}

/// The size and RGB pixels of an 8-bit RGB or gray image whose dictionary
/// text is `body` and whose decoded stream is `bytes`, or the reason it
/// cannot be read.
pub open spec fn ocr_pixels(body: Seq<char>, bytes: Seq<u8>) -> Result<(usize, usize, Seq<u8>), Seq<char>> {
    match usize_after_key(body, "Width"@) {
        None => Err("missing /Width"@),
        Some(w) => match usize_after_key(body, "Height"@) {
            None => Err("missing /Height"@),
            Some(h) => match usize_after_key(body, "BitsPerComponent"@) {
                None => Err("missing /BitsPerComponent"@),
                Some(bpc) => if bpc != 8 {
                    Err("BitsPerComponent "@ + decimal_chars(bpc as nat) + " is not supported"@)
                } else {
                    match report_value_after_key(body, "ColorSpace"@) {
                        None => Err("missing /ColorSpace"@),
                        Some(cs) => if cs != "DeviceRGB"@ && cs != "DeviceGray"@ {
                            Err("ColorSpace /"@ + cs + " is not supported"@)
                        } else {
                            let comps: int = if cs == "DeviceRGB"@ {
                                3
                            } else {
                                1
                            };
                            let columns = match usize_after_key(body, "Columns"@) {
                                Some(c) => c,
                                None => w,
                            };
                            let colors = match usize_after_key(body, "Colors"@) {
                                Some(c) => c,
                                None => comps,
                            };
                            if columns != w || colors != comps {
                                Err("DecodeParms columns/colors do not match image dimensions"@)
                            } else {
                                let predictor = match usize_after_key(body, "Predictor"@) {
                                    Some(p) => p,
                                    None => 1,
                                };
                                match image_samples(bytes, w as usize, h as usize, comps as usize, predictor as usize) {
                                    Err(e) => Err(e),
                                    Ok(samples) => Ok(
                                        (
                                            w as usize,
                                            h as usize,
                                            if comps == 3 {
                                                samples
                                            } else {
                                                gray_to_rgb(samples)
                                            },
                                        ),
                                    ),
                                }
                            }
                        },
                    }
                },
            },
        },
    }
}

/// An image read for OCR: its position among the images read, its object,
/// where its stream lies, its size, its pixels as RGB triples and their
/// fingerprint.
#[derive(Debug, Clone, PartialEq, Eq)]
pub struct OcrImage {
    pub index: usize,
    pub object_id: ObjectId,
    pub byte_range: ByteRange,
    pub width: usize,
    pub height: usize,
    pub pixels_rgb: Vec<u8>,
    pub hash: String,
}

/// What reading object `o` for OCR gives: nothing for an object without a
/// stream, an error for a stream left encoded, else the image as
/// `ocr_pixels` reads it.
pub open spec fn ocr_image_spec(index: usize, o: PdfObject) -> Result<Option<(usize, usize, Seq<u8>)>, Seq<char>> {
    match o.stream {
        None => Ok(None),
        Some(s) => if !s.decoded {
            Err("stream bytes were not decoded"@)
        } else {
            match ocr_pixels(o.body@, s.bytes@) {
                Err(e) => Err(e),
                Ok(p) => Ok(Some(p)),
            }
        },
    }
}

/// `img` is the image read from `o` at position `index` with size and
/// pixels `p`.
pub open spec fn ocr_image_is(img: OcrImage, index: usize, o: PdfObject, p: (usize, usize, Seq<u8>)) -> bool {
    &&& img.index == index
    &&& img.object_id == o.id
    &&& o.stream matches Some(s) && img.byte_range == s.byte_range
    &&& img.width == p.0
    &&& img.height == p.1
    &&& img.pixels_rgb@ == p.2
    &&& img.hash@ == hex_chars(fnv1a(p.2) as nat, 16)
}

fn gray_pixels(samples: &Vec<u8>) -> (r: Vec<u8>)
    ensures
        r@ == gray_to_rgb(samples@),
{
    let mut out: Vec<u8> = Vec::new();
    let mut i: usize = 0;
    while i < samples.len()
        invariant
            i <= samples.len(),
            out@ == gray_to_rgb(samples@.take(i as int)),
        decreases samples.len() - i,
    {
        proof {
            assert(samples@.take(i + 1).drop_last() =~= samples@.take(i as int));
        }
        let s = samples[i];
        out.push(s);
        out.push(s);
        out.push(s);
        proof {
            assert(out@ =~= gray_to_rgb(samples@.take(i as int)) + seq![s, s, s]);
        }
        i += 1;
    }
    proof {
        assert(samples@.take(samples.len() as int) =~= samples@);
    }
    out
}

fn missing(key: &str) -> (r: String)
    ensures
        r@ == "missing /"@ + key@,
{
    let mut s = "missing /".to_owned();
    s.append(key);
    s
}

/// Reads image object `object` for OCR as `ocr_image_spec` describes.
pub fn ocr_image_from_object(index: usize, object: &PdfObject) -> (r: Result<Option<OcrImage>, String>)
    ensures
        match ocr_image_spec(index, *object) {
            Ok(None) => r matches Ok(None),
            Ok(Some(p)) => r matches Ok(Some(img)) && ocr_image_is(img, index, *object, p),
            Err(e) => r matches Err(m) && m@ == e,
        },
{
    proof {
        reveal_strlit("missing /");
        reveal_strlit("Width");
        reveal_strlit("Height");
        reveal_strlit("BitsPerComponent");
        reveal_strlit("ColorSpace");
        reveal_strlit("missing /Width");
        reveal_strlit("missing /Height");
        reveal_strlit("missing /BitsPerComponent");
        reveal_strlit("missing /ColorSpace");
    }
    let stream = match &object.stream {
        None => return Ok(None),
        Some(s) => s,
    };
    if !stream.decoded {
        return Err("stream bytes were not decoded".to_owned());
    }
    let body = chars_of(object.body.as_str());
    let width = match pdf_usize_after_name(&body, "Width") {
        Some(v) => v,
        None => return Err(missing("Width")),
    };
    let height = match pdf_usize_after_name(&body, "Height") {
        Some(v) => v,
        None => return Err(missing("Height")),
    };
    let bits = match pdf_usize_after_name(&body, "BitsPerComponent") {
        Some(v) => v,
        None => return Err(missing("BitsPerComponent")),
    };
    if bits != 8 {
        return Err(number_message("BitsPerComponent ", bits, " is not supported"));
    }
    let color_space = match report_value_after_name(&body, "ColorSpace") {
        Some(v) => v,
        None => return Err(missing("ColorSpace")),
    };
    let components: usize = if equals_text(&color_space, "DeviceRGB") {
        3
    } else if equals_text(&color_space, "DeviceGray") {
        1
    } else {
        let mut m = "ColorSpace /".to_owned();
        m.append(string_of(color_space.as_slice()).as_str());
        m.append(" is not supported");
        return Err(m);
    };
    let columns = match pdf_usize_after_name(&body, "Columns") {
        Some(c) => c,
        None => width,
    };
    let colors = match pdf_usize_after_name(&body, "Colors") {
        Some(c) => c,
        None => components,
    };
    if columns != width || colors != components {
        return Err("DecodeParms columns/colors do not match image dimensions".to_owned());
    }
    let predictor = match pdf_usize_after_name(&body, "Predictor") {
        Some(p) => p,
        None => 1,
    };
    let samples = match decode_image_samples(stream.bytes.as_slice(), width, height, components, predictor) {
        Ok(s) => s,
        Err(e) => return Err(e),
    };
    let pixels_rgb = if components == 3 {
        samples
    } else {
        gray_pixels(&samples)
    };
    let hash = stable_hash(pixels_rgb.as_slice());
    Ok(Some(OcrImage { index, object_id: object.id, byte_range: stream.byte_range, width, height, pixels_rgb, hash }))
}


/// The objects that the `/SMask` entries of `objs` refer to, in order.
pub open spec fn soft_mask_ids(objs: Seq<PdfObject>) -> Seq<ObjectId>
    decreases objs.len(),
{
    if objs.len() == 0 {
        Seq::empty()
    } else {
        let rest = soft_mask_ids(objs.drop_last());
        match reference_after_key_spec(objs.last().body@, "SMask"@) {
            Some(id) => rest.push(id),
            None => rest,
        }
    }
}

/// The objects that serve as soft masks of images.
pub fn soft_mask_object_ids(document: &PdfDocument) -> (r: Vec<ObjectId>)
    ensures
        r@ == soft_mask_ids(document.objects@),
{
    let objects = &document.objects;
    let mut out: Vec<ObjectId> = Vec::new();
    let mut i: usize = 0;
    while i < objects.len()
        invariant
            i <= objects.len(),
            out@ == soft_mask_ids(objects@.take(i as int)),
        decreases objects.len() - i,
    {
        proof {
            assert(objects@.take(i + 1).drop_last() =~= objects@.take(i as int));
            assert(objects@.take(i + 1).last() == objects@[i as int]);
        }
        let body = chars_of(objects[i].body.as_str());
        match reference_after_key(&body, "SMask") {
            Some(id) => out.push(id),
            None => {},
        }
        i += 1;
    }
    proof {
        assert(objects@.take(objects.len() as int) =~= objects@);
    }
    out
}

/// The warning for an image that OCR cannot read.
pub open spec fn ocr_unsupported(o: PdfObject, reason: Seq<char>) -> DiagView {
    DiagView {
        severity: DiagnosticSeverity::Warning,
        code: "OCR_IMAGE_UNSUPPORTED"@,
        message: "image XObject "@ + decimal_chars(o.id.number as nat) + " 0 R is not supported for OCR extraction: "@
            + reason,
        object: None,
        page_index: None,
    }
}

/// The images that OCR reads from `objs` (each with its object, size and
/// pixels) and the warnings for those it cannot read; soft masks in
/// `masks` are passed over.
pub open spec fn ocr_scan(objs: Seq<PdfObject>, masks: Seq<ObjectId>) -> (Seq<(PdfObject, (usize, usize, Seq<u8>))>, Seq<DiagView>)
    decreases objs.len(),
{
    if objs.len() == 0 {
        (Seq::empty(), Seq::empty())
    } else {
        let (imgs, diags) = ocr_scan(objs.drop_last(), masks);
        let o = objs.last();
        if !is_image_object(o) || masks.contains(o.id) {
            (imgs, diags)
        } else {
            match ocr_image_spec(imgs.len() as usize, o) {
                Ok(None) => (imgs, diags),
                Ok(Some(p)) => (imgs.push((o, p)), diags),
                Err(e) => (imgs, diags.push(ocr_unsupported(o, e))),
            }
        }
    }
}

fn contains_id(ids: &Vec<ObjectId>, id: ObjectId) -> (r: bool)
    ensures
        r == ids@.contains(id),
{
    let mut i: usize = 0;
    while i < ids.len()
        invariant
            i <= ids.len(),
            forall|k: int| 0 <= k < i ==> ids@[k] != id,
        decreases ids.len() - i,
    {
        if ids[i].number == id.number && ids[i].generation == id.generation {
            proof {
                assert(ids@[i as int] == id);
            }
            return true;
        }
        i += 1;
    }
    false
}

/// The images of a document that OCR can read; a warning is added to
/// `diagnostics` for each image that it cannot.
pub fn ocr_images(document: &PdfDocument, diagnostics: &mut Vec<Diagnostic>) -> (r: Vec<OcrImage>)
    ensures
        r@.len() == ocr_scan(document.objects@, soft_mask_ids(document.objects@)).0.len(),
        forall|i: int|
            0 <= i < r@.len() ==> {
                let e = #[trigger] ocr_scan(document.objects@, soft_mask_ids(document.objects@)).0[i];
                ocr_image_is(r@[i], i as usize, e.0, e.1)
            },
        diag_views(final(diagnostics)@) == diag_views(old(diagnostics)@) + ocr_scan(
            document.objects@,
            soft_mask_ids(document.objects@),
        ).1,
{
    let masks = soft_mask_object_ids(document);
    let objects = &document.objects;
    let ghost start = diag_views(diagnostics@);
    let mut images: Vec<OcrImage> = Vec::new();
    let mut i: usize = 0;
    proof {
        assert(diag_views(diagnostics@) =~= start + Seq::<DiagView>::empty());
    }
    while i < objects.len()
        invariant
            i <= objects.len(),
            masks@ == soft_mask_ids(objects@),
            images@.len() == ocr_scan(objects@.take(i as int), masks@).0.len(),
            forall|k: int|
                0 <= k < images@.len() ==> {
                    let e = #[trigger] ocr_scan(objects@.take(i as int), masks@).0[k];
                    ocr_image_is(images@[k], k as usize, e.0, e.1)
                },
            diag_views(diagnostics@) == start + ocr_scan(objects@.take(i as int), masks@).1,
        decreases objects.len() - i,
    {
        let ghost prefix = objects@.take(i as int);
        let ghost before = ocr_scan(prefix, masks@);
        proof {
            assert(objects@.take(i + 1).drop_last() =~= prefix);
            assert(objects@.take(i + 1).last() == objects@[i as int]);
        }
        let object = &objects[i];
        let body = chars_of(object.body.as_str());
        if contains_text(&body, "/Subtype /Image") && !contains_id(&masks, object.id) {
            let index = images.len();
            match ocr_image_from_object(index, object) {
                Ok(Some(image)) => {
                    images.push(image);
                    proof {
                        let next = ocr_scan(objects@.take(i + 1), masks@).0;
                        assert(next == before.0.push((objects@[i as int], next.last().1)));
                        assert forall|k: int| 0 <= k < images@.len() implies {
                            let e = #[trigger] next[k];
                            ocr_image_is(images@[k], k as usize, e.0, e.1)
                        } by {
                            if k < index {
                                assert(next[k] == before.0[k]);
                            }
                        }
                    }
                },
                Ok(None) => {},
                Err(message) => {
                    let mut text = "image XObject ".to_owned();
                    text.append(u64_to_decimal(object.id.number as u64).as_str());
                    text.append(" 0 R is not supported for OCR extraction: ");
                    text.append(message.as_str());
                    let d = Diagnostic::warning("OCR_IMAGE_UNSUPPORTED", text.as_str());
                    let ghost old_diags = diag_views(diagnostics@);
                    diagnostics.push(d);
                    proof {
                        assert(diag_views(diagnostics@) =~= old_diags.push(d.view()));
                        assert(d.view() == ocr_unsupported(objects@[i as int], message@));
                        assert(diag_views(diagnostics@) =~= start + ocr_scan(objects@.take(i + 1), masks@).1);
                    }
                },
            }
        }
        i += 1;
    }
    proof {
        assert(objects@.take(objects.len() as int) =~= objects@);
    }
    images
}

/// What running OCR on one image gave: its text, no OCR engine at all, or
/// the engine's failure.
#[derive(Debug, Clone, PartialEq, Eq)]
pub enum OcrOutcome {
    Text(String),
    EngineMissing,
    Failed(String),
}

/// What follows from one OCR outcome: nothing (no text), a text run with
/// an informational diagnostic, the end of OCR for the document, or a
/// warning.
#[derive(Debug, Clone, PartialEq, Eq)]
pub enum OcrAction {
    Skip,
    Accept { text: String, diagnostic: Diagnostic },
    Stop,
    Warn(Diagnostic),
}

/// Decides what an OCR outcome for the image in object `object_id` leads to:
/// whitespace-normalized text, if any is left, becomes a run; a missing
/// engine ends OCR; a failure is reported.
pub fn ocr_step(object_id: ObjectId, outcome: &OcrOutcome) -> (r: OcrAction)
    ensures
        match *outcome {
            OcrOutcome::Text(t) => if normalized(t@).len() == 0 {
                r is Skip
            } else {
                r matches OcrAction::Accept { text, diagnostic } && text@ == normalized(t@) && diagnostic.view() == DiagView {
                    severity: DiagnosticSeverity::Info,
                    code: "OCR_TEXT_EXTRACTED"@,
                    message: "extracted OCR text from image XObject "@ + decimal_chars(object_id.number as nat) + " 0 R"@,
                    object: None,
                    page_index: None,
                }
            },
            OcrOutcome::EngineMissing => r is Stop,
            OcrOutcome::Failed(e) => r matches OcrAction::Warn(d) && d.view() == DiagView {
                severity: DiagnosticSeverity::Warning,
                code: "OCR_ENGINE_FAILED"@,
                message: "OCR engine failed for image XObject "@ + decimal_chars(object_id.number as nat) + " 0 R: "@ + e@,
                object: None,
                page_index: None,
            },
        },
{
    match outcome {
        OcrOutcome::Text(t) => {
            let text = normalize_text(t.as_str());
            if text.as_str().is_empty() {
                return OcrAction::Skip;
            }
            let mut m = "extracted OCR text from image XObject ".to_owned();
            m.append(u64_to_decimal(object_id.number as u64).as_str());
            m.append(" 0 R");
            let diagnostic = Diagnostic::info("OCR_TEXT_EXTRACTED", m.as_str());
            OcrAction::Accept { text, diagnostic }
        },
        OcrOutcome::EngineMissing => OcrAction::Stop,
        OcrOutcome::Failed(e) => {
            let mut m = "OCR engine failed for image XObject ".to_owned();
            m.append(u64_to_decimal(object_id.number as u64).as_str());
            m.append(" 0 R: ");
            m.append(e.as_str());
            OcrAction::Warn(Diagnostic::warning("OCR_ENGINE_FAILED", m.as_str()))
        },
    }
}

} // verus!
