//! Canonical text signatures of primitives, used to record a stream's
//! decode parameters, and the stream metadata read from its dictionary.
use vstd::prelude::*;
use crate::fmt::{decimal_chars, signed_decimal, hex_chars, hex_digits, i64_to_decimal, usize_to_string};
use crate::primitive::{PdfPrimitive, PrimitiveView, dict_lookup, dictionary_value, lemma_deep_seq_index,
    lemma_deep_seq_len, lemma_deep_entries_index, lemma_deep_entries_len, deep_seq, deep_entries};
use crate::utf8text::{utf8, utf8_lossy, lossy_string};

verus! {

/// FNV-1a offset basis and prime (64-bit).
pub const FNV_OFFSET: u64 = 0xcbf2_9ce4_8422_2325u64;
pub const FNV_PRIME: u64 = 0x0000_0100_0000_01b3u64;

/// 64-bit FNV-1a hash of `bytes`.
pub open spec fn fnv1a(bytes: Seq<u8>) -> u64
    decreases bytes.len(),
{
    if bytes.len() == 0 {
        FNV_OFFSET
    } else {
        (fnv1a(bytes.drop_last()) ^ (bytes.last() as u64)).wrapping_mul(FNV_PRIME)
    }
}

/// The FNV-1a hash of `bytes` as sixteen lower-case hexadecimal digits.
pub fn stable_hash(bytes: &[u8]) -> (s: String)
    ensures
        s@ == hex_chars(fnv1a(bytes@) as nat, 16),
{
    let mut hash: u64 = FNV_OFFSET;
    let mut i: usize = 0;
    while i < bytes.len()
        invariant
            i <= bytes.len(),
            hash == fnv1a(bytes@.take(i as int)),
        decreases bytes.len() - i,
    {
        proof {
            assert(bytes@.take(i + 1).drop_last() =~= bytes@.take(i as int));
        }
        hash = (hash ^ (bytes[i] as u64)).wrapping_mul(FNV_PRIME);
        i += 1;
    }
    proof {
        assert(bytes@.take(bytes.len() as int) =~= bytes@);
    }
    hex_digits(hash, 16)
}

/// Canonical signature of a primitive. Strings are replaced by the hash of
/// their bytes; a real number is written as its token.
pub open spec fn sig(v: PrimitiveView) -> Seq<char>
    decreases v,
{
    match v {
        PrimitiveView::Null => "null"@,
        PrimitiveView::Boolean(b) => if b { "true"@ } else { "false"@ },
        PrimitiveView::Integer(i) => signed_decimal(i as int),
        PrimitiveView::Real(t) => utf8_lossy(t),
        PrimitiveView::Name(n) => "/"@ + utf8_lossy(n),
        PrimitiveView::LiteralString(b) => "("@ + hex_chars(fnv1a(b) as nat, 16) + ")"@,
        PrimitiveView::HexString(b) => "<"@ + hex_chars(fnv1a(b) as nat, 16) + ">"@,
        PrimitiveView::Reference(id) => decimal_chars(id.number as nat) + " "@ + decimal_chars(
            id.generation as nat,
        ) + " R"@,
        PrimitiveView::Array(items) => "["@ + sig_items(items) + "]"@,
        PrimitiveView::Dictionary(entries) => "<<"@ + sig_entries(entries) + ">>"@,
    }
}

/// Signatures of `items`, separated by single spaces.
pub open spec fn sig_items(items: Seq<PrimitiveView>) -> Seq<char>
    decreases items,
{
    if items.len() == 0 {
        Seq::empty()
    } else if items.len() == 1 {
        sig(items[0])
    } else {
        sig_items(items.subrange(0, items.len() - 1)) + " "@ + sig(items[items.len() - 1])
    }
}

/// `/key signature` for each entry, separated by single spaces.
pub open spec fn sig_entries(entries: Seq<(Seq<u8>, PrimitiveView)>) -> Seq<char>
    decreases entries,
{
    if entries.len() == 0 {
        Seq::empty()
    } else if entries.len() == 1 {
        "/"@ + utf8_lossy(entries[0].0) + " "@ + sig(entries[0].1)
    } else {
        sig_entries(entries.subrange(0, entries.len() - 1)) + " "@ + ("/"@ + utf8_lossy(
            entries[entries.len() - 1].0,
        ) + " "@ + sig(entries[entries.len() - 1].1))
    }
}

pub open spec fn sig_entry(key: Seq<u8>, value: PrimitiveView) -> Seq<char> {
    "/"@ + utf8_lossy(key) + " "@ + sig(value)
}

/// Signature of a primitive (see [`sig`]).
pub fn primitive_signature(value: &PdfPrimitive) -> (s: String)
    ensures
        s@ == sig(value.deep()),
    decreases value, 0nat,
{
    match value {
        PdfPrimitive::Null => "null".to_owned(),
        PdfPrimitive::Boolean(b) => if *b {
            "true".to_owned()
        } else {
            "false".to_owned()
        },
        PdfPrimitive::Integer(i) => i64_to_decimal(*i),
        PdfPrimitive::Real(token) => lossy_string(token.as_slice()),
        PdfPrimitive::Name(name) => {
            let mut s = "/".to_owned();
            s.append(lossy_string(name.as_slice()).as_str());
            s
        },
        PdfPrimitive::LiteralString(bytes) => {
            let mut s = "(".to_owned();
            s.append(stable_hash(bytes.as_slice()).as_str());
            s.append(")");
            s
        },
        PdfPrimitive::HexString(bytes) => {
            let mut s = "<".to_owned();
            s.append(stable_hash(bytes.as_slice()).as_str());
            s.append(">");
            s
        },
        PdfPrimitive::Reference(id) => {
            let mut s = usize_to_string(id.number as usize);
            s.append(" ");
            s.append(usize_to_string(id.generation as usize).as_str());
            s.append(" R");
            s
        },
        PdfPrimitive::Array(items) => {
            let ghost view = deep_seq(items@);
            proof {
                lemma_deep_seq_len(items@);
            }
            let mut inner = String::new();
            let mut i: usize = 0;
            while i < items.len()
                invariant
                    i <= items.len(),
                    view == deep_seq(items@),
                    view.len() == items.len(),
                    *value == PdfPrimitive::Array(*items),
                    inner@ == sig_items(view.subrange(0, i as int)),
                decreases items.len() - i,
            {
                proof {
                    lemma_deep_seq_index(items@, i as int);
                    assert(decreases_to!(*value => (*value)->Array_0));
                    assert(decreases_to!(items => items@));
                    assert(decreases_to!(items@ => items@[i as int]));
                }
                let item = primitive_signature(&items[i]);
                if i > 0 {
                    inner.append(" ");
                }
                inner.append(item.as_str());
                proof {
                    let next = view.subrange(0, i + 1);
                    assert(next.subrange(0, next.len() - 1) =~= view.subrange(0, i as int));
                    assert(next[next.len() - 1] == view[i as int]);
                    if i == 0 {
                        assert(next.len() == 1);
                        assert(next[0] == view[0]);
                    }
                }
                i += 1;
            }
            proof {
                assert(view.subrange(0, items.len() as int) =~= view);
            }
            let mut s = "[".to_owned();
            s.append(inner.as_str());
            s.append("]");
            s
        },
        PdfPrimitive::Dictionary(entries) => {
            let ghost view = deep_entries(entries@);
            proof {
                lemma_deep_entries_len(entries@);
            }
            let mut inner = String::new();
            let mut i: usize = 0;
            while i < entries.len()
                invariant
                    i <= entries.len(),
                    view == deep_entries(entries@),
                    view.len() == entries.len(),
                    *value == PdfPrimitive::Dictionary(*entries),
                    inner@ == sig_entries(view.subrange(0, i as int)),
                decreases entries.len() - i,
            {
                proof {
                    lemma_deep_entries_index(entries@, i as int);
                    assert(decreases_to!(*value => (*value)->Dictionary_0));
                    assert(decreases_to!(entries => entries@));
                    assert(decreases_to!(entries@ => entries@[i as int]));
                    assert(decreases_to!(entries@[i as int] => entries@[i as int].1));
                }
                let entry = entry_signature(&entries[i].0, &entries[i].1);
                if i > 0 {
                    inner.append(" ");
                }
                inner.append(entry.as_str());
                proof {
                    let next = view.subrange(0, i + 1);
                    assert(next.subrange(0, next.len() - 1) =~= view.subrange(0, i as int));
                    assert(next[next.len() - 1] == view[i as int]);
                    if i == 0 {
                        assert(next.len() == 1);
                        assert(next[0] == view[0]);
                    }
                }
                i += 1;
            }
            proof {
                assert(view.subrange(0, entries.len() as int) =~= view);
            }
            let mut s = "<<".to_owned();
            s.append(inner.as_str());
            s.append(">>");
            s
        },
    }
}

fn entry_signature(key: &Vec<u8>, value: &PdfPrimitive) -> (s: String)
    ensures
        s@ == sig_entry(key@, value.deep()),
    decreases value, 1nat,
{
    let mut s = "/".to_owned();
    s.append(lossy_string(key.as_slice()).as_str());
    s.append(" ");
    s.append(primitive_signature(value).as_str());
    s
}

/// The names among `items`, decoded as text, in order.
pub open spec fn names_of(items: Seq<PrimitiveView>) -> Seq<Seq<char>>
    decreases items.len(),
{
    if items.len() == 0 {
        Seq::empty()
    } else {
        let rest = names_of(items.drop_last());
        match items.last() {
            PrimitiveView::Name(n) => rest.push(utf8_lossy(n)),
            _ => rest,
        }
    }
}

/// The filter chain a stream dictionary declares in `/Filter`: one name, or
/// the names of an array (other entries are skipped).
pub open spec fn filters_spec(v: PrimitiveView) -> Seq<Seq<char>> {
    match dict_lookup(v, utf8("Filter")) {
        Some(PrimitiveView::Name(n)) => seq![utf8_lossy(n)],
        Some(PrimitiveView::Array(items)) => names_of(items),
        _ => Seq::empty(),
    }
}

/// The text of each string.
pub open spec fn texts(v: Seq<String>) -> Seq<Seq<char>> {
    v.map_values(|f: String| f@)
}

/// Reads the `/Filter` chain of a stream dictionary.
pub fn stream_filters_from_primitive(value: &PdfPrimitive) -> (r: Vec<String>)
    ensures
        texts(r@) == filters_spec(value.deep()),
{
    match dictionary_value(value, "Filter".as_bytes()) {
        Some(PdfPrimitive::Name(name)) => {
            let mut out = Vec::new();
            out.push(lossy_string(name.as_slice()));
            proof {
                assert(texts(out@) =~= seq![utf8_lossy(name@)]);
            }
            out
        },
        Some(PdfPrimitive::Array(items)) => {
            let ghost view = deep_seq(items@);
            proof {
                lemma_deep_seq_len(items@);
            }
            let mut out: Vec<String> = Vec::new();
            let mut i: usize = 0;
            while i < items.len()
                invariant
                    i <= items.len(),
                    view == deep_seq(items@),
                    view.len() == items.len(),
                    texts(out@) == names_of(view.take(i as int)),
                decreases items.len() - i,
            {
                proof {
                    lemma_deep_seq_index(items@, i as int);
                    assert(view.take(i + 1).drop_last() =~= view.take(i as int));
                }
                if let PdfPrimitive::Name(name) = &items[i] {
                    out.push(lossy_string(name.as_slice()));
                    proof {
                        assert(texts(out@) =~= names_of(view.take(i as int)).push(utf8_lossy(name@)));
                    }
                }
                i += 1;
            }
            proof {
                assert(view.take(items.len() as int) =~= view);
            }
            out
        },
        _ => Vec::new(),
    }
}

/// Signature of one decode-parameter entry; `null` stands for "no parameters".
pub open spec fn param_sig(v: PrimitiveView) -> Option<Seq<char>> {
    match v {
        PrimitiveView::Null => None,
        _ => Some(sig(v)),
    }
}

/// The text of an optional string.
pub open spec fn opt_text(o: Option<String>) -> Option<Seq<char>> {
    match o {
        Some(s) => Some(s@),
        None => None,
    }
}

pub fn decode_param_signature(value: &PdfPrimitive) -> (r: Option<String>)
    ensures
        opt_text(r) == param_sig(value.deep()),
{
    match value {
        PdfPrimitive::Null => None,
        _ => Some(primitive_signature(value)),
    }
}

/// `/DecodeParms`, or its abbreviation `/DP` when it is absent.
pub open spec fn params_lookup(v: PrimitiveView) -> Option<PrimitiveView> {
    match dict_lookup(v, utf8("DecodeParms")) {
        Some(p) => Some(p),
        None => dict_lookup(v, utf8("DP")),
    }
}

/// The decode parameters of a stream: one signature per array entry, or a
/// single one for a non-array value.
pub open spec fn decode_params_spec(v: PrimitiveView) -> Seq<Option<Seq<char>>> {
    match params_lookup(v) {
        Some(PrimitiveView::Array(items)) => items.map_values(|x: PrimitiveView| param_sig(x)),
        Some(x) => seq![param_sig(x)],
        None => Seq::empty(),
    }
}

/// Reads the decode parameters of a stream dictionary.
pub fn decode_params_from_primitive(value: &PdfPrimitive) -> (r: Vec<Option<String>>)
    ensures
        r@.map_values(|o: Option<String>| opt_text(o)) == decode_params_spec(value.deep()),
{
    let found = match dictionary_value(value, "DecodeParms".as_bytes()) {
        Some(p) => Some(p),
        None => dictionary_value(value, "DP".as_bytes()),
    };
    match found {
        Some(PdfPrimitive::Array(items)) => {
            let ghost view = deep_seq(items@);
            proof {
                lemma_deep_seq_len(items@);
            }
            let mut out: Vec<Option<String>> = Vec::new();
            let mut i: usize = 0;
            while i < items.len()
                invariant
                    i <= items.len(),
                    view == deep_seq(items@),
                    view.len() == items.len(),
                    out@.len() == i,
                    forall|k: int| 0 <= k < i ==> opt_text(#[trigger] out@[k]) == param_sig(view[k]),
                decreases items.len() - i,
            {
                proof {
                    lemma_deep_seq_index(items@, i as int);
                }
                out.push(decode_param_signature(&items[i]));
                i += 1;
            }
            proof {
                assert(out@.map_values(|o: Option<String>| opt_text(o)) =~= view.map_values(
                    |x: PrimitiveView| param_sig(x),
                ));
            }
            out
        },
        Some(other) => {
            let mut out = Vec::new();
            out.push(decode_param_signature(other));
            proof {
                assert(out@.map_values(|o: Option<String>| opt_text(o)) =~= seq![param_sig(other.deep())]);
            }
            out
        },
        None => Vec::new(),
    }
}

/// The declared `/Length` of a stream, when it is a non-negative integer.
pub open spec fn length_spec(v: PrimitiveView) -> Option<usize> {
    match dict_lookup(v, utf8("Length")) {
        Some(PrimitiveView::Integer(l)) => if 0 <= l <= usize::MAX {
            Some(l as usize)
        } else {
            None
        },
        _ => None,
    }
}

pub fn stream_length_from_primitive(value: &PdfPrimitive) -> (r: Option<usize>)
    ensures
        r == length_spec(value.deep()),
{
    match dictionary_value(value, "Length".as_bytes()) {
        Some(PdfPrimitive::Integer(length)) => {
            if *length >= 0 && (*length as u64) <= (usize::MAX as u64) {
                Some(*length as usize)
            } else {
                None
            }
        },
        _ => None,
    }
}

} // verus!
