//! Writing primitives back as PDF syntax, and the document's object records.
use vstd::prelude::*;
use crate::fmt::{decimal_chars, signed_decimal, hex_chars, hex_digits, i64_to_decimal, usize_to_string};
use crate::primitive::{PdfPrimitive, PrimitiveView, deep_seq, deep_entries, lemma_deep_seq_index,
    lemma_deep_seq_len, lemma_deep_entries_index, lemma_deep_entries_len};
use crate::utf8text::{utf8_lossy, lossy_string};

verus! {

/// Two lower-case hexadecimal digits per byte.
pub open spec fn hex_bytes(b: Seq<u8>) -> Seq<char>
    decreases b.len(),
{
    if b.len() == 0 {
        Seq::empty()
    } else {
        hex_bytes(b.drop_last()) + hex_chars(b.last() as nat, 2)
    }
}

/// A primitive written as PDF syntax: names and strings are written as their
/// text, a real number as its token, a dictionary as `<< /k v ... >>`.
pub open spec fn pdf_syntax(v: PrimitiveView) -> Seq<char>
    decreases v,
{
    match v {
        PrimitiveView::Null => "null"@,
        PrimitiveView::Boolean(b) => if b { "true"@ } else { "false"@ },
        PrimitiveView::Integer(i) => signed_decimal(i as int),
        PrimitiveView::Real(t) => utf8_lossy(t),
        PrimitiveView::Name(n) => "/"@ + utf8_lossy(n),
        PrimitiveView::LiteralString(b) => "("@ + utf8_lossy(b) + ")"@,
        PrimitiveView::HexString(b) => "<"@ + hex_bytes(b) + ">"@,
        PrimitiveView::Reference(id) => decimal_chars(id.number as nat) + " "@ + decimal_chars(
            id.generation as nat,
        ) + " R"@,
        PrimitiveView::Array(items) => "["@ + syntax_items(items) + "]"@,
        PrimitiveView::Dictionary(entries) => "<< "@ + syntax_entries(entries) + " >>"@,
    }
}

pub open spec fn syntax_items(items: Seq<PrimitiveView>) -> Seq<char>
    decreases items,
{
    if items.len() == 0 {
        Seq::empty()
    } else if items.len() == 1 {
        pdf_syntax(items[0])
    } else {
        syntax_items(items.subrange(0, items.len() - 1)) + " "@ + pdf_syntax(items[items.len() - 1])
    }
}

pub open spec fn syntax_entries(entries: Seq<(Seq<u8>, PrimitiveView)>) -> Seq<char>
    decreases entries,
{
    if entries.len() == 0 {
        Seq::empty()
    } else if entries.len() == 1 {
        "/"@ + utf8_lossy(entries[0].0) + " "@ + pdf_syntax(entries[0].1)
    } else {
        syntax_entries(entries.subrange(0, entries.len() - 1)) + " "@ + ("/"@ + utf8_lossy(
            entries[entries.len() - 1].0,
        ) + " "@ + pdf_syntax(entries[entries.len() - 1].1))
    }
}

pub open spec fn syntax_entry(key: Seq<u8>, value: PrimitiveView) -> Seq<char> {
    "/"@ + utf8_lossy(key) + " "@ + pdf_syntax(value)
}

fn hex_string_syntax(bytes: &Vec<u8>) -> (s: String)
    ensures
        s@ == hex_bytes(bytes@),
{
    let mut out = String::new();
    let mut i: usize = 0;
    while i < bytes.len()
        invariant
            i <= bytes.len(),
            out@ == hex_bytes(bytes@.take(i as int)),
        decreases bytes.len() - i,
    {
        let pair = hex_digits(bytes[i] as u64, 2);
        out.append(pair.as_str());
        proof {
            assert(bytes@.take(i + 1).drop_last() =~= bytes@.take(i as int));
        }
        i += 1;
    }
    proof {
        assert(bytes@.take(bytes.len() as int) =~= bytes@);
    }
    out
}

/// Writes a primitive as PDF syntax (see [`pdf_syntax`]).
pub fn primitive_to_pdf_syntax(value: &PdfPrimitive) -> (s: String)
    ensures
        s@ == pdf_syntax(value.deep()),
    decreases value, 0nat,
{
    match value {
        PdfPrimitive::Null => "null".to_owned(),
        PdfPrimitive::Boolean(b) => if *b {
            "true".to_owned()
        } else {
            "false".to_owned()
        },
        PdfPrimitive::Integer(i) => i64_to_decimal(*i),
        PdfPrimitive::Real(token) => lossy_string(token.as_slice()),
        PdfPrimitive::Name(name) => {
            let mut s = "/".to_owned();
            s.append(lossy_string(name.as_slice()).as_str());
            s
        },
        PdfPrimitive::LiteralString(bytes) => {
            let mut s = "(".to_owned();
            s.append(lossy_string(bytes.as_slice()).as_str());
            s.append(")");
            s
        },
        PdfPrimitive::HexString(bytes) => {
            let mut s = "<".to_owned();
            s.append(hex_string_syntax(bytes).as_str());
            s.append(">");
            s
        },
        PdfPrimitive::Reference(id) => {
            let mut s = usize_to_string(id.number as usize);
            s.append(" ");
            s.append(usize_to_string(id.generation as usize).as_str());
            s.append(" R");
            s
        },
        PdfPrimitive::Array(items) => {
            let ghost view = deep_seq(items@);
            proof {
                lemma_deep_seq_len(items@);
            }
            let mut inner = String::new();
            let mut i: usize = 0;
            while i < items.len()
                invariant
                    i <= items.len(),
                    view == deep_seq(items@),
                    view.len() == items.len(),
                    *value == PdfPrimitive::Array(*items),
                    inner@ == syntax_items(view.subrange(0, i as int)),
                decreases items.len() - i,
            {
                proof {
                    lemma_deep_seq_index(items@, i as int);
                    assert(decreases_to!(*value => (*value)->Array_0));
                    assert(decreases_to!(items => items@));
                    assert(decreases_to!(items@ => items@[i as int]));
                }
                let item = primitive_to_pdf_syntax(&items[i]);
                if i > 0 {
                    inner.append(" ");
                }
                inner.append(item.as_str());
                proof {
                    let next = view.subrange(0, i + 1);
                    assert(next.subrange(0, next.len() - 1) =~= view.subrange(0, i as int));
                    assert(next[next.len() - 1] == view[i as int]);
                    if i == 0 {
                        assert(next.len() == 1);
                        assert(next[0] == view[0]);
                    }
                }
                i += 1;
            }
            proof {
                assert(view.subrange(0, items.len() as int) =~= view);
            }
            let mut s = "[".to_owned();
            s.append(inner.as_str());
            s.append("]");
            s
        },
        PdfPrimitive::Dictionary(entries) => {
            let ghost view = deep_entries(entries@);
            proof {
                lemma_deep_entries_len(entries@);
            }
            let mut inner = String::new();
            let mut i: usize = 0;
            while i < entries.len()
                invariant
                    i <= entries.len(),
                    view == deep_entries(entries@),
                    view.len() == entries.len(),
                    *value == PdfPrimitive::Dictionary(*entries),
                    inner@ == syntax_entries(view.subrange(0, i as int)),
                decreases entries.len() - i,
            {
                proof {
                    lemma_deep_entries_index(entries@, i as int);
                    assert(decreases_to!(*value => (*value)->Dictionary_0));
                    assert(decreases_to!(entries => entries@));
                    assert(decreases_to!(entries@ => entries@[i as int]));
                    assert(decreases_to!(entries@[i as int] => entries@[i as int].1));
                }
                let entry = entry_syntax(&entries[i].0, &entries[i].1);
                if i > 0 {
                    inner.append(" ");
                }
                inner.append(entry.as_str());
                proof {
                    let next = view.subrange(0, i + 1);
                    assert(next.subrange(0, next.len() - 1) =~= view.subrange(0, i as int));
                    assert(next[next.len() - 1] == view[i as int]);
                    if i == 0 {
                        assert(next.len() == 1);
                        assert(next[0] == view[0]);
                    }
                }
                i += 1;
            }
            proof {
                assert(view.subrange(0, entries.len() as int) =~= view);
            }
            let mut s = "<< ".to_owned();
            s.append(inner.as_str());
            s.append(" >>");
            s
        },
    }
}

fn entry_syntax(key: &Vec<u8>, value: &PdfPrimitive) -> (s: String)
    ensures
        s@ == syntax_entry(key@, value.deep()),
    decreases value, 1nat,
{
    let mut s = "/".to_owned();
    s.append(lossy_string(key.as_slice()).as_str());
    s.append(" ");
    s.append(primitive_to_pdf_syntax(value).as_str());
    s
}

} // verus!
