//! A synthetic many-page text document, written out as PDF bytes for
//! benchmarks: one catalog, one page tree and, for each page, a page object
//! and a content stream that shows one line of text.
use vstd::prelude::*;
use crate::fmt::{decimal_chars, usize_to_string};
use vstd::string::StringSliceAdditionalSpecFns;
use vstd::utf8::encode_utf8;

verus! {

/// The number of the page object of page `index`.
pub open spec fn page_object_id(index: nat) -> nat {
    3 + index * 2
}

/// The line shown on page `index`, with the replacement appended where it
/// targets that page.
pub open spec fn page_line(index: nat, replacement: Option<(usize, Seq<char>)>) -> Seq<char> {
    let base = "Benchmark page "@ + decimal_chars(index) + " stable paragraph"@;
    match replacement {
        Some((target, text)) => if target == index {
            base + " "@ + text
        } else {
            base
        },
        None => base,
    }
}

/// The content stream of page `index`.
pub open spec fn page_content(index: nat, replacement: Option<(usize, Seq<char>)>) -> Seq<char> {
    "BT /F1 12 Tf 72 720 Td ("@ + page_line(index, replacement) + ") Tj ET"@
}

/// The page object and the content stream object of page `index`; the
/// stream's `/Length` counts its UTF-8 bytes.
pub open spec fn page_objects(index: nat, replacement: Option<(usize, Seq<char>)>) -> Seq<char> {
    let page = page_object_id(index);
    let content = page_content(index, replacement);
    decimal_chars(page) + " 0 obj\n<< /Type /Page /Parent 2 0 R /Contents "@ + decimal_chars(
        page + 1,
    ) + " 0 R >>\nendobj\n"@ + decimal_chars(page + 1) + " 0 obj\n<< /Length "@ + decimal_chars(
        encode_utf8(content).len(),
    ) + " >>\nstream\n"@ + content + "\nendstream\nendobj\n"@
}

/// The objects of the first `n` pages.
pub open spec fn pages_text(n: nat, replacement: Option<(usize, Seq<char>)>) -> Seq<char>
    decreases n,
{
    if n == 0 {
        Seq::empty()
    } else {
        pages_text((n - 1) as nat, replacement) + page_objects((n - 1) as nat, replacement)
    }
}

/// The references to the first `n` page objects, separated by spaces.
pub open spec fn kids_text(n: nat) -> Seq<char>
    decreases n,
{
    if n == 0 {
        Seq::empty()
    } else if n == 1 {
        decimal_chars(page_object_id(0)) + " 0 R"@
    } else {
        kids_text((n - 1) as nat) + " "@ + decimal_chars(page_object_id((n - 1) as nat)) + " 0 R"@
    }
}

/// The whole document text for `pages` pages (at least one).
pub open spec fn synthetic_text(pages: nat, replacement: Option<(usize, Seq<char>)>) -> Seq<char> {
    let count = if pages == 0 {
        1nat
    } else {
        pages
    };
    "%PDF-1.7\n"@ + "1 0 obj\n<< /Type /Catalog /Pages 2 0 R >>\nendobj\n"@
        + "2 0 obj\n<< /Type /Pages /Kids ["@ + kids_text(count) + "] /Count "@ + decimal_chars(
        count,
    ) + " >>\nendobj\n"@ + pages_text(count, replacement)
}

/// The replacement with its text taken by value.
pub open spec fn replacement_view(replacement: Option<(usize, &str)>) -> Option<(usize, Seq<char>)> {
    match replacement {
        Some((target, text)) => Some((target, text@)),
        None => None,
    }
}

fn push_decimal(out: &mut String, n: usize)
    ensures
        final(out)@ == old(out)@ + decimal_chars(n as nat),
{
    let d = usize_to_string(n);
    out.append(d.as_str());
}

fn page_line_text(index: usize, replacement: Option<(usize, &str)>) -> (s: String)
    ensures
        s@ == page_line(index as nat, replacement_view(replacement)),
{
    let mut s = "Benchmark page ".to_owned();
    push_decimal(&mut s, index);
    s.append(" stable paragraph");
    match replacement {
        Some((target, text)) => {
            if target == index {
                s.append(" ");
                s.append(text);
            }
        },
        None => {},
    }
    s
}

fn page_objects_text(i: usize, replacement: Option<(usize, &str)>) -> (text: String)
    requires
        i * 2 + 4 <= usize::MAX,
    ensures
        text@ == page_objects(i as nat, replacement_view(replacement)),
{
    let ghost repl = replacement_view(replacement);
    let page_id = 3 + i * 2;
    let line = page_line_text(i, replacement);
    let mut content = "BT /F1 12 Tf 72 720 Td (".to_owned();
    content.append(line.as_str());
    content.append(") Tj ET");
    let content_str = content.as_str();
    let content_bytes = content_str.as_bytes();
    let content_len = content_bytes.len();
    proof {
        assert(content_str@ == content@);
        assert(content@ =~= page_content(i as nat, repl));
        assert(content_bytes@ == content_str.spec_bytes());
        assert(content_len == encode_utf8(page_content(i as nat, repl)).len());
    }
    let mut text = String::new();
    push_decimal(&mut text, page_id);
    text.append(" 0 obj\n<< /Type /Page /Parent 2 0 R /Contents ");
    push_decimal(&mut text, page_id + 1);
    text.append(" 0 R >>\nendobj\n");
    push_decimal(&mut text, page_id + 1);
    text.append(" 0 obj\n<< /Length ");
    push_decimal(&mut text, content_len);
    text.append(" >>\nstream\n");
    text.append(content.as_str());
    text.append("\nendstream\nendobj\n");
    proof {
        assert(page_id as nat == page_object_id(i as nat));
        assert(text@ =~= page_objects(i as nat, repl));
    }
    text
}

/// The bytes of a synthetic text document of `pages` pages (one when zero
/// is asked for); the replacement, where given, appends its text to the
/// line of the page it names.
pub fn synthetic_text_pdf(pages: usize, replacement: Option<(usize, &str)>) -> (pdf: Vec<u8>)
    requires
        pages * 2 + 4 <= usize::MAX,
    ensures
        pdf@ == encode_utf8(synthetic_text(pages as nat, replacement_view(replacement))),
{
    let page_count: usize = if pages == 0 {
        1
    } else {
        pages
    };
    let ghost repl = replacement_view(replacement);
    let mut kids = String::new();
    let mut k: usize = 0;
    while k < page_count
        invariant
            k <= page_count,
            page_count * 2 + 4 <= usize::MAX,
            kids@ == kids_text(k as nat),
        decreases page_count - k,
    {
        if k > 0 {
            kids.append(" ");
        }
        push_decimal(&mut kids, 3 + k * 2);
        kids.append(" 0 R");
        k += 1;
    }
    let mut text = "%PDF-1.7\n".to_owned();
    text.append("1 0 obj\n<< /Type /Catalog /Pages 2 0 R >>\nendobj\n");
    text.append("2 0 obj\n<< /Type /Pages /Kids [");
    text.append(kids.as_str());
    text.append("] /Count ");
    push_decimal(&mut text, page_count);
    text.append(" >>\nendobj\n");
    let ghost head = text@;
    let mut i: usize = 0;
    while i < page_count
        invariant
            i <= page_count,
            page_count * 2 + 4 <= usize::MAX,
            repl == replacement_view(replacement),
            text@ == head + pages_text(i as nat, repl),
        decreases page_count - i,
    {
        let ghost before = text@;
        let objects = page_objects_text(i, replacement);
        text.append(objects.as_str());
        proof {
            assert(text@ =~= before + page_objects(i as nat, repl));
        }
        i += 1;
    }
    proof {
        assert(text@ =~= synthetic_text(pages as nat, repl));
    }
    text.as_str().as_bytes_vec()
}

} // verus!
