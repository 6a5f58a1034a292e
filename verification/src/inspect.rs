//! The text forms of the inspect report: a document's object, diagnostic
//! and first-page stream counts, its revisions and its tagged-structure
//! counts, as Markdown or as HTML.
use vstd::prelude::*;
use crate::document::{page_contents_spec, PdfDocument};
use crate::features::{incremental_update_report, tagged_structure_report};
use crate::fmt::{decimal_chars, usize_to_string};
use crate::report::{escape_html, escaped};
use crate::types::{ParseConfig, ResourceLimits};
use crate::features::{capped, forest_mcids, forest_size};
use crate::tagged::tagged_spec;

verus! {

/// The counts an inspect report shows.
#[derive(Debug, Clone, Copy, PartialEq, Eq, Structural)]
pub struct InspectCounts {
    pub object_count: usize,
    pub diagnostic_count: usize,
    pub first_page_streams: usize,
    pub revision_count: usize,
    pub element_count: usize,
    pub mcid_count: usize,
}

/// The lines of the report for a file written as `file`.
pub open spec fn inspect_lines(file: Seq<char>, c: InspectCounts) -> Seq<char> {
    "# PDF Inspect\n\n- File: `"@ + file + "`\n- Objects: "@ + decimal_chars(c.object_count as nat)
        + "\n- Diagnostics: "@ + decimal_chars(c.diagnostic_count as nat) + "\n- First-page streams: "@
        + decimal_chars(c.first_page_streams as nat) + "\n- Incremental update: "@ + decimal_chars(
        c.revision_count as nat,
    ) + " revisions\n- Tagged structure: "@ + decimal_chars(c.element_count as nat) + " elements, "@
        + decimal_chars(c.mcid_count as nat) + " MCIDs\n"@
}

fn push_count(out: &mut String, n: usize)
    ensures
        final(out)@ == old(out)@ + decimal_chars(n as nat),
{
    let d = usize_to_string(n);
    out.append(d.as_str());
}

fn lines(file: &str, c: InspectCounts) -> (s: String)
    ensures
        s@ == inspect_lines(file@, c),
{
    let mut s = "# PDF Inspect\n\n- File: `".to_owned();
    s.append(file);
    s.append("`\n- Objects: ");
    push_count(&mut s, c.object_count);
    s.append("\n- Diagnostics: ");
    push_count(&mut s, c.diagnostic_count);
    s.append("\n- First-page streams: ");
    push_count(&mut s, c.first_page_streams);
    s.append("\n- Incremental update: ");
    push_count(&mut s, c.revision_count);
    s.append(" revisions\n- Tagged structure: ");
    push_count(&mut s, c.element_count);
    s.append(" elements, ");
    push_count(&mut s, c.mcid_count);
    s.append(" MCIDs\n");
    proof {
        assert(s@ =~= inspect_lines(file@, c));
    }
    s
}

/// The Markdown inspect report of `fingerprint` with counts `c`.
pub fn render_inspect_markdown(fingerprint: &str, c: InspectCounts) -> (s: String)
    ensures
        s@ == inspect_lines(fingerprint@, c),
{
    lines(fingerprint, c)
}

/// The HTML inspect report: the Markdown lines, with the file name
/// escaped, in a `<pre>` block of a standalone page.
pub fn render_inspect_html(fingerprint: &str, c: InspectCounts) -> (s: String)
    ensures
        s@ == "<!doctype html><meta charset=\"utf-8\"><pre>"@ + inspect_lines(escaped(fingerprint@), c)
            + "</pre>"@,
{
    let file = escape_html(fingerprint);
    let body = lines(file.as_str(), c);
    let mut s = "<!doctype html><meta charset=\"utf-8\"><pre>".to_owned();
    s.append(body.as_str());
    s.append("</pre>");
    s
}

/// The counts of the inspect report of a document: its objects and
/// diagnostics, the streams of its first page (none without pages), its
/// revisions, and the elements and marked-content ids of its structure
/// tree read with the default limits.
pub fn inspect_counts(document: &PdfDocument) -> (c: InspectCounts)
    ensures
        c.object_count == document.objects@.len(),
        c.diagnostic_count == document.diagnostics@.len(),
        c.first_page_streams == if document.pages@.len() == 0 {
            0
        } else {
            page_contents_spec(
                crate::scan::records(document.objects@),
                document.pages@[0].view(),
                document.pages@[0].content_object_ids@.len() as int,
            ).len()
        },
        c.revision_count == match document.incremental_update {
            Some(i) => i.revision_count,
            None => 1,
        },
        c.element_count == capped(
            forest_size(tagged_spec(crate::scan::records(document.objects@), ResourceLimits::default_spec()).roots),
        ),
        c.mcid_count == capped(
            forest_mcids(tagged_spec(crate::scan::records(document.objects@), ResourceLimits::default_spec()).roots),
        ),
{
    let first_page_streams = match document.first_page_contents() {
        Some(v) => v.len(),
        None => 0,
    };
    let structure = document.tagged_structure(ParseConfig::default());
    let tagged = tagged_structure_report(&structure);
    let update = incremental_update_report(document.incremental_update.as_ref());
    InspectCounts {
        object_count: document.objects.len(),
        diagnostic_count: document.diagnostics.len(),
        first_page_streams,
        revision_count: update.revision_count,
        element_count: tagged.element_count,
        mcid_count: tagged.mcid_count,
    }
}

} // verus!
