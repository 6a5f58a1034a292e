//! The text runs of a page, as far as they are decided without geometry:
//! which operations make a run, the ids of the runs and their glyphs, the
//! text and bytes each carries, the page it is counted on, and the one
//! warning that the text was taken from literal strings.
use vstd::prelude::*;
use crate::content::{ContentOp, ContentProgram, OpShape};
use crate::fmt::{decimal_chars, usize_to_string};
use crate::surfaces::{pad4, padded4};
use crate::types::{diag_views, DiagView, Diagnostic, DiagnosticSeverity, Provenance};

verus! {

/// A marked-content sequence that a run sits in.
#[derive(Debug, Clone, PartialEq, Eq)]
pub struct MarkedContentRef {
    pub tag: String,
    pub mcid: Option<usize>,
}

/// What a text run is before it is placed on the page.
pub struct RunPlan {
    pub id: String,
    pub glyph_id: String,
    pub page_index: usize,
    pub text: String,
    pub raw_bytes: Vec<u8>,
    pub source: Provenance,
    pub marked_content: Option<MarkedContentRef>,
}

/// Model of a planned run.
pub struct RunView {
    pub id: Seq<char>,
    pub glyph_id: Seq<char>,
    pub page_index: usize,
    pub text: Seq<char>,
    pub raw_bytes: Seq<u8>,
    pub source: Provenance,
}

impl RunPlan {
    pub open spec fn view(self) -> RunView {
        RunView {
            id: self.id@,
            glyph_id: self.glyph_id@,
            page_index: self.page_index,
            text: self.text@,
            raw_bytes: self.raw_bytes@,
            source: self.source,
        }
    }
}

pub open spec fn run_views(s: Seq<RunPlan>) -> Seq<RunView> {
    s.map_values(|r: RunPlan| r.view())
}

/// The text and bytes an operation shows, where it shows text.
pub open spec fn shown(shape: OpShape) -> Option<(Seq<char>, Seq<u8>)> {
    match shape {
        OpShape::ShowText(t, b) => Some((t, b)),
        OpShape::ShowAdjustedText(t, b, _) => Some((t, b)),
        _ => None,
    }
}

/// The page a run from `source` is counted on.
pub open spec fn run_page(source: Provenance, page_index: usize) -> usize {
    match source.page_index {
        Some(p) => p,
        None => page_index,
    }
}

/// `p{page}.{kind}{k}`, with `k` padded to four digits.
pub open spec fn run_label(page: usize, kind: char, k: nat) -> Seq<char> {
    seq!['p'] + decimal_chars(page as nat) + seq!['.', kind] + padded4(k)
}

/// The runs made by the first operations of `ops`: one for each
/// operation that shows text, numbered in order.
pub open spec fn runs_spec(ops: Seq<ContentOp>, page_index: usize) -> Seq<RunView>
    decreases ops.len(),
{
    if ops.len() == 0 {
        Seq::empty()
    } else {
        let prev = runs_spec(ops.drop_last(), page_index);
        let op = ops.last();
        match shown(op.shape()) {
            Some((t, b)) => {
                let page = run_page(op.source(), page_index);
                prev.push(
                    RunView {
                        id: run_label(page, 'r', prev.len()),
                        glyph_id: run_label(page, 'g', prev.len()),
                        page_index: page,
                        text: t,
                        raw_bytes: b,
                        source: op.source(),
                    },
                )
            },
            None => prev,
        }
    }
}

/// The warning that text was taken from literal strings, on `page`.
pub open spec fn missing_tounicode_diag(page: usize) -> DiagView {
    DiagView {
        severity: DiagnosticSeverity::Warning,
        code: "MISSING_TOUNICODE"@,
        message: "using literal-string fallback text because no ToUnicode map is available"@,
        object: None,
        page_index: Some(page),
    }
}

/// The warnings the runs add: one, on the page of the first run, when
/// there is a run.
pub open spec fn run_diags(runs: Seq<RunView>) -> Seq<DiagView> {
    if runs.len() == 0 {
        Seq::empty()
    } else {
        seq![missing_tounicode_diag(runs[0].page_index)]
    }
}

/// The planned runs of a page with the diagnostics of its program.
pub struct TextRunPlan {
    pub runs: Vec<RunPlan>,
    pub diagnostics: Vec<Diagnostic>,
}

/// Plans the text runs of `program` on page `page_index`: each text-showing
/// operation makes one run, with id `p{page}.r{n}` and glyph id
/// `p{page}.g{n}` (`n` its number, four digits at least), counted on the
/// page its source names or else on `page_index`. The diagnostics are the
/// program's followed, when there is a run, by one `MISSING_TOUNICODE`
/// warning on the page of the first run. No marked-content operation is
/// recognised by the content parser, so no run carries marked content.
pub fn plan_text_runs(program: &ContentProgram, page_index: usize) -> (r: TextRunPlan)
    ensures
        run_views(r.runs@) == runs_spec(program.operations@, page_index),
        diag_views(r.diagnostics@) == diag_views(program.diagnostics@) + run_diags(
            runs_spec(program.operations@, page_index),
        ),
        forall|k: int| 0 <= k < r.runs@.len() ==> (#[trigger] r.runs@[k]).marked_content is None,
{
    let ops = &program.operations;
    let mut runs: Vec<RunPlan> = Vec::new();
    let mut diagnostics: Vec<Diagnostic> = Vec::new();
    let mut d: usize = 0;
    while d < program.diagnostics.len()
        invariant
            d <= program.diagnostics.len(),
            diag_views(diagnostics@) == diag_views(program.diagnostics@.take(d as int)),
        decreases program.diagnostics.len() - d,
    {
        let copy = program.diagnostics[d].duplicate();
        let ghost old_d = diagnostics@;
        diagnostics.push(copy);
        proof {
            assert(diag_views(diagnostics@) =~= diag_views(old_d).push(copy.view()));
            assert(program.diagnostics@.take(d + 1) =~= program.diagnostics@.take(d as int).push(
                program.diagnostics@[d as int],
            ));
            assert(diag_views(diagnostics@) =~= diag_views(program.diagnostics@.take(d + 1)));
        }
        d += 1;
    }
    proof {
        assert(program.diagnostics@.take(program.diagnostics@.len() as int) =~= program.diagnostics@);
    }
    let ghost base = diag_views(diagnostics@);
    let mut k: usize = 0;
    while k < ops.len()
        invariant
            k <= ops.len(),
            ops@ == program.operations@,
            run_views(runs@) == runs_spec(ops@.take(k as int), page_index),
            base == diag_views(program.diagnostics@),
            diag_views(diagnostics@) == base + run_diags(run_views(runs@)),
            forall|j: int| 0 <= j < runs@.len() ==> (#[trigger] runs@[j]).marked_content is None,
            runs@.len() <= k,
        decreases ops.len() - k,
    {
        proof {
            assert(ops@.take(k + 1).drop_last() =~= ops@.take(k as int));
            assert(ops@.take(k + 1).last() == ops@[k as int]);
        }
        let shown_op: Option<(&String, &Vec<u8>, Provenance)> = match &ops[k] {
            ContentOp::ShowText { text, raw_bytes, source } => Some((text, raw_bytes, *source)),
            ContentOp::ShowAdjustedText { text, raw_bytes, source, .. } => Some((text, raw_bytes, *source)),
            _ => None,
        };
        match shown_op {
            Some((text, raw_bytes, source)) => {
                let page = match source.page_index {
                    Some(p) => p,
                    None => page_index,
                };
                let n = runs.len();
                proof {
                    reveal_strlit("r");
                    reveal_strlit("g");
                }
                let id = label(page, "r", n);
                let glyph_id = label(page, "g", n);
                if n == 0 {
                    let w = Diagnostic::warning(
                        "MISSING_TOUNICODE",
                        "using literal-string fallback text because no ToUnicode map is available",
                    ).with_page(page);
                    let ghost before = diagnostics@;
                    diagnostics.push(w);
                    proof {
                        assert(diag_views(diagnostics@) =~= diag_views(before).push(w.view()));
                    }
                }
                let ghost before_runs = runs@;
                let plan = RunPlan {
                    id,
                    glyph_id,
                    page_index: page,
                    text: text.clone(),
                    raw_bytes: raw_bytes.clone(),
                    source,
                    marked_content: None,
                };
                runs.push(plan);
                proof {
                    assert(run_views(runs@) =~= run_views(before_runs).push(plan.view()));
                    if n > 0 {
                        assert(run_views(runs@)[0] == run_views(before_runs)[0]);
                    }
                }
            },
            None => {},
        }
        k += 1;
    }
    proof {
        assert(ops@.take(ops@.len() as int) =~= ops@);
    }
    TextRunPlan { runs, diagnostics }
}

fn label(page: usize, kind: &str, n: usize) -> (s: String)
    requires
        kind@.len() == 1,
    ensures
        s@ == seq!['p'] + decimal_chars(page as nat) + seq!['.', kind@[0]] + padded4(n as nat),
{
    proof {
        reveal_strlit("p");
        reveal_strlit(".");
    }
    let mut s = "p".to_owned();
    let d = usize_to_string(page);
    s.append(d.as_str());
    s.append(".");
    s.append(kind);
    let k = pad4(n);
    s.append(k.as_str());
    proof {
        assert(s@ =~= seq!['p'] + decimal_chars(page as nat) + seq!['.', kind@[0]] + padded4(n as nat));
    }
    s
}

} // verus!
