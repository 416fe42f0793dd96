//! The two entry points of the engine, on strings.

use vstd::prelude::*;
use crate::diagnostic::{is_sorted, starts_ascend, Diagnostic};
use crate::format::{
    document_in, format_text, formatted_edits, formatted_text, layout_of,
    lemma_edits_make_formatted,
};
use crate::lint::{findings_of, lies_in, lint_text, KeyRule, LintResult, Schema};
use crate::text::{chars_of, string_of};

verus! {

/// The result of formatting a text: the formatted text, the number of
/// edits that lead to it, and whether the text needed none.
pub struct FormatResult {
    pub is_formatted: bool,
    pub formatted_content: String,
    pub edit_count: usize,
}

/// Formats `content`: a text that parses without error is laid out
/// canonically; a text that does not comes back as it is and counts as
/// formatted.
pub fn format(content: &str) -> (r: FormatResult)
    ensures
        r.formatted_content@ == formatted_text(content@),
        document_in(content@).is_clean() ==> r.formatted_content@ == layout_of(content@),
        !document_in(content@).is_clean() ==> r.formatted_content@ == content@ && r.is_formatted,
        r.edit_count == formatted_edits(content@).len(),
        r.is_formatted <==> r.edit_count == 0,
        r.is_formatted <==> r.formatted_content@ == content@,
{
    let text = chars_of(content);
    proof {
        lemma_edits_make_formatted(text@);
    }
    let formatted = format_text(&text);
    let edit_count = formatted.edits.len();
    FormatResult {
        is_formatted: edit_count == 0,
        formatted_content: string_of(&formatted.text),
        edit_count,
    }
}

/// Lints `content` under `schema`.
pub fn lint_with(content: &str, schema: &Schema) -> (r: LintResult)
    ensures
        is_sorted(r.diagnostics@),
        starts_ascend(r.diagnostics@),
        forall|d: Diagnostic|
            r.diagnostics@.contains(d) <==> findings_of(content@, schema.rules@).contains(d),
        forall|d: Diagnostic| r.diagnostics@.contains(d) ==> lies_in(content@, d),
        r.total_count == r.diagnostics@.len(),
        r.success <==> r.total_count == 0,
{
    let text = chars_of(content);
    lint_text(&text, schema)
}

/// Lints `content` with no kind of section known: only syntax errors and
/// keys set twice are reported.
pub fn lint(content: &str) -> (r: LintResult)
    ensures
        is_sorted(r.diagnostics@),
        starts_ascend(r.diagnostics@),
        forall|d: Diagnostic|
            r.diagnostics@.contains(d) <==> findings_of(content@, Seq::<KeyRule>::empty()).contains(
                d,
            ),
        forall|d: Diagnostic| r.diagnostics@.contains(d) ==> lies_in(content@, d),
        r.total_count == r.diagnostics@.len(),
        r.success <==> r.total_count == 0,
{
    let schema = Schema::empty();
    assert(schema.rules@ =~= Seq::<KeyRule>::empty());
    lint_with(content, &schema)
}

} // verus!
