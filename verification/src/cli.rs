//! What a command-line front end does with a result: what it writes, what
//! it reports and how it exits. The front end itself reads and writes the
//! files and prints.

use vstd::prelude::*;
use crate::engine::FormatResult;
use crate::lint::LintResult;

verus! {

/// What to tell the user after formatting.
#[derive(Clone, Copy, Debug, PartialEq, Eq, Structural)]
pub enum FormatReport {
    /// Checked only: the file is formatted.
    Correct,
    /// Checked only: the file needs formatting.
    NeedsFormatting,
    /// Written back, with this number of edits.
    Formatted { edits: usize },
    /// Written back, with no edit.
    AlreadyFormatted,
}

/// What to do after formatting: whether to write the formatted text back,
/// what to report, and the exit code.
#[derive(Clone, Copy, Debug, PartialEq, Eq, Structural)]
pub struct FormatPlan {
    pub write: bool,
    pub report: FormatReport,
    pub exit_code: u8,
}

/// What to tell the user after linting.
#[derive(Clone, Copy, Debug, PartialEq, Eq, Structural)]
pub enum LintReport {
    Clean,
    Issues { count: usize },
}

/// What to do after linting: what to report, and the exit code.
#[derive(Clone, Copy, Debug, PartialEq, Eq, Structural)]
pub struct LintPlan {
    pub report: LintReport,
    pub exit_code: u8,
}

/// Decides what follows a formatting. With `check_only` nothing is
/// written and the exit code says whether the file is formatted; without,
/// the formatted text is written back and the exit code is 0.
pub fn plan_format(check_only: bool, result: &FormatResult) -> (plan: FormatPlan)
    ensures
        plan.write == !check_only,
        plan.exit_code == (if check_only && !result.is_formatted {
            1u8
        } else {
            0u8
        }),
        plan.report == (if check_only {
            if result.is_formatted {
                FormatReport::Correct
            } else {
                FormatReport::NeedsFormatting
            }
        } else if result.edit_count > 0 {
            FormatReport::Formatted { edits: result.edit_count }
        } else {
            FormatReport::AlreadyFormatted
        }),
{
    if check_only {
        if result.is_formatted {
            FormatPlan { write: false, report: FormatReport::Correct, exit_code: 0 }
        } else {
            FormatPlan { write: false, report: FormatReport::NeedsFormatting, exit_code: 1 }
        }
    } else if result.edit_count > 0 {
        FormatPlan {
            write: true,
            report: FormatReport::Formatted { edits: result.edit_count },
            exit_code: 0,
        }
    } else {
        FormatPlan { write: true, report: FormatReport::AlreadyFormatted, exit_code: 0 }
    }
}

/// Decides what follows a linting: a clean text exits with 0, any issue
/// with 1 and the number of issues to report.
pub fn plan_lint(result: &LintResult) -> (plan: LintPlan)
    ensures
        plan.exit_code == (if result.success {
            0u8
        } else {
            1u8
        }),
        plan.report == (if result.success {
            LintReport::Clean
        } else {
            LintReport::Issues { count: result.total_count }
        }),
{
    if result.success {
        LintPlan { report: LintReport::Clean, exit_code: 0 }
    } else {
        LintPlan { report: LintReport::Issues { count: result.total_count }, exit_code: 1 }
    }
}

} // verus!
