//! Decisions of the command-line front end: checks before attaching to a
//! process, argument values, and the choice of a report view.

use vstd::prelude::*;

use crate::report::{ReportFormat, ReportView};
use crate::text::{decimal, format_i64, parse_unsigned, parse_unsigned_of};

verus! {

/// The error for a process whose start time no longer matches.
pub open spec fn identity_error(pid: u32) -> Seq<char> {
    "cannot attach to pid "@ + decimal(pid as int) + ": the selected process exited or its PID was reused"@
}

/// Checks that the process `pid` is still the one selected: its start time
/// `actual` must be known and equal `expected`.
pub fn validate_process_identity(pid: u32, expected: u64, actual: Option<u64>) -> (r: Result<(), String>)
    ensures
        actual == Some(expected) ==> r is Ok,
        actual != Some(expected) ==> (r matches Err(e) && e@ == identity_error(pid)),
{
    let same = match actual {
        Some(a) => a == expected,
        None => false,
    };
    if same {
        return Ok(());
    }
    let mut message = <String as vstd::string::StringExecFns>::from_str("cannot attach to pid ");
    let number = format_i64(pid as i64);
    message.append(number.as_str());
    message.append(": the selected process exited or its PID was reused");
    proof {
        reveal_strlit("cannot attach to pid ");
        reveal_strlit(": the selected process exited or its PID was reused");
    }
    Err(message)
}

/// The error for a process that does not permit debugging.
pub open spec fn preflight_error(pid: u32, reason: Option<Seq<char>>) -> Seq<char> {
    "cannot attach to pid "@ + decimal(pid as int)
        + ": the target process is protected by macOS and does not permit debugging. Production-signed and system processes normally omit the get-task-allow entitlement."@
        + match reason {
        Some(r) => " ("@ + r + ")"@,
        None => Seq::empty(),
    }
}

/// The error to report before attaching to `pid`, if it is not attachable.
pub fn attach_preflight_error(pid: u32, attachable: bool, reason: Option<&str>) -> (r: Option<String>)
    ensures
        attachable ==> r is None,
        !attachable ==> (r matches Some(e) && e@ == preflight_error(
            pid,
            match reason {
                Some(s) => Some(s@),
                None => None,
            },
        )),
{
    if attachable {
        return None;
    }
    let mut message = <String as vstd::string::StringExecFns>::from_str("cannot attach to pid ");
    let number = format_i64(pid as i64);
    message.append(number.as_str());
    message.append(
        ": the target process is protected by macOS and does not permit debugging. Production-signed and system processes normally omit the get-task-allow entitlement.",
    );
    match reason {
        Some(text) => {
            message.append(" (");
            message.append(text);
            message.append(")");
        },
        None => {},
    }
    proof {
        reveal_strlit("cannot attach to pid ");
        reveal_strlit(
            ": the target process is protected by macOS and does not permit debugging. Production-signed and system processes normally omit the get-task-allow entitlement.",
        );
        reveal_strlit(" (");
        reveal_strlit(")");
    }
    Some(message)
}

/// `value` as Rust's `Debug` formatting of a string writes it (quoted and
/// escaped).
pub uninterp spec fn debug_quoted(value: Seq<char>) -> Seq<char>;

/// Quotes `value` the way `format!("{value:?}")` does.
#[verifier::external_body]
fn quote(value: &str) -> (r: String)
    ensures
        r@ == debug_quoted(value@),
{
    format!("{value:?}")
}

/// Parses a count that must be at least one (an optional `+` and decimal
/// digits, fitting in `usize`).
pub fn parse_positive_usize(value: &str) -> (r: Result<usize, String>)
    ensures
        match parse_unsigned_of(value@, 10, usize::MAX as nat) {
            Some(n) => if n == 0 {
                r matches Err(e) && e@ == "value must be at least 1"@
            } else {
                r == Ok::<usize, String>(n as usize)
            },
            None => r matches Err(e) && e@ == debug_quoted(value@) + " is not a positive integer"@,
        },
{
    match parse_unsigned(value, 10, usize::MAX as u64) {
        Some(n) => {
            if n == 0 {
                proof {
                    reveal_strlit("value must be at least 1");
                }
                Err(<String as vstd::string::StringExecFns>::from_str("value must be at least 1"))
            } else {
                Ok(n as usize)
            }
        },
        None => {
            let mut message = quote(value);
            message.append(" is not a positive integer");
            proof {
                reveal_strlit(" is not a positive integer");
            }
            Err(message)
        },
    }
}

/// A report section the `analyze` command can render.
#[derive(Debug, Clone, Copy, PartialEq, Eq)]
pub enum AnalyzeView {
    /// Combined overview, observations, top frames, and top stacks
    Summary,
    /// Functions ranked by self/flat cost
    Top,
    /// Functions ranked by cumulative cost
    Cumulative,
    /// Complete call stacks ranked by cost
    Stacks,
    /// Root-to-leaf hot call tree
    Tree,
}

/// The output syntax of the `analyze` command.
#[derive(Debug, Clone, Copy, PartialEq, Eq)]
pub enum AnalyzeFormat {
    /// Compact plain text for interactive terminals
    Terminal,
    /// Structured headings, tables, and lists for LLMs and documents
    Markdown,
}

impl AnalyzeView {
    /// The report view this section stands for.
    pub fn report_view(self) -> (r: ReportView)
        ensures
            r == (match self {
                AnalyzeView::Summary => ReportView::Summary,
                AnalyzeView::Top => ReportView::TopFrames,
                AnalyzeView::Cumulative => ReportView::TopCumulative,
                AnalyzeView::Stacks => ReportView::TopStacks,
                AnalyzeView::Tree => ReportView::CallTree,
            }),
    {
        match self {
            AnalyzeView::Summary => ReportView::Summary,
            AnalyzeView::Top => ReportView::TopFrames,
            AnalyzeView::Cumulative => ReportView::TopCumulative,
            AnalyzeView::Stacks => ReportView::TopStacks,
            AnalyzeView::Tree => ReportView::CallTree,
        }
    }
}

impl AnalyzeFormat {
    /// The report format this syntax stands for.
    pub fn report_format(self) -> (r: ReportFormat)
        ensures
            r == (match self {
                AnalyzeFormat::Terminal => ReportFormat::Terminal,
                AnalyzeFormat::Markdown => ReportFormat::Markdown,
            }),
    {
        match self {
            AnalyzeFormat::Terminal => ReportFormat::Terminal,
            AnalyzeFormat::Markdown => ReportFormat::Markdown,
        }
    }
}

} // verus!
