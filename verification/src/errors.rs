//! The tagged error type of a conversion run, and the spec-level issues the
//! contracts speak about.

use vstd::prelude::*;

verus! {

/// What went wrong while resolving a user column selection, as the
/// mathematical model states it.
pub enum SelectorIssue {
    /// The token at `position` cannot be read as a non-negative integer.
    Invalid { token: Seq<char>, position: int },
    /// The ordinal at `position` is zero or exceeds the visible-column count.
    OutOfRange { value: int, position: int, visible_count: int },
}

/// What went wrong during a whole conversion, as the model states it.
pub enum ConvertIssue {
    /// The grid is empty, so there is no header row.
    MissingHeader,
    /// The column selection could not be resolved.
    Selector { issue: SelectorIssue },
}

/// One failure of a conversion run. The conversion logic itself raises only
/// `EmptySheet`, `InvalidSelector` and `SelectorOutOfRange`; the remaining
/// kinds are raised by the callers that read the workbook and write the
/// output, so that one type covers the whole run.
#[derive(Debug)]
pub enum ConvertError {
    /// The workbook could not be opened or read.
    FileOpen { path: String },
    /// The named sheet is not present in the workbook.
    SheetNotFound { sheet: String },
    /// The sheet is empty, so there is no header row.
    EmptySheet,
    /// A selector token is not a non-negative integer: `token` is the
    /// trimmed token, `position` its place in the comma-separated list.
    InvalidSelector { token: String, position: usize },
    /// A selector ordinal is zero or exceeds the visible-column count.
    SelectorOutOfRange { value: usize, position: usize, visible_count: usize },
    /// The record array could not be serialized.
    Serialization,
    /// The output file could not be created or written.
    OutputWrite { path: String },
}

impl ConvertError {
    /// Whether this error reports exactly the selector issue `issue`.
    pub open spec fn matches_selector_issue(self, issue: SelectorIssue) -> bool {
        match issue {
            SelectorIssue::Invalid { token, position } => match self {
                ConvertError::InvalidSelector { token: et, position: ep } => et@ == token
                    && ep as int == position,
                _ => false,
            },
            SelectorIssue::OutOfRange { value, position, visible_count } => match self {
                ConvertError::SelectorOutOfRange { value: ev, position: ep, visible_count: ec } => {
                    ev as int == value && ep as int == position && ec as int == visible_count
                },
                _ => false,
            },
        }
    }

    /// Whether this error reports exactly the conversion issue `issue`.
    pub open spec fn matches_convert_issue(self, issue: ConvertIssue) -> bool {
        match issue {
            ConvertIssue::MissingHeader => self is EmptySheet,
            ConvertIssue::Selector { issue: si } => self.matches_selector_issue(si),
        }
    }
}

} // verus!
