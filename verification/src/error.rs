//! The ways in which an expansion is abandoned.

use crate::model::EXPANSION_LIMIT;
use vstd::prelude::*;

verus! {

/// What is wrong with the shape of an invocation.
#[derive(Clone, Copy, Debug, PartialEq, Eq, Structural)]
pub enum Malformation {
    /// The token before the marker `!` is not an identifier, or there is none.
    MissingName,
    /// The token after the marker `!` is not a group, or there is none.
    MissingGroup,
}

/// Why an expansion was abandoned. No output is produced with any of them.
#[derive(Debug, PartialEq, Eq)]
pub enum ExpandError {
    /// The input is not well formed. Fatal in both modes.
    MalformedInput(Malformation),
    /// The oracle rejected an invocation; the detail is the oracle's own.
    /// Fatal in strict mode, and never reported in permissive mode.
    OracleFailure(String),
    /// The passes over one token sequence did not reach a fixpoint within
    /// the limit. Fatal in both modes.
    LimitExceeded,
}

/// The mathematical value of an error.
pub enum ExpandErrorView {
    MalformedInput(Malformation),
    OracleFailure(Seq<char>),
    LimitExceeded,
}

impl View for ExpandError {
    type V = ExpandErrorView;

    open spec fn view(&self) -> ExpandErrorView {
        match self {
            ExpandError::MalformedInput(what) => ExpandErrorView::MalformedInput(*what),
            ExpandError::OracleFailure(detail) => ExpandErrorView::OracleFailure(detail@),
            ExpandError::LimitExceeded => ExpandErrorView::LimitExceeded,
        }
    }
}

impl ExpandErrorView {
    /// The message of the error, for a reader.
    pub open spec fn message(self) -> Seq<char> {
        match self {
            ExpandErrorView::MalformedInput(Malformation::MissingName) =>
                "Expected an identifier before '!' in macro invocation"@,
            ExpandErrorView::MalformedInput(Malformation::MissingGroup) =>
                "Expected a group after a '!' in the input"@,
            ExpandErrorView::OracleFailure(detail) => "Error expanding macro invocation: "@
                + detail,
            ExpandErrorView::LimitExceeded =>
                "inside_out_expand: expansion limit of 128 reached, possible infinite macro expansion"@,
        }
    }
}

/// Appends `tail` to `text`, by `String::push_str` of the standard
/// library. The contract says what its documentation says: afterwards
/// `text` is what it was, followed by `tail`.
#[verifier::external_body]
fn push_str(text: &mut String, tail: &str)
    ensures
        final(text)@ == old(text)@ + tail@,
{
    text.push_str(tail);
}

impl ExpandError {
    /// The message of the error, for a reader. That of a failure of the
    /// oracle ends with the oracle's detail.
    pub fn message(&self) -> (text: String)
        ensures
            text@ == self@.message(),
    {
        match self {
            ExpandError::MalformedInput(Malformation::MissingName) =>
                "Expected an identifier before '!' in macro invocation".to_owned(),
            ExpandError::MalformedInput(Malformation::MissingGroup) =>
                "Expected a group after a '!' in the input".to_owned(),
            ExpandError::OracleFailure(detail) => {
                let mut text = "Error expanding macro invocation: ".to_owned();
                push_str(&mut text, detail.as_str());
                text
            },
            ExpandError::LimitExceeded => {
                // The text names the limit.
                assert(EXPANSION_LIMIT == 128);
                "inside_out_expand: expansion limit of 128 reached, possible infinite macro expansion".to_owned()
            },
        }
    }
}

} // verus!
