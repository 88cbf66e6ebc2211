//! What can be wrong with the contents of a request list.

use vstd::prelude::*;
use vstd::string::StringExecFns;

verus! {

/// Why a request list could not be understood.
#[derive(Debug, PartialEq, Eq)]
pub enum ParseError {
    /// The list does not open with its header.
    InvalidFirstLine,
    /// A line, kept here whole, does not have the layout of a request.
    InvalidRequestLine(String),
    /// A number of a request does not fit its field.
    InvalidField,
    /// A line is not UTF-8; these are the first bytes that follow it.
    InvalidUtf8(Vec<u8>),
    /// The list could not be read any further; this is what the system said.
    ReadFailed(String),
}

/// A [`ParseError`] with its text and bytes as sequences.
pub enum ParseErrorView {
    InvalidFirstLine,
    InvalidRequestLine(Seq<char>),
    InvalidField,
    InvalidUtf8(Seq<u8>),
    ReadFailed(Seq<char>),
}

impl View for ParseError {
    type V = ParseErrorView;

    open spec fn view(&self) -> ParseErrorView {
        match self {
            ParseError::InvalidFirstLine => ParseErrorView::InvalidFirstLine,
            ParseError::InvalidRequestLine(line) => ParseErrorView::InvalidRequestLine(line@),
            ParseError::InvalidField => ParseErrorView::InvalidField,
            ParseError::InvalidUtf8(sample) => ParseErrorView::InvalidUtf8(sample@),
            ParseError::ReadFailed(reason) => ParseErrorView::ReadFailed(reason@),
        }
    }
}

impl ParseErrorView {
    /// The sentence that describes the error.
    pub open spec fn text(self) -> Seq<char> {
        match self {
            ParseErrorView::InvalidFirstLine => "Invalid first line"@,
            ParseErrorView::InvalidRequestLine(line) => "Invalid request line: "@ + line,
            ParseErrorView::InvalidField => "Invalid field"@,
            ParseErrorView::InvalidUtf8(_) => "stream did not contain valid UTF-8"@,
            ParseErrorView::ReadFailed(reason) => reason,
        }
    }
}

impl ParseError {
    /// The sentence that describes the error.
    pub fn message(&self) -> (message: String)
        ensures
            message@ == self@.text(),
    {
        match self {
            ParseError::InvalidFirstLine => "Invalid first line".to_owned(),
            ParseError::InvalidRequestLine(line) => {
                "Invalid request line: ".to_owned().concat(line.as_str())
            },
            ParseError::InvalidField => "Invalid field".to_owned(),
            ParseError::InvalidUtf8(_) => "stream did not contain valid UTF-8".to_owned(),
            ParseError::ReadFailed(reason) => reason.clone(),
        }
    }
}

/// Seen as sequences, an error keeps its kind and all that it holds.
pub proof fn law_parse_error_view(error: ParseError)
    ensures
        error is InvalidFirstLine <==> error@ is InvalidFirstLine,
        error is InvalidRequestLine <==> error@ is InvalidRequestLine,
        error is InvalidField <==> error@ is InvalidField,
        error is InvalidUtf8 <==> error@ is InvalidUtf8,
        error is ReadFailed <==> error@ is ReadFailed,
        error is InvalidRequestLine ==> error->InvalidRequestLine_0@
            == error@->InvalidRequestLine_0,
        error is InvalidUtf8 ==> error->InvalidUtf8_0@ == error@->InvalidUtf8_0,
        error is ReadFailed ==> error->ReadFailed_0@ == error@->ReadFailed_0,
{
}

/// The sentence about a line shows the line whole, and the one about a read that failed is what
/// the system said. The others are always the same.
pub proof fn law_parse_error_text(error: ParseErrorView)
    ensures
        error is InvalidRequestLine ==> {
            &&& "Invalid request line: "@.is_prefix_of(error.text())
            &&& error.text().skip("Invalid request line: "@.len() as int)
                == error->InvalidRequestLine_0
        },
        error is ReadFailed ==> error.text() == error->ReadFailed_0,
        error is InvalidFirstLine ==> error.text() == "Invalid first line"@,
        error is InvalidField ==> error.text() == "Invalid field"@,
        error is InvalidUtf8 ==> error.text() == "stream did not contain valid UTF-8"@,
{
    if error is InvalidRequestLine {
        let opening = "Invalid request line: "@;
        assert(error.text().skip(opening.len() as int) =~= error->InvalidRequestLine_0);
        assert(opening =~= error.text().take(opening.len() as int));
    }
}

} // verus!
