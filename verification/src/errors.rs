use vstd::prelude::*;
use vstd::string::StringExecFns;

verus! {

/// The mathematical content of an error: its kind and the offending
/// raw value.
pub enum ErrView {
    MissingField(Seq<char>),
    BadDate(Seq<char>),
    MalformedRow(Seq<char>),
}

/// A failure of either source parser: a required tabular column that
/// is absent, a date that cannot be parsed, or a row-level structural
/// failure.
#[derive(Debug)]
pub enum LogbookError {
    MissingField(String),
    BadDate(String),
    MalformedRow(String),
}

impl View for LogbookError {
    type V = ErrView;

    open spec fn view(&self) -> ErrView {
        match self {
            LogbookError::MissingField(s) => ErrView::MissingField(s@),
            LogbookError::BadDate(s) => ErrView::BadDate(s@),
            LogbookError::MalformedRow(s) => ErrView::MalformedRow(s@),
        }
    }
}

/// The descriptive message of an error, offending raw value included.
pub open spec fn message_of(e: ErrView) -> Seq<char> {
    match e {
        ErrView::MissingField(s) => "missing required column: "@ + s,
        ErrView::BadDate(s) => "cannot parse date \""@ + s + "\""@,
        ErrView::MalformedRow(s) => "malformed row: "@ + s,
    }
}

impl LogbookError {
    /// Renders the error as a single descriptive message.
    pub fn message(&self) -> (r: String)
        ensures
            r@ == message_of(self@),
    {
        match self {
            LogbookError::MissingField(s) => {
                let mut m = String::from_str("missing required column: ");
                m.append(s.as_str());
                m
            },
            LogbookError::BadDate(s) => {
                let mut m = String::from_str("cannot parse date \"");
                m.append(s.as_str());
                m.append("\"");
                proof {
                    assert(m@ == message_of(self@));
                }
                m
            },
            LogbookError::MalformedRow(s) => {
                let mut m = String::from_str("malformed row: ");
                m.append(s.as_str());
                m
            },
        }
    }
}

} // verus!
