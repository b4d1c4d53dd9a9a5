//! Why a timesheet line was refused.

use vstd::prelude::*;
use vstd::string::*;

verus! {

/// The reasons a line, date or time is refused.
#[derive(Debug)]
pub enum ParseError {
    /// Fewer than the three fields `DATE START-END PROJECT`, or no dash
    /// between the two times.
    BadFormat,
    /// The date field (given) is not a real `YYYY-MM-DD` date.
    BadDate(String),
    /// A time (given) is not a real `HH:MM` time.
    BadTime(String),
    /// Start and end are the same time.
    ZeroDuration,
}

/// What a [`ParseError`] says, with its text as characters.
pub enum ErrorModel {
    BadFormat,
    BadDate(Seq<char>),
    BadTime(Seq<char>),
    ZeroDuration,
}

impl View for ParseError {
    type V = ErrorModel;

    open spec fn view(&self) -> ErrorModel {
        match self {
            ParseError::BadFormat => ErrorModel::BadFormat,
            ParseError::BadDate(s) => ErrorModel::BadDate(s@),
            ParseError::BadTime(s) => ErrorModel::BadTime(s@),
            ParseError::ZeroDuration => ErrorModel::ZeroDuration,
        }
    }
}

impl ErrorModel {
    /// The message shown to a person for this error.
    pub open spec fn message(self) -> Seq<char> {
        match self {
            ErrorModel::BadFormat => "expected 'DATE START-END PROJECT [NOTE]'"@,
            ErrorModel::BadDate(s) => "bad date '"@ + s + "'"@,
            ErrorModel::BadTime(s) => "bad time '"@ + s + "'"@,
            ErrorModel::ZeroDuration => "start and end time are the same"@,
        }
    }
}

impl ParseError {
    /// The message shown to a person for this error.
    pub fn to_string(&self) -> (r: String)
        ensures
            r@ == self@.message(),
    {
        match self {
            ParseError::BadFormat => String::from_str("expected 'DATE START-END PROJECT [NOTE]'"),
            ParseError::BadDate(s) => {
                let mut r = String::from_str("bad date '");
                r.append(s.as_str());
                r.append("'");
                r
            },
            ParseError::BadTime(s) => {
                let mut r = String::from_str("bad time '");
                r.append(s.as_str());
                r.append("'");
                r
            },
            ParseError::ZeroDuration => String::from_str("start and end time are the same"),
        }
    }
}

} // verus!
