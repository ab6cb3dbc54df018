//! The errors of a job.
use vstd::prelude::*;
use vstd::string::*;
use crate::parser::ParseError;

verus! {

/// Why a job gave no output.
#[derive(Debug)]
pub enum Error {
    /// The text could not be cut into spans.
    BadInput(String),
    /// The renderer refused a math span; this is its message.
    JS(String),
    /// The job could not be carried through: the worker pool is gone, a
    /// response named a position that does not exist, or the output is too
    /// large for the offset fields of the container.
    Fatal(String),
}

/// What an error is to the contracts.
pub enum ErrorModel {
    BadInput(Seq<char>),
    JS(Seq<char>),
    Fatal(Seq<char>),
}

impl View for Error {
    type V = ErrorModel;

    open spec fn view(&self) -> ErrorModel {
        match self {
            Error::BadInput(m) => ErrorModel::BadInput(m@),
            Error::JS(m) => ErrorModel::JS(m@),
            Error::Fatal(m) => ErrorModel::Fatal(m@),
        }
    }
}

/// The text of an error, as it is shown.
pub open spec fn text_of(e: ErrorModel) -> Seq<char> {
    match e {
        ErrorModel::BadInput(m) => "Bad Input: "@ + m,
        ErrorModel::JS(m) => "JS Exception: "@ + m,
        ErrorModel::Fatal(m) => "Fatal: "@ + m,
    }
}

impl Error {
    /// The error for a text that could not be cut into spans.
    pub fn bad_input(e: ParseError<'_>) -> (err: Error)
        ensures
            err@ == ErrorModel::BadInput("error Eof at: "@ + e.input@),
    {
        Error::BadInput(e.message())
    }

    /// A fatal error with the given message.
    pub fn fatal(msg: &str) -> (err: Error)
        ensures
            err@ == ErrorModel::Fatal(msg@),
    {
        Error::Fatal(String::from_str(msg))
    }

    /// The text of the error, as it is shown.
    pub fn to_string(&self) -> (text: String)
        ensures
            text@ == text_of(self@),
    {
        match self {
            Error::BadInput(m) => {
                let mut text = String::from_str("Bad Input: ");
                text.append(m.as_str());
                text
            },
            Error::JS(m) => {
                let mut text = String::from_str("JS Exception: ");
                text.append(m.as_str());
                text
            },
            Error::Fatal(m) => {
                let mut text = String::from_str("Fatal: ");
                text.append(m.as_str());
                text
            },
        }
    }
}

} // verus!
