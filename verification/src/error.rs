use crate::parser::{parser_error_text, JsonParserError, SpecParserError};
use crate::tokenizer::{tokenize_error_text, JsonTokenizeError, SpecTokenizeError};
use vstd::prelude::*;
use vstd::std_specs::convert::FromSpecImpl;

verus! {

/// Why a text could not be formatted: it could not be split into tokens, or
/// its tokens are not a JSON value.
#[derive(Debug)]
pub enum Error {
    Parse(JsonParserError),
    Tokenize(JsonTokenizeError),
}

/// Mathematical model of an [`Error`].
pub enum SpecError {
    Parse(SpecParserError),
    Tokenize(SpecTokenizeError),
}

impl View for Error {
    type V = SpecError;

    open spec fn view(&self) -> SpecError {
        match self {
            Error::Parse(e) => SpecError::Parse(e@),
            Error::Tokenize(e) => SpecError::Tokenize(e@),
        }
    }
}

/// The message of an error: that of the stage that failed.
pub open spec fn error_text(e: SpecError) -> Seq<char> {
    match e {
        SpecError::Parse(e) => parser_error_text(e),
        SpecError::Tokenize(e) => tokenize_error_text(e),
    }
}

impl Error {
    /// The message of the error.
    pub fn to_string(&self) -> (text: String)
        ensures
            text@ == error_text(self@),
    {
        match self {
            Error::Parse(e) => e.to_string(),
            Error::Tokenize(e) => e.to_string(),
        }
    }
}

impl From<JsonParserError> for Error {
    fn from(e: JsonParserError) -> (error: Self) {
        Error::Parse(e)
    }
}

impl FromSpecImpl<JsonParserError> for Error {
    open spec fn obeys_from_spec() -> bool {
        true
    }

    open spec fn from_spec(e: JsonParserError) -> Self {
        Error::Parse(e)
    }
}

impl From<JsonTokenizeError> for Error {
    fn from(e: JsonTokenizeError) -> (error: Self) {
        Error::Tokenize(e)
    }
}

impl FromSpecImpl<JsonTokenizeError> for Error {
    open spec fn obeys_from_spec() -> bool {
        true
    }

    open spec fn from_spec(e: JsonTokenizeError) -> Self {
        Error::Tokenize(e)
    }
}

} // verus!
