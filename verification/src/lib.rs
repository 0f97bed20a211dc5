//! A JSON formatter in three stages: text to tokens, tokens to a value tree,
//! value tree to indented text.
//!
//! Every stage is a function without state, and each has a mathematical model
//! that its contract pins it to: [`tokenizer::tokenize_spec`],
//! [`parser::parse_spec`] and [`formatter::format_spec`]. The modules
//! [`grammar`] and [`roundtrip`] prove how the stages fit together.
//!
//! A number is kept as its literal. The tokenizer checks that the literal is
//! well formed, and the formatter writes it as it stands; a caller that wants
//! numbers rounded rewrites the literals of the tokens between the stages.

pub mod error;
pub mod formatter;
pub mod grammar;
pub mod parser;
pub mod roundtrip;
pub mod span;
pub mod text;
pub mod tokenizer;

use error::{Error, SpecError};
use formatter::format_spec;
use parser::parse_spec;
use tokenizer::tokenize_spec;
use vstd::prelude::*;

verus! {

/// What formatting the text `content` yields: the canonical text of the value
/// that its tokens spell, or the error of the first stage that failed.
pub open spec fn format_json_spec(content: Seq<char>) -> Result<Seq<char>, SpecError> {
    match tokenize_spec(content) {
        Ok(tokens) => match parse_spec(tokens) {
            Ok(value) => Ok(format_spec(value)),
            Err(e) => Err(SpecError::Parse(e)),
        },
        Err(e) => Err(SpecError::Tokenize(e)),
    }
}

/// The model of what [`format_json`] returns.
pub open spec fn format_json_result_view(result: Result<String, Error>) -> Result<
    Seq<char>,
    SpecError,
> {
    match result {
        Ok(text) => Ok(text@),
        Err(e) => Err(e@),
    }
}

/// Formats the JSON text `content`: splits it into tokens, parses them and
/// writes the value as indented text.
pub fn format_json(content: String) -> (result: Result<String, Error>)
    ensures
        format_json_result_view(result) == format_json_spec(content@),
{
    let tokens = match tokenizer::tokenize(content.as_str()) {
        Ok(tokens) => tokens,
        Err(e) => {
            return Err(Error::from(e));
        },
    };
    let parsed = match parser::parser(&tokens) {
        Ok(parsed) => parsed,
        Err(e) => {
            return Err(Error::from(e));
        },
    };
    let formatted = formatter::format(&parsed);
    Ok(formatted)
}

} // verus!
