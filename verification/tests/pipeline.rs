use json_formatter::error::Error;
use json_formatter::format_json;
use json_formatter::formatter;
use json_formatter::parser::{parser, JsonParserError, JsonValue};
use json_formatter::tokenizer::{tokenize, JsonToken, JsonTokenizeError};

fn formatted(text: &str) -> String {
    format_json(text.to_string()).unwrap()
}

fn message(text: &str) -> String {
    format_json(text.to_string()).unwrap_err().to_string()
}

#[test]
fn format_json_indents_a_document() {
    assert_eq!(
        formatted("{\"a\":1,\"b\":[true]}"),
        "{\n  \"a\": 1,\n  \"b\": [\n    true\n  ]\n}"
    );
}

#[test]
fn format_json_drops_the_whitespace_of_the_input() {
    assert_eq!(
        formatted(" \t[ 1 ,\r\n 2 ]\n"),
        "[\n  1,\n  2\n]"
    );
}

#[test]
fn format_json_of_scalars() {
    assert_eq!(formatted("null"), "null");
    assert_eq!(formatted("true"), "true");
    assert_eq!(formatted("false"), "false");
    assert_eq!(formatted("42"), "42");
    assert_eq!(formatted("\"hi\""), "\"hi\"");
}

#[test]
fn format_json_of_empty_containers() {
    assert_eq!(formatted("[]"), "[]");
    assert_eq!(formatted("{}"), "{}");
    assert_eq!(formatted("[ ]"), "[]");
    assert_eq!(formatted("{\n}"), "{}");
}

#[test]
fn format_json_keeps_duplicate_keys() {
    assert_eq!(
        formatted("{\"a\":1,\"a\":2}"),
        "{\n  \"a\": 1,\n  \"a\": 2\n}"
    );
}

#[test]
fn format_json_decodes_escapes_and_writes_them_raw() {
    assert_eq!(formatted("\"a\\nb\""), "\"a\nb\"");
    assert_eq!(formatted("\"\\u0048\\u0069\""), "\"Hi\"");
    assert_eq!(formatted("\"a\\\"b\""), "\"a\"b\"");
}

#[test]
fn format_json_reports_the_tokenizer_error() {
    match format_json("[1, nulll]".to_string()) {
        Err(Error::Tokenize(e)) => {
            assert_eq!(e, JsonTokenizeError::UnexpectedLiteral("nulll".to_string()))
        }
        other => panic!("{:?}", other),
    }
    assert_eq!(message("[1, nulll]"), "Unexpected literal: 'nulll'");
    assert_eq!(message("\"\\x\""), "Invalid escape character: 'x'");
    assert_eq!(message("123.456.789"), "Invalid number literal: '123.456.789'");
    assert_eq!(message("\"abc"), "Unexpected end of input");
}

#[test]
fn format_json_reports_the_parser_error() {
    match format_json("[1,]".to_string()) {
        Err(Error::Parse(e)) => {
            assert_eq!(e, JsonParserError::UnexpectedToken(JsonToken::RightSquareBracket))
        }
        other => panic!("{:?}", other),
    }
    assert_eq!(message("[1,]"), "Unexpected token: ']'");
    assert_eq!(message(""), "Unexpected end of input");
    assert_eq!(message("{\"a\" 1}"), "Unexpected end of input");
    assert_eq!(message("{\"a\":1 \"b\"}"), "Unexpected token: '\"b\"'");
    assert_eq!(message("[1 2.5]"), "Unexpected token: '2.5'");
}

#[test]
fn tokenizer_error_comes_before_parser_error() {
    assert_eq!(message("] nulll"), "Unexpected literal: 'nulll'");
}

#[test]
fn error_converts_from_the_errors_of_both_stages() {
    match Error::from(JsonParserError::UnexpectedEndOfInput) {
        Error::Parse(e) => assert_eq!(e, JsonParserError::UnexpectedEndOfInput),
        other => panic!("{:?}", other),
    }
    match Error::from(JsonTokenizeError::UnexpectedCharacter('x')) {
        Error::Tokenize(e) => assert_eq!(e, JsonTokenizeError::UnexpectedCharacter('x')),
        other => panic!("{:?}", other),
    }
    assert_eq!(
        Error::from(JsonTokenizeError::UnexpectedCharacter('x')).to_string(),
        "Unexpected character: 'x'"
    );
    assert_eq!(
        Error::from(JsonParserError::UnexpectedToken(JsonToken::Colon)).to_string(),
        "Unexpected token: ':'"
    );
}

fn sample() -> JsonValue {
    JsonValue::Object(vec![
        ("n".to_string(), JsonValue::Number("-12.5e3".to_string())),
        ("s".to_string(), JsonValue::String("two words\there".to_string())),
        (
            "list".to_string(),
            JsonValue::Array(vec![
                JsonValue::Null,
                JsonValue::Bool(false),
                JsonValue::Array(vec![]),
                JsonValue::Object(vec![]),
                JsonValue::Object(vec![
                    ("k".to_string(), JsonValue::Bool(true)),
                    ("k".to_string(), JsonValue::String(String::new())),
                ]),
            ]),
        ),
    ])
}

#[test]
fn formatted_text_parses_back_to_the_value() {
    let value = sample();
    let text = formatter::format(&value);
    assert_eq!(parser(&tokenize(&text).unwrap()), Ok(sample()));
}

#[test]
fn formatting_formatted_text_changes_nothing() {
    let text = formatter::format(&sample());
    assert_eq!(format_json(text.clone()).unwrap(), text);
    let once = formatted("{\"a\":[1,{\"b\":null}],\"c\":\"d\"}");
    assert_eq!(formatted(&once), once);
}

#[test]
fn string_with_a_quote_does_not_read_back() {
    let value = JsonValue::String("a\"b".to_string());
    let text = formatter::format(&value);
    assert_eq!(text, "\"a\"b\"");
    assert_eq!(
        tokenize(&text),
        Err(JsonTokenizeError::UnexpectedLiteral("b\"".to_string()))
    );
}

#[test]
fn whitespace_around_a_scalar_is_dropped() {
    assert_eq!(tokenize("  true \n"), Ok(vec![JsonToken::True]));
    assert_eq!(formatted("\t\"hi\"\r\n"), "\"hi\"");
    assert_eq!(formatted(" -1.5e3 "), "-1.5e3");
}

/// The literal of a number, rounded to a 64-bit float and written back.
fn rounded(token: JsonToken) -> JsonToken {
    match token {
        JsonToken::Number(literal) => {
            JsonToken::Number(literal.parse::<f64>().unwrap().to_string())
        }
        other => other,
    }
}

fn formatted_with_floats(text: &str) -> String {
    let tokens: Vec<JsonToken> = tokenize(text).unwrap().into_iter().map(rounded).collect();
    formatter::format(&parser(&tokens).unwrap())
}

#[test]
fn numbers_can_be_rounded_between_the_stages() {
    assert_eq!(formatted_with_floats("123e4"), "1230000");
    assert_eq!(formatted_with_floats("[18.0, 1.50, -0]"), "[\n  18,\n  1.5,\n  -0\n]");
    assert_eq!(formatted_with_floats("0.1000000000000000055511151231257827"), "0.1");
    assert_eq!(formatted_with_floats("1e-7"), "0.0000001");
    assert_eq!(formatted_with_floats("123.456e-789"), "0");
    assert_eq!(formatted_with_floats("{\"n\": 42}"), "{\n  \"n\": 42\n}");
}

#[test]
fn every_accepted_number_reads_as_a_float() {
    for text in ["0", "-0", "1.", "-.5", "1.e5", "007", "1E+05", "9e999", "-9e999", "1e-999"] {
        match tokenize(text) {
            Ok(tokens) => match &tokens[..] {
                [JsonToken::Number(literal)] => assert!(literal.parse::<f64>().is_ok(), "{}", text),
                other => panic!("{:?}", other),
            },
            Err(e) => panic!("{:?}", e),
        }
    }
}
