use json_formatter::tokenizer::{number_literal, tokenize, JsonToken, JsonTokenizeError};

/// A token whose number, if it is one, is read as a float.
#[derive(Debug, PartialEq)]
enum Decoded {
    Number(f64),
    Other(JsonToken),
}

fn decoded(input: &str) -> Result<Vec<Decoded>, JsonTokenizeError> {
    let tokens = tokenize(input)?;
    Ok(tokens
        .into_iter()
        .map(|token| match token {
            JsonToken::Number(literal) => Decoded::Number(literal.parse::<f64>().unwrap()),
            other => Decoded::Other(other),
        })
        .collect())
}

fn number_token(literal: &str) -> JsonToken {
    JsonToken::Number(literal.to_string())
}

#[test]
fn tokenize_empty() {
    let input = "";
    let actual = tokenize(&input);
    let expected = Ok(vec![]);
    assert_eq!(actual, expected);
}

#[test]
fn tokenize_left_square_bracket() {
    let input = "[";
    let actual = tokenize(&input);
    let expected = Ok(vec![JsonToken::LeftSquareBracket]);
    assert_eq!(actual, expected);
}

#[test]
fn tokenize_right_square_bracket() {
    let input = "]";
    let actual = tokenize(&input);
    let expected = Ok(vec![JsonToken::RightSquareBracket]);
    assert_eq!(actual, expected);
}

#[test]
fn tokenize_left_curly_bracket() {
    let input = "{";
    let actual = tokenize(&input);
    let expected = Ok(vec![JsonToken::LeftCurlyBracket]);
    assert_eq!(actual, expected);
}

#[test]
fn tokenize_right_curly_bracket() {
    let input = "}";
    let actual = tokenize(&input);
    let expected = Ok(vec![JsonToken::RightCurlyBracket]);
    assert_eq!(actual, expected);
}

#[test]
fn tokenize_colon() {
    let input = ":";
    let actual = tokenize(&input);
    let expected = Ok(vec![JsonToken::Colon]);
    assert_eq!(actual, expected);
}

#[test]
fn tokenize_comma() {
    let input = ",";
    let actual = tokenize(&input);
    let expected = Ok(vec![JsonToken::Comma]);
    assert_eq!(actual, expected);
}

#[test]
fn tokenize_ignore_whitespace() {
    let input = " \n\t\r";
    let actual = tokenize(&input);
    let expected = Ok(vec![]);
    assert_eq!(actual, expected);
}

#[test]
fn tokenize_true() {
    let input = "true";
    let actual = tokenize(&input);
    let expected = Ok(vec![JsonToken::True]);
    assert_eq!(actual, expected);
}

#[test]
fn tokenize_false() {
    let input = "false";
    let actual = tokenize(&input);
    let expected = Ok(vec![JsonToken::False]);
    assert_eq!(actual, expected);
}

#[test]
fn tokenize_null() {
    let input = "null";
    let actual = tokenize(&input);
    let expected = Ok(vec![JsonToken::Null]);
    assert_eq!(actual, expected);
}

#[test]
fn tokenize_unexpected_literal() {
    let input = "nulll";
    let actual = tokenize(&input);
    let expected = Err(JsonTokenizeError::UnexpectedLiteral("nulll".to_string()));
    assert_eq!(actual, expected);
}

#[test]
fn tokenize_string() {
    let input = "\"hello\"";
    let actual = tokenize(&input);
    let expected = Ok(vec![JsonToken::String("hello".to_string())]);
    assert_eq!(actual, expected);
}

#[test]
fn tokenize_string_with_escaped_chars() {
    let input = "\" \\\" \\\\ \\/ \\b \\f \\n \\r \\t\"";
    let actual = tokenize(&input);
    let expected = Ok(vec![JsonToken::String(
        " \" \\ / \u{0008} \u{000C} \n \r \t".to_string(),
    )]);
    assert_eq!(actual, expected);
}

#[test]
fn tokenize_string_with_unicode_escape_chars() {
    let input = "\"\\u0048\\u0065\\u006C\\u006C\\u006F\"";
    let actual = tokenize(&input);
    let expected = Ok(vec![JsonToken::String("Hello".to_string())]);
    assert_eq!(actual, expected);
}

#[test]
fn tokenize_invalid_escape_character() {
    let input = "\"\\x\"";
    let actual = tokenize(&input);
    let expected = Err(JsonTokenizeError::InvalidEscapeCharacter("x".to_string()));
    assert_eq!(actual, expected);
}

#[test]
fn tokenize_invalid_unicode_escape_character() {
    let input = "\"\\u123\"";
    let actual = tokenize(&input);
    let expected = Err(JsonTokenizeError::InvalidEscapeCharacter("123".to_string()));
    assert_eq!(actual, expected);
}

#[test]
fn tokenize_number_positive() {
    assert_eq!(decoded("123"), Ok(vec![Decoded::Number(123.0)]));
    assert_eq!(decoded("123.456"), Ok(vec![Decoded::Number(123.456)]));
    assert_eq!(decoded("123e4"), Ok(vec![Decoded::Number(123e4)]));
    assert_eq!(decoded("123e+4"), Ok(vec![Decoded::Number(123e4)]));
    assert_eq!(decoded("123E4"), Ok(vec![Decoded::Number(123e4)]));
    assert_eq!(decoded("123e-4"), Ok(vec![Decoded::Number(123e-4)]));
    assert_eq!(
        decoded("123.456e-789"),
        Ok(vec![Decoded::Number(123.456e-789)])
    );
}

#[test]
fn tokenize_number_negative() {
    assert_eq!(decoded("-123"), Ok(vec![Decoded::Number(-123.0)]));
    assert_eq!(decoded("-123.456"), Ok(vec![Decoded::Number(-123.456)]));
    assert_eq!(decoded("-123e4"), Ok(vec![Decoded::Number(-123e4)]));
    assert_eq!(decoded("-123e+4"), Ok(vec![Decoded::Number(-123e4)]));
    assert_eq!(decoded("-123E4"), Ok(vec![Decoded::Number(-123e4)]));
    assert_eq!(decoded("-123e-4"), Ok(vec![Decoded::Number(-123e-4)]));
    assert_eq!(
        decoded("-123.456e-789"),
        Ok(vec![Decoded::Number(-123.456e-789)])
    );
}

#[test]
fn tokenize_invalid_number_literal() {
    let input = "123.456.789";
    let actual = tokenize(&input);
    let expected = Err(JsonTokenizeError::InvalidNumberLiteral(
        "123.456.789".to_string(),
    ));
    assert_eq!(actual, expected);
}

#[test]
fn number_token_keeps_its_literal() {
    assert_eq!(tokenize("123e+4"), Ok(vec![number_token("123e+4")]));
    assert_eq!(tokenize("-0.50"), Ok(vec![number_token("-0.50")]));
    assert_eq!(tokenize("1.E2"), Ok(vec![number_token("1.E2")]));
}

#[test]
fn number_ends_at_the_first_other_character() {
    assert_eq!(
        tokenize("12,3"),
        Ok(vec![number_token("12"), JsonToken::Comma, number_token("3")])
    );
    assert_eq!(tokenize("1 2"), Ok(vec![number_token("1"), number_token("2")]));
    assert_eq!(
        tokenize("1true"),
        Ok(vec![number_token("1"), JsonToken::True])
    );
    assert_eq!(
        tokenize("1-2"),
        Err(JsonTokenizeError::InvalidNumberLiteral("1-2".to_string()))
    );
}

#[test]
fn malformed_numbers_are_rejected_with_their_text() {
    for text in ["-", "1e", "1e+", "-.", "--1", "1.2.3", "1ee2", "-e5", "1.e", "1+"] {
        assert_eq!(
            tokenize(text),
            Err(JsonTokenizeError::InvalidNumberLiteral(text.to_string())),
            "{}",
            text
        );
    }
}

#[test]
fn unusual_but_valid_numbers_are_accepted() {
    for text in ["-.5", "1.", "1.e5", "007", "0e0", "-0", "1E+05"] {
        assert_eq!(tokenize(text), Ok(vec![number_token(text)]), "{}", text);
    }
}

#[test]
fn number_literal_agrees_with_float_parsing() {
    let alphabet = ['0', '7', '-', '+', 'e', 'E', '.'];
    let mut texts: Vec<String> = vec![String::new()];
    let mut checked = 0;
    for _ in 0..6 {
        let mut longer = Vec::new();
        for text in &texts {
            for c in alphabet {
                let mut next = text.clone();
                next.push(c);
                let chars: Vec<char> = next.chars().collect();
                assert_eq!(
                    number_literal(&chars),
                    next.parse::<f64>().is_ok(),
                    "{}",
                    next
                );
                checked += 1;
                longer.push(next);
            }
        }
        texts = longer;
    }
    assert_eq!(checked, 7 + 49 + 343 + 2401 + 16807 + 117649);
    assert!(!number_literal(&Vec::new()));
}

#[test]
fn bareword_runs_to_the_next_delimiter() {
    assert_eq!(
        tokenize("true,false null]"),
        Ok(vec![
            JsonToken::True,
            JsonToken::Comma,
            JsonToken::False,
            JsonToken::Null,
            JsonToken::RightSquareBracket
        ])
    );
    assert_eq!(
        tokenize("tru\"e"),
        Err(JsonTokenizeError::UnexpectedLiteral("tru\"e".to_string()))
    );
    assert_eq!(
        tokenize("+1"),
        Err(JsonTokenizeError::UnexpectedLiteral("+1".to_string()))
    );
    assert_eq!(
        tokenize("[True]"),
        Err(JsonTokenizeError::UnexpectedLiteral("True".to_string()))
    );
}

#[test]
fn unterminated_string_is_end_of_input() {
    assert_eq!(
        tokenize("\"abc"),
        Err(JsonTokenizeError::UnexpectedEndOfInput)
    );
    assert_eq!(tokenize("\""), Err(JsonTokenizeError::UnexpectedEndOfInput));
}

#[test]
fn backslash_at_the_end_is_end_of_input() {
    assert_eq!(
        tokenize("\"abc\\"),
        Err(JsonTokenizeError::UnexpectedEndOfInput)
    );
}

#[test]
fn unicode_escape_needs_four_hex_digits() {
    assert_eq!(
        tokenize("\"\\u12"),
        Err(JsonTokenizeError::InvalidEscapeCharacter("12".to_string()))
    );
    assert_eq!(
        tokenize("\"\\u\""),
        Err(JsonTokenizeError::InvalidEscapeCharacter(String::new()))
    );
    assert_eq!(
        tokenize("\"\\u12G4\""),
        Err(JsonTokenizeError::InvalidEscapeCharacter("12G4".to_string()))
    );
    assert_eq!(
        tokenize("\"\\u+041\""),
        Err(JsonTokenizeError::InvalidEscapeCharacter("+041".to_string()))
    );
}

#[test]
fn unicode_escape_of_a_surrogate_is_rejected() {
    assert_eq!(
        tokenize("\"\\uD83D\\uDE00\""),
        Err(JsonTokenizeError::InvalidEscapeCharacter("D83D".to_string()))
    );
    assert_eq!(
        tokenize("\"\\udfff\""),
        Err(JsonTokenizeError::InvalidEscapeCharacter("dfff".to_string()))
    );
}

#[test]
fn unicode_escape_decodes_the_edges_of_the_range() {
    assert_eq!(
        tokenize("\"\\u0000\\ud7ff\\uE000\\uffff\\u00e9\""),
        Ok(vec![JsonToken::String(
            "\u{0}\u{d7ff}\u{e000}\u{ffff}\u{e9}".to_string()
        )])
    );
}

#[test]
fn string_keeps_characters_outside_ascii() {
    assert_eq!(
        tokenize("\"h\u{e9}llo \u{1F600}\" \u{e9}"),
        Err(JsonTokenizeError::UnexpectedLiteral("\u{e9}".to_string()))
    );
    assert_eq!(
        tokenize("\"h\u{e9}llo \u{1F600}\""),
        Ok(vec![JsonToken::String("h\u{e9}llo \u{1F600}".to_string())])
    );
}

#[test]
fn first_error_wins_and_no_tokens_are_returned() {
    assert_eq!(
        tokenize("[1, 2, nul, \"\\x\"]"),
        Err(JsonTokenizeError::UnexpectedLiteral("nul".to_string()))
    );
}

#[test]
fn token_to_string_reproduces_the_text() {
    assert_eq!(JsonToken::LeftSquareBracket.to_string(), "[");
    assert_eq!(JsonToken::LeftCurlyBracket.to_string(), "{");
    assert_eq!(JsonToken::RightSquareBracket.to_string(), "]");
    assert_eq!(JsonToken::RightCurlyBracket.to_string(), "}");
    assert_eq!(JsonToken::Colon.to_string(), ":");
    assert_eq!(JsonToken::Comma.to_string(), ",");
    assert_eq!(JsonToken::True.to_string(), "true");
    assert_eq!(JsonToken::False.to_string(), "false");
    assert_eq!(JsonToken::Null.to_string(), "null");
    assert_eq!(JsonToken::String("hi".to_string()).to_string(), "\"hi\"");
    assert_eq!(number_token("12.5").to_string(), "12.5");
}

#[test]
fn tokenize_error_messages() {
    assert_eq!(
        JsonTokenizeError::InvalidEscapeCharacter("x".to_string()).to_string(),
        "Invalid escape character: 'x'"
    );
    assert_eq!(
        JsonTokenizeError::InvalidNumberLiteral("1.2.3".to_string()).to_string(),
        "Invalid number literal: '1.2.3'"
    );
    assert_eq!(
        JsonTokenizeError::UnexpectedCharacter('?').to_string(),
        "Unexpected character: '?'"
    );
    assert_eq!(
        JsonTokenizeError::UnexpectedEndOfInput.to_string(),
        "Unexpected end of input"
    );
    assert_eq!(
        JsonTokenizeError::UnexpectedLiteral("nulll".to_string()).to_string(),
        "Unexpected literal: 'nulll'"
    );
}

#[test]
fn cloned_token_is_equal() {
    let token = JsonToken::String("a\"b".to_string());
    assert_eq!(token.clone(), token);
    assert_eq!(number_token("1e5").clone(), number_token("1e5"));
    assert_eq!(JsonToken::Colon.clone(), JsonToken::Colon);
}
