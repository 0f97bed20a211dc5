use crate::text::{chars_of, is_scalar_value, string_of};
use vstd::prelude::*;
use vstd::string::StringExecFns;

verus! {

/// One lexical unit of JSON text.
///
/// A number carries its literal as written; a string carries its decoded
/// content, without the quotes.
#[derive(Debug, PartialEq)]
pub enum JsonToken {
    LeftSquareBracket,
    LeftCurlyBracket,
    RightSquareBracket,
    RightCurlyBracket,
    Colon,
    Comma,
    True,
    False,
    Null,
    String(String),
    Number(String),
}

/// Mathematical model of a [`JsonToken`].
pub enum SpecToken {
    LeftSquareBracket,
    LeftCurlyBracket,
    RightSquareBracket,
    RightCurlyBracket,
    Colon,
    Comma,
    True,
    False,
    Null,
    String(Seq<char>),
    Number(Seq<char>),
}

impl View for JsonToken {
    type V = SpecToken;

    open spec fn view(&self) -> SpecToken {
        match self {
            JsonToken::LeftSquareBracket => SpecToken::LeftSquareBracket,
            JsonToken::LeftCurlyBracket => SpecToken::LeftCurlyBracket,
            JsonToken::RightSquareBracket => SpecToken::RightSquareBracket,
            JsonToken::RightCurlyBracket => SpecToken::RightCurlyBracket,
            JsonToken::Colon => SpecToken::Colon,
            JsonToken::Comma => SpecToken::Comma,
            JsonToken::True => SpecToken::True,
            JsonToken::False => SpecToken::False,
            JsonToken::Null => SpecToken::Null,
            JsonToken::String(content) => SpecToken::String(content@),
            JsonToken::Number(literal) => SpecToken::Number(literal@),
        }
    }
}

impl Clone for JsonToken {
    fn clone(&self) -> (copy: Self)
        ensures
            copy@ == self@,
    {
        match self {
            JsonToken::LeftSquareBracket => JsonToken::LeftSquareBracket,
            JsonToken::LeftCurlyBracket => JsonToken::LeftCurlyBracket,
            JsonToken::RightSquareBracket => JsonToken::RightSquareBracket,
            JsonToken::RightCurlyBracket => JsonToken::RightCurlyBracket,
            JsonToken::Colon => JsonToken::Colon,
            JsonToken::Comma => JsonToken::Comma,
            JsonToken::True => JsonToken::True,
            JsonToken::False => JsonToken::False,
            JsonToken::Null => JsonToken::Null,
            JsonToken::String(content) => JsonToken::String(content.clone()),
            JsonToken::Number(literal) => JsonToken::Number(literal.clone()),
        }
    }
}

/// How a token is written in a message: punctuation and the three words as
/// themselves, a string between double quotes, a number as its literal.
pub open spec fn token_text(token: SpecToken) -> Seq<char> {
    match token {
        SpecToken::LeftSquareBracket => "["@,
        SpecToken::LeftCurlyBracket => "{"@,
        SpecToken::RightSquareBracket => "]"@,
        SpecToken::RightCurlyBracket => "}"@,
        SpecToken::Colon => ":"@,
        SpecToken::Comma => ","@,
        SpecToken::True => "true"@,
        SpecToken::False => "false"@,
        SpecToken::Null => "null"@,
        SpecToken::String(content) => "\""@ + content + "\""@,
        SpecToken::Number(literal) => literal,
    }
}

impl JsonToken {
    /// The token as it is written in a message.
    pub fn to_string(&self) -> (text: String)
        ensures
            text@ == token_text(self@),
    {
        match self {
            JsonToken::LeftSquareBracket => "[".to_owned(),
            JsonToken::LeftCurlyBracket => "{".to_owned(),
            JsonToken::RightSquareBracket => "]".to_owned(),
            JsonToken::RightCurlyBracket => "}".to_owned(),
            JsonToken::Colon => ":".to_owned(),
            JsonToken::Comma => ",".to_owned(),
            JsonToken::True => "true".to_owned(),
            JsonToken::False => "false".to_owned(),
            JsonToken::Null => "null".to_owned(),
            JsonToken::String(value) => {
                let mut text = "\"".to_owned();
                text.append(value.as_str());
                text.append("\"");
                text
            },
            JsonToken::Number(value) => value.clone(),
        }
    }
}

/// Why a text could not be split into tokens.
#[derive(Debug, PartialEq)]
pub enum JsonTokenizeError {
    UnexpectedLiteral(String),
    UnexpectedCharacter(char),
    UnexpectedEndOfInput,
    InvalidEscapeCharacter(String),
    InvalidNumberLiteral(String),
}

/// Mathematical model of a [`JsonTokenizeError`].
pub enum SpecTokenizeError {
    UnexpectedLiteral(Seq<char>),
    UnexpectedCharacter(char),
    UnexpectedEndOfInput,
    InvalidEscapeCharacter(Seq<char>),
    InvalidNumberLiteral(Seq<char>),
}

impl View for JsonTokenizeError {
    type V = SpecTokenizeError;

    open spec fn view(&self) -> SpecTokenizeError {
        match self {
            JsonTokenizeError::UnexpectedLiteral(text) => SpecTokenizeError::UnexpectedLiteral(
                text@,
            ),
            JsonTokenizeError::UnexpectedCharacter(c) => SpecTokenizeError::UnexpectedCharacter(*c),
            JsonTokenizeError::UnexpectedEndOfInput => SpecTokenizeError::UnexpectedEndOfInput,
            JsonTokenizeError::InvalidEscapeCharacter(text) => {
                SpecTokenizeError::InvalidEscapeCharacter(text@)
            },
            JsonTokenizeError::InvalidNumberLiteral(text) => {
                SpecTokenizeError::InvalidNumberLiteral(text@)
            },
        }
    }
}

/// The message of a tokenizer error.
pub open spec fn tokenize_error_text(e: SpecTokenizeError) -> Seq<char> {
    match e {
        SpecTokenizeError::UnexpectedLiteral(text) => "Unexpected literal: '"@ + text + "'"@,
        SpecTokenizeError::UnexpectedCharacter(c) => "Unexpected character: '"@ + seq![c] + "'"@,
        SpecTokenizeError::UnexpectedEndOfInput => "Unexpected end of input"@,
        SpecTokenizeError::InvalidEscapeCharacter(text) => "Invalid escape character: '"@ + text
            + "'"@,
        SpecTokenizeError::InvalidNumberLiteral(text) => "Invalid number literal: '"@ + text + "'"@,
    }
}

impl JsonTokenizeError {
    /// The message of the error.
    pub fn to_string(&self) -> (text: String)
        ensures
            text@ == tokenize_error_text(self@),
    {
        match self {
            JsonTokenizeError::UnexpectedLiteral(literal) => {
                let mut text = "Unexpected literal: '".to_owned();
                text.append(literal.as_str());
                text.append("'");
                text
            },
            JsonTokenizeError::UnexpectedCharacter(c) => {
                let mut text = "Unexpected character: '".to_owned();
                text.push(*c);
                text.append("'");
                assert(text@ =~= "Unexpected character: '"@ + seq![*c] + "'"@);
                text
            },
            JsonTokenizeError::UnexpectedEndOfInput => "Unexpected end of input".to_owned(),
            JsonTokenizeError::InvalidEscapeCharacter(escape) => {
                let mut text = "Invalid escape character: '".to_owned();
                text.append(escape.as_str());
                text.append("'");
                text
            },
            JsonTokenizeError::InvalidNumberLiteral(literal) => {
                let mut text = "Invalid number literal: '".to_owned();
                text.append(literal.as_str());
                text.append("'");
                text
            },
        }
    }
}

/// The four blank characters that separate tokens and are never tokens themselves.
pub open spec fn is_whitespace(c: char) -> bool {
    c == ' ' || c == '\n' || c == '\t' || c == '\r'
}

/// The six punctuation characters, each a token by itself.
pub open spec fn is_structural(c: char) -> bool {
    c == '[' || c == ']' || c == '{' || c == '}' || c == ':' || c == ','
}

/// The ten decimal digits.
pub open spec fn is_digit(c: char) -> bool {
    '0' <= c <= '9'
}

/// The plus and the minus sign.
pub open spec fn is_sign(c: char) -> bool {
    c == '+' || c == '-'
}

/// The characters that the number scanner accumulates.
pub open spec fn is_number_char(c: char) -> bool {
    is_digit(c) || is_sign(c) || c == 'e' || c == 'E' || c == '.'
}

/// The classes of characters that a scanner accumulates greedily.
#[derive(Clone, Copy)]
pub enum CharClass {
    /// Decimal digits.
    Digit,
    /// Digits, signs, `e`, `E` and the decimal point.
    Number,
    /// Everything but whitespace and punctuation.
    Bareword,
}

/// Whether `c` belongs to `class`.
pub open spec fn in_class(c: char, class: CharClass) -> bool {
    match class {
        CharClass::Digit => is_digit(c),
        CharClass::Number => is_number_char(c),
        CharClass::Bareword => !is_whitespace(c) && !is_structural(c),
    }
}

/// How many characters of `s` stand at index `from` and after it.
pub open spec fn remaining(s: Seq<char>, from: int) -> nat {
    if 0 <= from < s.len() {
        (s.len() - from) as nat
    } else {
        0
    }
}

/// How many characters of `s`, counted from index `from`, belong to `class`
/// before the first one that does not, or the end of `s`.
pub open spec fn run_length(s: Seq<char>, from: int, class: CharClass) -> nat
    decreases remaining(s, from),
{
    if 0 <= from < s.len() && in_class(s[from], class) {
        1 + run_length(s, from + 1, class)
    } else {
        0
    }
}

/// The exponent part of a number literal, from index `at` to the end of `t`:
/// `e` or `E`, an optional sign, and at least one digit.
pub open spec fn is_exponent(t: Seq<char>, at: int) -> bool {
    let digits_from = if at + 1 < t.len() && is_sign(t[at + 1]) {
        at + 2
    } else {
        at + 1
    };
    &&& 0 <= at < t.len()
    &&& (t[at] == 'e' || t[at] == 'E')
    &&& run_length(t, digits_from, CharClass::Digit) > 0
    &&& digits_from + run_length(t, digits_from, CharClass::Digit) == t.len()
}

/// Whether `t` is a decimal floating-point literal: an optional sign, digits
/// with at most one decimal point and at least one digit before or after it,
/// and an optional exponent.
pub open spec fn is_number_literal(t: Seq<char>) -> bool {
    let start = if t.len() > 0 && is_sign(t[0]) {
        1int
    } else {
        0int
    };
    let whole = run_length(t, start, CharClass::Digit);
    let dot = start + whole;
    let has_dot = dot < t.len() && t[dot] == '.';
    let fraction = if has_dot {
        run_length(t, dot + 1, CharClass::Digit)
    } else {
        0
    };
    let mantissa_end = if has_dot {
        dot + 1 + fraction
    } else {
        dot
    };
    &&& whole + fraction > 0
    &&& (mantissa_end == t.len() || is_exponent(t, mantissa_end))
}

/// The hexadecimal digits, in either case.
pub open spec fn is_hex_digit(c: char) -> bool {
    is_digit(c) || 'a' <= c <= 'f' || 'A' <= c <= 'F'
}

/// The value of a hexadecimal digit.
pub open spec fn hex_digit_value(c: char) -> int
    recommends
        is_hex_digit(c),
{
    if is_digit(c) {
        c as int - '0' as int
    } else if 'a' <= c <= 'f' {
        c as int - 'a' as int + 10
    } else {
        c as int - 'A' as int + 10
    }
}

/// The number that four hexadecimal digits write.
pub open spec fn code_unit(digits: Seq<char>) -> int
    recommends
        digits.len() == 4,
{
    ((hex_digit_value(digits[0]) * 16 + hex_digit_value(digits[1])) * 16 + hex_digit_value(
        digits[2],
    )) * 16 + hex_digit_value(digits[3])
}

/// The character that a one-letter escape stands for.
pub open spec fn simple_escape(c: char) -> Option<char> {
    if c == '"' {
        Some('"')
    } else if c == '\\' {
        Some('\\')
    } else if c == '/' {
        Some('/')
    } else if c == 'b' {
        Some('\u{0008}')
    } else if c == 'f' {
        Some('\u{000C}')
    } else if c == 'n' {
        Some('\u{000A}')
    } else if c == 'r' {
        Some('\u{000D}')
    } else if c == 't' {
        Some('\u{0009}')
    } else {
        None
    }
}

/// The characters that follow `\u`: up to `limit` of them from index `from`,
/// ending early at a double quote or at the end of `s`.
pub open spec fn escape_digits(s: Seq<char>, from: int, limit: nat) -> Seq<char>
    decreases limit,
{
    if limit == 0 || from < 0 || from >= s.len() || s[from] == '"' {
        Seq::empty()
    } else {
        seq![s[from]] + escape_digits(s, from + 1, (limit - 1) as nat)
    }
}

/// The escape whose first character, the one after the backslash, stands at
/// index `at`: the character it decodes to and the number of characters it
/// takes after the backslash.
pub open spec fn scan_escape(s: Seq<char>, at: int) -> Result<(char, nat), SpecTokenizeError> {
    if at < 0 || at >= s.len() {
        Err(SpecTokenizeError::UnexpectedEndOfInput)
    } else if s[at] == 'u' {
        let digits = escape_digits(s, at + 1, 4);
        if digits.len() == 4 && (forall|i: int| 0 <= i < 4 ==> is_hex_digit(#[trigger] digits[i]))
            && is_scalar_value(code_unit(digits)) {
            Ok((code_unit(digits) as char, 5))
        } else {
            Err(SpecTokenizeError::InvalidEscapeCharacter(digits))
        }
    } else {
        match simple_escape(s[at]) {
            Some(c) => Ok((c, 1)),
            None => Err(SpecTokenizeError::InvalidEscapeCharacter(seq![s[at]])),
        }
    }
}

/// `prefix` put in front of the content that a scan found, `width` added to
/// the characters it took.
pub open spec fn extend_scan(
    prefix: Seq<char>,
    width: nat,
    rest: Result<(Seq<char>, nat), SpecTokenizeError>,
) -> Result<(Seq<char>, nat), SpecTokenizeError> {
    match rest {
        Ok((content, taken)) => Ok((prefix + content, width + taken)),
        Err(e) => Err(e),
    }
}

/// The body of a string literal from index `from`, just after the opening
/// quote: the decoded content and the number of characters taken, the closing
/// quote included. A text that ends before the closing quote is an error.
pub open spec fn scan_string(s: Seq<char>, from: int) -> Result<(Seq<char>, nat), SpecTokenizeError>
    decreases remaining(s, from),
{
    if from < 0 || from >= s.len() {
        Err(SpecTokenizeError::UnexpectedEndOfInput)
    } else if s[from] == '"' {
        Ok((Seq::empty(), 1))
    } else if s[from] == '\\' {
        match scan_escape(s, from + 1) {
            Ok((c, taken)) => extend_scan(seq![c], 1 + taken, scan_string(s, from + 1 + taken)),
            Err(e) => Err(e),
        }
    } else {
        extend_scan(seq![s[from]], 1, scan_string(s, from + 1))
    }
}

/// The token that starts at index `at` and the number of characters it takes.
pub open spec fn scan_token(s: Seq<char>, at: int) -> Result<(SpecToken, nat), SpecTokenizeError>
    recommends
        0 <= at < s.len(),
        !is_whitespace(s[at]),
{
    let c = s[at];
    if c == '[' {
        Ok((SpecToken::LeftSquareBracket, 1))
    } else if c == '{' {
        Ok((SpecToken::LeftCurlyBracket, 1))
    } else if c == ']' {
        Ok((SpecToken::RightSquareBracket, 1))
    } else if c == '}' {
        Ok((SpecToken::RightCurlyBracket, 1))
    } else if c == ':' {
        Ok((SpecToken::Colon, 1))
    } else if c == ',' {
        Ok((SpecToken::Comma, 1))
    } else if c == '"' {
        match scan_string(s, at + 1) {
            Ok((content, taken)) => Ok((SpecToken::String(content), 1 + taken)),
            Err(e) => Err(e),
        }
    } else if c == '-' || is_digit(c) {
        let taken = run_length(s, at, CharClass::Number);
        let literal = s.subrange(at, at + taken);
        if is_number_literal(literal) {
            Ok((SpecToken::Number(literal), taken))
        } else {
            Err(SpecTokenizeError::InvalidNumberLiteral(literal))
        }
    } else {
        let taken = run_length(s, at, CharClass::Bareword);
        let word = s.subrange(at, at + taken);
        if word == "true"@ {
            Ok((SpecToken::True, taken))
        } else if word == "false"@ {
            Ok((SpecToken::False, taken))
        } else if word == "null"@ {
            Ok((SpecToken::Null, taken))
        } else {
            Err(SpecTokenizeError::UnexpectedLiteral(word))
        }
    }
}

/// `first` put in front of the tokens that the rest of a scan found.
pub open spec fn extend_tokens(
    first: Seq<SpecToken>,
    rest: Result<Seq<SpecToken>, SpecTokenizeError>,
) -> Result<Seq<SpecToken>, SpecTokenizeError> {
    match rest {
        Ok(tokens) => Ok(first + tokens),
        Err(e) => Err(e),
    }
}

/// The tokens of `s` from index `from` to its end, or the first error met.
pub open spec fn tokens_from(s: Seq<char>, from: int) -> Result<Seq<SpecToken>, SpecTokenizeError>
    decreases remaining(s, from),
{
    if from < 0 || from >= s.len() {
        Ok(Seq::empty())
    } else if is_whitespace(s[from]) {
        tokens_from(s, from + 1)
    } else {
        match scan_token(s, from) {
            Ok((token, taken)) => extend_tokens(seq![token], tokens_from(s, from + taken)),
            Err(e) => Err(e),
        }
    }
}

/// What tokenizing `s` yields: its tokens in order, or the first error met.
pub open spec fn tokenize_spec(s: Seq<char>) -> Result<Seq<SpecToken>, SpecTokenizeError> {
    tokens_from(s, 0)
}

/// The models of the tokens of a vector.
pub open spec fn tokens_view(tokens: Seq<JsonToken>) -> Seq<SpecToken> {
    tokens.map_values(|t: JsonToken| t@)
}

/// The model of what [`tokenize`] returns.
pub open spec fn tokenize_result_view(
    result: Result<Vec<JsonToken>, JsonTokenizeError>,
) -> Result<Seq<SpecToken>, SpecTokenizeError> {
    match result {
        Ok(tokens) => Ok(tokens_view(tokens@)),
        Err(e) => Err(e@),
    }
}

fn whitespace(c: char) -> (r: bool)
    ensures
        r == is_whitespace(c),
{
    c == ' ' || c == '\n' || c == '\t' || c == '\r'
}

fn structural(c: char) -> (r: bool)
    ensures
        r == is_structural(c),
{
    c == '[' || c == ']' || c == '{' || c == '}' || c == ':' || c == ','
}

fn digit(c: char) -> (r: bool)
    ensures
        r == is_digit(c),
{
    '0' <= c && c <= '9'
}

fn sign(c: char) -> (r: bool)
    ensures
        r == is_sign(c),
{
    c == '+' || c == '-'
}

fn number_char(c: char) -> (r: bool)
    ensures
        r == is_number_char(c),
{
    digit(c) || sign(c) || c == 'e' || c == 'E' || c == '.'
}

/// The value of `c` as a hexadecimal digit, if it is one.
fn hex_digit(c: char) -> (r: Option<u32>)
    ensures
        r is Some == is_hex_digit(c),
        r is Some ==> r->0 == hex_digit_value(c),
{
    if '0' <= c && c <= '9' {
        Some(c as u32 - '0' as u32)
    } else if 'a' <= c && c <= 'f' {
        Some(c as u32 - 'a' as u32 + 10)
    } else if 'A' <= c && c <= 'F' {
        Some(c as u32 - 'A' as u32 + 10)
    } else {
        None
    }
}

/// The length of the run of digits that starts at index `from`.
fn digit_run(text: &Vec<char>, from: usize) -> (n: usize)
    requires
        from <= text.len(),
    ensures
        n == run_length(text@, from as int, CharClass::Digit),
        from + n <= text.len(),
{
    let mut i: usize = from;
    while i < text.len() && digit(text[i])
        invariant
            from <= i <= text.len(),
            run_length(text@, from as int, CharClass::Digit) == (i - from) + run_length(
                text@,
                i as int,
                CharClass::Digit,
            ),
        decreases text.len() - i,
    {
        i += 1;
    }
    i - from
}

/// Whether `text` is a decimal floating-point literal.
pub fn number_literal(text: &Vec<char>) -> (r: bool)
    ensures
        r == is_number_literal(text@),
{
    let len = text.len();
    let start: usize = if len > 0 && sign(text[0]) {
        1
    } else {
        0
    };
    let whole = digit_run(text, start);
    let dot = start + whole;
    let has_dot = dot < len && text[dot] == '.';
    let fraction: usize = if has_dot {
        digit_run(text, dot + 1)
    } else {
        0
    };
    let mantissa_end = if has_dot {
        dot + 1 + fraction
    } else {
        dot
    };
    if whole == 0 && fraction == 0 {
        return false;
    }
    if mantissa_end == len {
        return true;
    }
    if text[mantissa_end] != 'e' && text[mantissa_end] != 'E' {
        return false;
    }
    let digits_from = if mantissa_end + 1 < len && sign(text[mantissa_end + 1]) {
        mantissa_end + 2
    } else {
        mantissa_end + 1
    };
    let exponent = digit_run(text, digits_from);
    exponent > 0 && digits_from + exponent == len
}

/// Whether `word` holds exactly the characters of `text`.
fn spells(word: &Vec<char>, text: &str) -> (r: bool)
    ensures
        r == (word@ == text@),
{
    let expected = chars_of(text);
    if word.len() != expected.len() {
        return false;
    }
    let mut i: usize = 0;
    while i < word.len()
        invariant
            i <= word.len(),
            word.len() == expected.len(),
            expected@ == text@,
            forall|j: int| 0 <= j < i ==> word@[j] == expected@[j],
        decreases word.len() - i,
    {
        if word[i] != expected[i] {
            return false;
        }
        i += 1;
    }
    assert(word@ =~= expected@);
    true
}

fn belongs(c: char, class: CharClass) -> (r: bool)
    ensures
        r == in_class(c, class),
{
    match class {
        CharClass::Digit => digit(c),
        CharClass::Number => number_char(c),
        CharClass::Bareword => !whitespace(c) && !structural(c),
    }
}

/// The characters of `chars` from index `from` that belong to `class`, up to
/// the first one that does not.
fn take_run(chars: &Vec<char>, from: usize, class: CharClass) -> (run: Vec<char>)
    requires
        from <= chars.len(),
    ensures
        run@.len() == run_length(chars@, from as int, class),
        from + run@.len() <= chars.len(),
        run@ == chars@.subrange(from as int, from + run@.len()),
{
    let mut run: Vec<char> = Vec::new();
    let mut i: usize = from;
    while i < chars.len() && belongs(chars[i], class)
        invariant
            from <= i <= chars.len(),
            run_length(chars@, from as int, class) == (i - from) + run_length(
                chars@,
                i as int,
                class,
            ),
            run@ == chars@.subrange(from as int, i as int),
        decreases chars.len() - i,
    {
        run.push(chars[i]);
        i += 1;
    }
    run
}

/// The model of what the scanner of one token returns, given where it started.
pub open spec fn scan_result_view(
    result: Result<(JsonToken, usize), JsonTokenizeError>,
    at: int,
) -> Result<(SpecToken, nat), SpecTokenizeError> {
    match result {
        Ok((token, next)) => Ok((token@, (next - at) as nat)),
        Err(e) => Err(e@),
    }
}

/// Scans the number that starts at index `at`: the longest run of number
/// characters, accepted if it is a floating-point literal.
fn tokenize_number(chars: &Vec<char>, at: usize) -> (result: Result<
    (JsonToken, usize),
    JsonTokenizeError,
>)
    requires
        at < chars.len(),
        chars[at as int] == '-' || is_digit(chars[at as int]),
    ensures
        scan_result_view(result, at as int) == scan_token(chars@, at as int),
        result matches Ok((_, next)) ==> at < next <= chars.len(),
{
    let number_chars = take_run(chars, at, CharClass::Number);
    if number_literal(&number_chars) {
        Ok((JsonToken::Number(string_of(&number_chars)), at + number_chars.len()))
    } else {
        Err(JsonTokenizeError::InvalidNumberLiteral(string_of(&number_chars)))
    }
}

/// Scans the bareword that starts at index `at`: everything up to the next
/// punctuation or whitespace, accepted if it spells `true`, `false` or `null`.
fn tokenize_literal(chars: &Vec<char>, at: usize) -> (result: Result<
    (JsonToken, usize),
    JsonTokenizeError,
>)
    requires
        at < chars.len(),
        !is_whitespace(chars[at as int]),
        !is_structural(chars[at as int]),
        chars[at as int] != '"',
        chars[at as int] != '-',
        !is_digit(chars[at as int]),
    ensures
        scan_result_view(result, at as int) == scan_token(chars@, at as int),
        result matches Ok((_, next)) ==> at < next <= chars.len(),
{
    let literal = take_run(chars, at, CharClass::Bareword);
    let next = at + literal.len();
    if spells(&literal, "true") {
        Ok((JsonToken::True, next))
    } else if spells(&literal, "false") {
        Ok((JsonToken::False, next))
    } else if spells(&literal, "null") {
        Ok((JsonToken::Null, next))
    } else {
        Err(JsonTokenizeError::UnexpectedLiteral(string_of(&literal)))
    }
}

/// Decodes the `\u` escape whose `u` stands at index `at`.
fn unicode_escape(chars: &Vec<char>, at: usize) -> (result: Result<char, JsonTokenizeError>)
    requires
        at < chars.len(),
        chars[at as int] == 'u',
    ensures
        match result {
            Ok(c) => scan_escape(chars@, at as int) == Ok::<(char, nat), SpecTokenizeError>((c, 5))
                && at + 5 <= chars.len(),
            Err(e) => scan_escape(chars@, at as int) == Err::<(char, nat), SpecTokenizeError>(e@),
        },
{
    let mut hex_chars: Vec<char> = Vec::new();
    let mut i: usize = at + 1;
    while i < chars.len() && hex_chars.len() < 4 && chars[i] != '"'
        invariant
            at < i <= chars.len(),
            i == at + 1 + hex_chars.len(),
            hex_chars.len() <= 4,
            escape_digits(chars@, at + 1, 4) == hex_chars@ + escape_digits(
                chars@,
                i as int,
                (4 - hex_chars.len()) as nat,
            ),
        decreases chars.len() - i,
    {
        hex_chars.push(chars[i]);
        i += 1;
    }
    assert(escape_digits(chars@, at + 1, 4) == hex_chars@);
    if hex_chars.len() != 4 {
        return Err(JsonTokenizeError::InvalidEscapeCharacter(string_of(&hex_chars)));
    }
    let mut code: u32 = 0;
    let mut k: usize = 0;
    while k < 4
        invariant
            k <= 4,
            at < chars.len(),
            chars[at as int] == 'u',
            hex_chars.len() == 4,
            escape_digits(chars@, at + 1, 4) == hex_chars@,
            forall|j: int| 0 <= j < k ==> is_hex_digit(#[trigger] hex_chars@[j]),
            code < 0x10000,
            k == 0 ==> code == 0,
            k == 1 ==> code == hex_digit_value(hex_chars@[0]),
            k == 2 ==> code == hex_digit_value(hex_chars@[0]) * 16 + hex_digit_value(hex_chars@[1]),
            k == 3 ==> code == (hex_digit_value(hex_chars@[0]) * 16 + hex_digit_value(
                hex_chars@[1],
            )) * 16 + hex_digit_value(hex_chars@[2]),
            k == 4 ==> code == code_unit(hex_chars@),
            k < 4 ==> code < 0x1000,
        decreases 4 - k,
    {
        match hex_digit(hex_chars[k]) {
            Some(value) => {
                code = code * 16 + value;
            },
            None => {
                assert(!is_hex_digit(hex_chars@[k as int]));
                return Err(JsonTokenizeError::InvalidEscapeCharacter(string_of(&hex_chars)));
            },
        }
        k += 1;
    }
    match char::from_u32(code) {
        Some(c) => Ok(c),
        None => Err(JsonTokenizeError::InvalidEscapeCharacter(string_of(&hex_chars))),
    }
}

/// Scans the string whose opening quote stands at index `at`.
fn tokenize_string(chars: &Vec<char>, at: usize) -> (result: Result<
    (JsonToken, usize),
    JsonTokenizeError,
>)
    requires
        at < chars.len(),
        chars[at as int] == '"',
    ensures
        scan_result_view(result, at as int) == scan_token(chars@, at as int),
        result matches Ok((_, next)) ==> at < next <= chars.len(),
{
    let start = at + 1;
    let mut string_value = String::new();
    let mut i: usize = start;
    while i < chars.len()
        invariant
            at < chars.len(),
            chars[at as int] == '"',
            start == at + 1,
            start <= i <= chars.len(),
            scan_string(chars@, start as int) == extend_scan(
                string_value@,
                (i - start) as nat,
                scan_string(chars@, i as int),
            ),
        decreases chars.len() - i,
    {
        let c = chars[i];
        if c == '"' {
            proof {
                assert(string_value@ + Seq::<char>::empty() =~= string_value@);
            }
            return Ok((JsonToken::String(string_value), i + 1));
        } else if c == '\\' {
            if i + 1 >= chars.len() {
                return Err(JsonTokenizeError::UnexpectedEndOfInput);
            }
            let escaped = chars[i + 1];
            let ghost before = string_value@;
            if escaped == 'u' {
                match unicode_escape(chars, i + 1) {
                    Ok(decoded) => {
                        string_value.push(decoded);
                        proof {
                            lemma_extend_scan(
                                before,
                                (i - start) as nat,
                                decoded,
                                6,
                                scan_string(chars@, i + 6),
                            );
                        }
                        i += 6;
                    },
                    Err(e) => {
                        return Err(e);
                    },
                }
            } else {
                let decoded = if escaped == '"' {
                    '"'
                } else if escaped == '\\' {
                    '\\'
                } else if escaped == '/' {
                    '/'
                } else if escaped == 'b' {
                    '\u{0008}'
                } else if escaped == 'f' {
                    '\u{000C}'
                } else if escaped == 'n' {
                    '\u{000A}'
                } else if escaped == 'r' {
                    '\u{000D}'
                } else if escaped == 't' {
                    '\u{0009}'
                } else {
                    let mut offending = String::new();
                    offending.push(escaped);
                    return Err(JsonTokenizeError::InvalidEscapeCharacter(offending));
                };
                string_value.push(decoded);
                proof {
                    lemma_extend_scan(
                        before,
                        (i - start) as nat,
                        decoded,
                        2,
                        scan_string(chars@, i + 2),
                    );
                }
                i += 2;
            }
        } else {
            let ghost before = string_value@;
            string_value.push(c);
            proof {
                lemma_extend_scan(
                    before,
                    (i - start) as nat,
                    c,
                    1,
                    scan_string(chars@, i + 1),
                );
            }
            i += 1;
        }
    }
    Err(JsonTokenizeError::UnexpectedEndOfInput)
}

/// Extending a scan by one character and then by a prefix is extending it
/// once by the prefix with that character at its end.
proof fn lemma_extend_scan(
    a: Seq<char>,
    m: nat,
    c: char,
    n: nat,
    rest: Result<(Seq<char>, nat), SpecTokenizeError>,
)
    ensures
        extend_scan(a, m, extend_scan(seq![c], n, rest)) == extend_scan(a.push(c), m + n, rest),
{
    match rest {
        Ok((content, taken)) => {
            assert(a + (seq![c] + content) =~= a.push(c) + content);
        },
        Err(_) => {},
    }
}

/// Extending a token sequence twice is extending it once by both prefixes.
pub(crate) proof fn lemma_extend_tokens(
    a: Seq<SpecToken>,
    b: Seq<SpecToken>,
    rest: Result<Seq<SpecToken>, SpecTokenizeError>,
)
    ensures
        extend_tokens(a, extend_tokens(b, rest)) == extend_tokens(a + b, rest),
{
    match rest {
        Ok(tokens) => {
            assert(a + (b + tokens) =~= (a + b) + tokens);
        },
        Err(_) => {},
    }
}

/// No string fails on an unexpected character.
proof fn lemma_scan_string_error(s: Seq<char>, from: int)
    ensures
        !(scan_string(s, from) matches Err(SpecTokenizeError::UnexpectedCharacter(_))),
    decreases remaining(s, from),
{
    if 0 <= from < s.len() && s[from] != '"' {
        if s[from] == '\\' {
            if let Ok((_, taken)) = scan_escape(s, from + 1) {
                lemma_scan_string_error(s, from + 1 + taken);
            }
        } else {
            lemma_scan_string_error(s, from + 1);
        }
    }
}

/// No text fails on an unexpected character: what is no punctuation, string
/// or number is read as a word.
pub proof fn theorem_no_unexpected_character(s: Seq<char>, from: int)
    ensures
        !(tokens_from(s, from) matches Err(SpecTokenizeError::UnexpectedCharacter(_))),
    decreases remaining(s, from),
{
    if 0 <= from < s.len() {
        if is_whitespace(s[from]) {
            theorem_no_unexpected_character(s, from + 1);
        } else {
            lemma_scan_string_error(s, from + 1);
            if let Ok((_, taken)) = scan_token(s, from) {
                theorem_no_unexpected_character(s, from + taken);
            }
        }
    }
}

/// Every character counted in a run belongs to the class of the run.
pub(crate) proof fn lemma_run_members(s: Seq<char>, from: int, class: CharClass, j: int)
    requires
        0 <= from <= j < from + run_length(s, from, class),
    ensures
        j < s.len(),
        in_class(s[j], class),
    decreases j - from,
{
    if j > from {
        lemma_run_members(s, from + 1, class, j);
    }
}

/// Whether `literal` is a number as the tokenizer reads one: a number literal
/// that starts with a minus sign or a digit.
pub open spec fn is_number_token(literal: Seq<char>) -> bool {
    is_number_literal(literal) && (literal[0] == '-' || is_digit(literal[0]))
}

/// Whether every number among `ts` is a number as the tokenizer reads one.
pub open spec fn are_number_tokens(ts: Seq<SpecToken>) -> bool {
    forall|i: int|
        0 <= i < ts.len() ==> ((#[trigger] ts[i]) matches SpecToken::Number(literal)
            ==> is_number_token(literal))
}

/// Every number that the tokenizer yields is a number literal that starts
/// with a minus sign or a digit.
pub proof fn theorem_number_tokens(s: Seq<char>, from: int)
    requires
        tokens_from(s, from) is Ok,
    ensures
        are_number_tokens(tokens_from(s, from)->Ok_0),
    decreases remaining(s, from),
{
    if from < 0 || from >= s.len() {
    } else if is_whitespace(s[from]) {
        theorem_number_tokens(s, from + 1);
    } else {
        let (token, taken) = scan_token(s, from)->Ok_0;
        theorem_number_tokens(s, from + taken);
        let rest = tokens_from(s, from + taken)->Ok_0;
        let ts = tokens_from(s, from)->Ok_0;
        assert(ts == seq![token] + rest);
        assert forall|i: int| 0 <= i < ts.len() implies ((#[trigger] ts[i]) matches SpecToken::Number(
            literal,
        ) ==> is_number_token(literal)) by {
            if i > 0 {
                assert(ts[i] == rest[i - 1]);
            } else if token is Number {
                let run = run_length(s, from, CharClass::Number);
                let literal = s.subrange(from, from + run);
                assert(s[from] == '-' || is_digit(s[from]));
                assert(token == SpecToken::Number(literal));
                assert(run >= 1);
                lemma_run_members(s, from, CharClass::Number, from + run - 1);
                assert(literal[0] == s[from]);
            }
        }
    }
}

/// Splits `input` into tokens.
///
/// Whitespace separates tokens and is dropped. The result is the whole token
/// sequence, or the first error met: nothing is returned of a text that
/// holds an error. No text fails on an unexpected character, and every
/// number among the tokens is a number literal that starts with a minus sign
/// or a digit.
pub fn tokenize(input: &str) -> (result: Result<Vec<JsonToken>, JsonTokenizeError>)
    ensures
        tokenize_result_view(result) == tokenize_spec(input@),
        !(result matches Err(JsonTokenizeError::UnexpectedCharacter(_))),
        result matches Ok(tokens) ==> are_number_tokens(tokens_view(tokens@)),
{
    proof {
        theorem_no_unexpected_character(input@, 0);
        if tokens_from(input@, 0) is Ok {
            theorem_number_tokens(input@, 0);
        }
    }
    let chars = chars_of(input);
    let mut tokens: Vec<JsonToken> = Vec::new();
    let mut pos: usize = 0;
    proof {
        assert(tokens_view(tokens@) =~= Seq::<SpecToken>::empty());
        lemma_extend_tokens(Seq::empty(), Seq::empty(), tokens_from(chars@, 0));
        assert(Seq::<SpecToken>::empty() + Seq::<SpecToken>::empty() =~= Seq::<SpecToken>::empty());
    }
    while pos < chars.len()
        invariant
            pos <= chars.len(),
            chars@ == input@,
            !(tokens_from(chars@, 0) matches Err(SpecTokenizeError::UnexpectedCharacter(_))),
            tokens_from(chars@, 0) == extend_tokens(
                tokens_view(tokens@),
                tokens_from(chars@, pos as int),
            ),
        decreases chars.len() - pos,
    {
        let c = chars[pos];
        if whitespace(c) {
            pos += 1;
        } else {
            let scanned = if c == '[' {
                Ok((JsonToken::LeftSquareBracket, pos + 1))
            } else if c == '{' {
                Ok((JsonToken::LeftCurlyBracket, pos + 1))
            } else if c == ']' {
                Ok((JsonToken::RightSquareBracket, pos + 1))
            } else if c == '}' {
                Ok((JsonToken::RightCurlyBracket, pos + 1))
            } else if c == ':' {
                Ok((JsonToken::Colon, pos + 1))
            } else if c == ',' {
                Ok((JsonToken::Comma, pos + 1))
            } else if c == '"' {
                tokenize_string(&chars, pos)
            } else if c == '-' || digit(c) {
                tokenize_number(&chars, pos)
            } else {
                tokenize_literal(&chars, pos)
            };
            match scanned {
                Ok((token, next)) => {
                    proof {
                        lemma_extend_tokens(
                            tokens_view(tokens@),
                            seq![token@],
                            tokens_from(chars@, next as int),
                        );
                        assert(tokens_view(tokens@.push(token)) =~= tokens_view(tokens@) + seq![
                            token@,
                        ]);
                    }
                    tokens.push(token);
                    pos = next;
                },
                Err(e) => {
                    return Err(e);
                },
            }
        }
    }
    proof {
        assert(tokens_view(tokens@) + Seq::<SpecToken>::empty() =~= tokens_view(tokens@));
    }
    Ok(tokens)
}

} // verus!
