use crate::tokenizer::{token_text, tokens_view, JsonToken, SpecToken};
use vstd::prelude::*;
use vstd::string::StringExecFns;

verus! {

/// A JSON document as a tree.
///
/// A number carries its literal as written. An object keeps its members in
/// the order in which they were read, and keeps members with equal keys.
#[derive(Debug, PartialEq)]
pub enum JsonValue {
    Null,
    Bool(bool),
    Number(String),
    String(String),
    Array(Vec<JsonValue>),
    Object(Vec<(String, JsonValue)>),
}

/// Mathematical model of a [`JsonValue`].
pub enum SpecValue {
    Null,
    Bool(bool),
    Number(Seq<char>),
    String(Seq<char>),
    Array(Seq<SpecValue>),
    Object(Seq<(Seq<char>, SpecValue)>),
}

/// The models of the elements of an array.
pub open spec fn values_view(items: Seq<JsonValue>) -> Seq<SpecValue>
    decreases items,
{
    Seq::new(
        items.len(),
        |i: int|
            if 0 <= i < items.len() {
                items[i].view()
            } else {
                SpecValue::Null
            },
    )
}

/// The models of the members of an object.
pub open spec fn members_view(members: Seq<(String, JsonValue)>) -> Seq<(Seq<char>, SpecValue)>
    decreases members,
{
    Seq::new(
        members.len(),
        |i: int|
            if 0 <= i < members.len() {
                (members[i].0@, members[i].1.view())
            } else {
                (Seq::empty(), SpecValue::Null)
            },
    )
}

impl View for JsonValue {
    type V = SpecValue;

    open spec fn view(&self) -> SpecValue
        decreases self,
    {
        match self {
            JsonValue::Null => SpecValue::Null,
            JsonValue::Bool(b) => SpecValue::Bool(*b),
            JsonValue::Number(literal) => SpecValue::Number(literal@),
            JsonValue::String(content) => SpecValue::String(content@),
            JsonValue::Array(items) => SpecValue::Array(values_view(items@)),
            JsonValue::Object(members) => SpecValue::Object(members_view(members@)),
        }
    }
}

/// Why a token sequence is not a JSON value.
#[derive(Debug, PartialEq)]
pub enum JsonParserError {
    UnexpectedToken(JsonToken),
    UnexpectedEndOfInput,
}

/// Mathematical model of a [`JsonParserError`].
pub enum SpecParserError {
    UnexpectedToken(SpecToken),
    UnexpectedEndOfInput,
}

impl View for JsonParserError {
    type V = SpecParserError;

    open spec fn view(&self) -> SpecParserError {
        match self {
            JsonParserError::UnexpectedToken(token) => SpecParserError::UnexpectedToken(token@),
            JsonParserError::UnexpectedEndOfInput => SpecParserError::UnexpectedEndOfInput,
        }
    }
}

/// The message of a parser error.
pub open spec fn parser_error_text(e: SpecParserError) -> Seq<char> {
    match e {
        SpecParserError::UnexpectedToken(token) => "Unexpected token: '"@ + token_text(token) + "'"@,
        SpecParserError::UnexpectedEndOfInput => "Unexpected end of input"@,
    }
}

impl JsonParserError {
    /// The message of the error.
    pub fn to_string(&self) -> (text: String)
        ensures
            text@ == parser_error_text(self@),
    {
        match self {
            JsonParserError::UnexpectedToken(token) => {
                let mut text = "Unexpected token: '".to_owned();
                text.append(token.to_string().as_str());
                text.append("'");
                text
            },
            JsonParserError::UnexpectedEndOfInput => "Unexpected end of input".to_owned(),
        }
    }
}

/// How many tokens of `ts` stand at index `from` and after it.
pub open spec fn tokens_left(ts: Seq<SpecToken>, from: int) -> nat {
    if 0 <= from < ts.len() {
        (ts.len() - from) as nat
    } else {
        0
    }
}

/// A parse that went on after `taken` tokens: its result, with `taken` added
/// to the tokens it took.
pub open spec fn after<T>(taken: nat, rest: Result<(T, nat), SpecParserError>) -> Result<
    (T, nat),
    SpecParserError,
> {
    match rest {
        Ok((found, more)) => Ok((found, taken + more)),
        Err(e) => Err(e),
    }
}

/// The value that starts at index `at` and the number of tokens it takes.
pub open spec fn parse_value(ts: Seq<SpecToken>, at: int) -> Result<(SpecValue, nat), SpecParserError>
    decreases tokens_left(ts, at), 2nat,
{
    if at < 0 || at >= ts.len() {
        Err(SpecParserError::UnexpectedEndOfInput)
    } else {
        match ts[at] {
            SpecToken::Null => Ok((SpecValue::Null, 1)),
            SpecToken::True => Ok((SpecValue::Bool(true), 1)),
            SpecToken::False => Ok((SpecValue::Bool(false), 1)),
            SpecToken::Number(literal) => Ok((SpecValue::Number(literal), 1)),
            SpecToken::String(content) => Ok((SpecValue::String(content), 1)),
            SpecToken::LeftSquareBracket => parse_array(ts, at),
            SpecToken::LeftCurlyBracket => parse_object(ts, at),
            _ => Err(SpecParserError::UnexpectedToken(ts[at])),
        }
    }
}

/// The array whose opening bracket stands at index `at`.
pub open spec fn parse_array(ts: Seq<SpecToken>, at: int) -> Result<(SpecValue, nat), SpecParserError>
    decreases tokens_left(ts, at), 1nat,
{
    if at < 0 || at + 1 >= ts.len() {
        Err(SpecParserError::UnexpectedEndOfInput)
    } else if ts[at + 1] == SpecToken::RightSquareBracket {
        Ok((SpecValue::Array(Seq::empty()), 2))
    } else {
        match parse_value(ts, at + 1) {
            Ok((first, taken)) => match parse_array_rest(ts, at + 1 + taken, seq![first]) {
                Ok((items, more)) => Ok((SpecValue::Array(items), 1 + taken + more)),
                Err(e) => Err(e),
            },
            Err(e) => Err(e),
        }
    }
}

/// What follows an element of an array, from index `at`: a comma and another
/// element, again and again, up to the closing bracket. `items` holds the
/// elements read so far; the result holds all of them.
pub open spec fn parse_array_rest(ts: Seq<SpecToken>, at: int, items: Seq<SpecValue>) -> Result<
    (Seq<SpecValue>, nat),
    SpecParserError,
>
    decreases tokens_left(ts, at), 0nat,
{
    if at < 0 || at >= ts.len() {
        Err(SpecParserError::UnexpectedEndOfInput)
    } else {
        match ts[at] {
            SpecToken::Comma => match parse_value(ts, at + 1) {
                Ok((item, taken)) => after(
                    1 + taken,
                    parse_array_rest(ts, at + 1 + taken, items.push(item)),
                ),
                Err(e) => Err(e),
            },
            SpecToken::RightSquareBracket => Ok((items, 1)),
            _ => Err(SpecParserError::UnexpectedToken(ts[at])),
        }
    }
}

/// The member whose key stands at index `at`: a string, a colon and a value.
/// Anything but a colon after the key counts as the end of the input.
pub open spec fn parse_member(ts: Seq<SpecToken>, at: int) -> Result<
    ((Seq<char>, SpecValue), nat),
    SpecParserError,
>
    decreases tokens_left(ts, at), 0nat,
{
    if at < 0 || at >= ts.len() {
        Err(SpecParserError::UnexpectedEndOfInput)
    } else {
        match ts[at] {
            SpecToken::String(key) => if at + 1 < ts.len() && ts[at + 1] == SpecToken::Colon {
                match parse_value(ts, at + 2) {
                    Ok((value, taken)) => Ok(((key, value), 2 + taken)),
                    Err(e) => Err(e),
                }
            } else {
                Err(SpecParserError::UnexpectedEndOfInput)
            },
            _ => Err(SpecParserError::UnexpectedToken(ts[at])),
        }
    }
}

/// The object whose opening brace stands at index `at`.
pub open spec fn parse_object(ts: Seq<SpecToken>, at: int) -> Result<(SpecValue, nat), SpecParserError>
    decreases tokens_left(ts, at), 1nat,
{
    if at < 0 || at + 1 >= ts.len() {
        Err(SpecParserError::UnexpectedEndOfInput)
    } else if ts[at + 1] == SpecToken::RightCurlyBracket {
        Ok((SpecValue::Object(Seq::empty()), 2))
    } else {
        match parse_member(ts, at + 1) {
            Ok((first, taken)) => match parse_object_rest(ts, at + 1 + taken, seq![first]) {
                Ok((members, more)) => Ok((SpecValue::Object(members), 1 + taken + more)),
                Err(e) => Err(e),
            },
            Err(e) => Err(e),
        }
    }
}

/// What follows a member of an object, from index `at`: a comma and another
/// member, again and again, up to the closing brace. `members` holds the
/// members read so far; the result holds all of them.
pub open spec fn parse_object_rest(
    ts: Seq<SpecToken>,
    at: int,
    members: Seq<(Seq<char>, SpecValue)>,
) -> Result<(Seq<(Seq<char>, SpecValue)>, nat), SpecParserError>
    decreases tokens_left(ts, at), 0nat,
{
    if at < 0 || at >= ts.len() {
        Err(SpecParserError::UnexpectedEndOfInput)
    } else {
        match ts[at] {
            SpecToken::Comma => match parse_member(ts, at + 1) {
                Ok((member, taken)) => after(
                    1 + taken,
                    parse_object_rest(ts, at + 1 + taken, members.push(member)),
                ),
                Err(e) => Err(e),
            },
            SpecToken::RightCurlyBracket => Ok((members, 1)),
            _ => Err(SpecParserError::UnexpectedToken(ts[at])),
        }
    }
}

/// What parsing `ts` yields: the value that its first tokens spell, or the
/// first error met. Tokens after that value are not looked at.
pub open spec fn parse_spec(ts: Seq<SpecToken>) -> Result<SpecValue, SpecParserError> {
    match parse_value(ts, 0) {
        Ok((value, _)) => Ok(value),
        Err(e) => Err(e),
    }
}

/// The model of what the parser of one value returns, given where it started.
pub open spec fn parse_result_view(
    result: Result<(JsonValue, usize), JsonParserError>,
    at: int,
) -> Result<(SpecValue, nat), SpecParserError> {
    match result {
        Ok((value, next)) => Ok((value@, (next - at) as nat)),
        Err(e) => Err(e@),
    }
}

/// The model of what the parser of one member returns, given where it started.
pub open spec fn member_result_view(
    result: Result<((String, JsonValue), usize), JsonParserError>,
    at: int,
) -> Result<((Seq<char>, SpecValue), nat), SpecParserError> {
    match result {
        Ok((member, next)) => Ok(((member.0@, member.1@), (next - at) as nat)),
        Err(e) => Err(e@),
    }
}

/// The model of what [`parser`] returns.
pub open spec fn parser_result_view(result: Result<JsonValue, JsonParserError>) -> Result<
    SpecValue,
    SpecParserError,
> {
    match result {
        Ok(value) => Ok(value@),
        Err(e) => Err(e@),
    }
}

/// Parses the value that starts at index `at`; on success, also returns the
/// index just after it.
fn parser_value(tokens: &Vec<JsonToken>, at: usize) -> (result: Result<
    (JsonValue, usize),
    JsonParserError,
>)
    requires
        at <= tokens.len(),
    ensures
        parse_result_view(result, at as int) == parse_value(tokens_view(tokens@), at as int),
        result matches Ok((_, next)) ==> at < next <= tokens.len(),
    decreases tokens.len() - at, 2nat,
{
    if at >= tokens.len() {
        return Err(JsonParserError::UnexpectedEndOfInput);
    }
    match &tokens[at] {
        JsonToken::Null => Ok((JsonValue::Null, at + 1)),
        JsonToken::True => Ok((JsonValue::Bool(true), at + 1)),
        JsonToken::False => Ok((JsonValue::Bool(false), at + 1)),
        JsonToken::Number(number) => Ok((JsonValue::Number(number.clone()), at + 1)),
        JsonToken::String(string) => Ok((JsonValue::String(string.clone()), at + 1)),
        JsonToken::LeftSquareBracket => parser_array(tokens, at),
        JsonToken::LeftCurlyBracket => parser_object(tokens, at),
        token => Err(JsonParserError::UnexpectedToken(token.clone())),
    }
}

/// Parses the array whose opening bracket stands at index `at`.
fn parser_array(tokens: &Vec<JsonToken>, at: usize) -> (result: Result<
    (JsonValue, usize),
    JsonParserError,
>)
    requires
        at < tokens.len(),
        tokens[at as int]@ == SpecToken::LeftSquareBracket,
    ensures
        parse_result_view(result, at as int) == parse_array(tokens_view(tokens@), at as int),
        result matches Ok((_, next)) ==> at < next <= tokens.len(),
    decreases tokens.len() - at, 1nat,
{
    let ghost ts = tokens_view(tokens@);
    let mut array: Vec<JsonValue> = Vec::new();
    let mut pos: usize = at + 1;
    if pos >= tokens.len() {
        return Err(JsonParserError::UnexpectedEndOfInput);
    }
    match &tokens[pos] {
        JsonToken::RightSquareBracket => {
            assert(values_view(array@) =~= Seq::<SpecValue>::empty());
            return Ok((JsonValue::Array(array), pos + 1));
        },
        _ => {
            match parser_value(tokens, pos) {
                Ok((value, next)) => {
                    assert(values_view(array@.push(value)) =~= seq![value@]);
                    array.push(value);
                    pos = next;
                },
                Err(e) => {
                    return Err(e);
                },
            }
        },
    }
    while pos < tokens.len()
        invariant
            at < pos <= tokens.len(),
            ts == tokens_view(tokens@),
            parse_array(ts, at as int) == (match after(
                (pos - at) as nat,
                parse_array_rest(ts, pos as int, values_view(array@)),
            ) {
                Ok((items, taken)) => Ok((SpecValue::Array(items), taken)),
                Err(e) => Err(e),
            }),
        decreases tokens.len() - pos,
    {
        match &tokens[pos] {
            JsonToken::Comma => {
                match parser_value(tokens, pos + 1) {
                    Ok((value, next)) => {
                        assert(values_view(array@.push(value)) =~= values_view(array@).push(
                            value@,
                        ));
                        array.push(value);
                        pos = next;
                    },
                    Err(e) => {
                        return Err(e);
                    },
                }
            },
            JsonToken::RightSquareBracket => {
                return Ok((JsonValue::Array(array), pos + 1));
            },
            token => {
                return Err(JsonParserError::UnexpectedToken(token.clone()));
            },
        }
    }
    Err(JsonParserError::UnexpectedEndOfInput)
}

/// Parses the member whose key stands at index `at`.
fn parser_object_key_value(tokens: &Vec<JsonToken>, at: usize) -> (result: Result<
    ((String, JsonValue), usize),
    JsonParserError,
>)
    requires
        at <= tokens.len(),
    ensures
        member_result_view(result, at as int) == parse_member(tokens_view(tokens@), at as int),
        result matches Ok((_, next)) ==> at < next <= tokens.len(),
    decreases tokens.len() - at, 0nat,
{
    if at >= tokens.len() {
        return Err(JsonParserError::UnexpectedEndOfInput);
    }
    let key = match &tokens[at] {
        JsonToken::String(key) => key.clone(),
        token => {
            return Err(JsonParserError::UnexpectedToken(token.clone()));
        },
    };
    if at + 1 >= tokens.len() {
        return Err(JsonParserError::UnexpectedEndOfInput);
    }
    match &tokens[at + 1] {
        JsonToken::Colon => {},
        _ => {
            return Err(JsonParserError::UnexpectedEndOfInput);
        },
    }
    match parser_value(tokens, at + 2) {
        Ok((value, next)) => Ok(((key, value), next)),
        Err(e) => Err(e),
    }
}

/// Parses the object whose opening brace stands at index `at`.
fn parser_object(tokens: &Vec<JsonToken>, at: usize) -> (result: Result<
    (JsonValue, usize),
    JsonParserError,
>)
    requires
        at < tokens.len(),
        tokens[at as int]@ == SpecToken::LeftCurlyBracket,
    ensures
        parse_result_view(result, at as int) == parse_object(tokens_view(tokens@), at as int),
        result matches Ok((_, next)) ==> at < next <= tokens.len(),
    decreases tokens.len() - at, 1nat,
{
    let ghost ts = tokens_view(tokens@);
    let mut object: Vec<(String, JsonValue)> = Vec::new();
    let mut pos: usize = at + 1;
    if pos >= tokens.len() {
        return Err(JsonParserError::UnexpectedEndOfInput);
    }
    match &tokens[pos] {
        JsonToken::RightCurlyBracket => {
            assert(members_view(object@) =~= Seq::<(Seq<char>, SpecValue)>::empty());
            return Ok((JsonValue::Object(object), pos + 1));
        },
        _ => {
            match parser_object_key_value(tokens, pos) {
                Ok((member, next)) => {
                    assert(members_view(object@.push(member)) =~= seq![(member.0@, member.1@)]);
                    object.push(member);
                    pos = next;
                },
                Err(e) => {
                    return Err(e);
                },
            }
        },
    }
    while pos < tokens.len()
        invariant
            at < pos <= tokens.len(),
            ts == tokens_view(tokens@),
            parse_object(ts, at as int) == (match after(
                (pos - at) as nat,
                parse_object_rest(ts, pos as int, members_view(object@)),
            ) {
                Ok((members, taken)) => Ok((SpecValue::Object(members), taken)),
                Err(e) => Err(e),
            }),
        decreases tokens.len() - pos,
    {
        match &tokens[pos] {
            JsonToken::Comma => {
                match parser_object_key_value(tokens, pos + 1) {
                    Ok((member, next)) => {
                        assert(members_view(object@.push(member)) =~= members_view(object@).push(
                            (member.0@, member.1@),
                        ));
                        object.push(member);
                        pos = next;
                    },
                    Err(e) => {
                        return Err(e);
                    },
                }
            },
            JsonToken::RightCurlyBracket => {
                return Ok((JsonValue::Object(object), pos + 1));
            },
            token => {
                return Err(JsonParserError::UnexpectedToken(token.clone()));
            },
        }
    }
    Err(JsonParserError::UnexpectedEndOfInput)
}

/// Parses the value that the first tokens of `tokens` spell.
///
/// The result is that value, or the first error met: nothing is returned of
/// a token sequence that holds an error. Tokens after the value are not
/// looked at.
pub fn parser(tokens: &Vec<JsonToken>) -> (result: Result<JsonValue, JsonParserError>)
    ensures
        parser_result_view(result) == parse_spec(tokens_view(tokens@)),
{
    match parser_value(tokens, 0) {
        Ok((value, _)) => Ok(value),
        Err(e) => Err(e),
    }
}

} // verus!
