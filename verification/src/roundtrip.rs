use crate::error::SpecError;
use crate::format_json_spec;
use crate::formatter::{
    format_spec, indentation, render_items, render_members, render_value, separator,
};
use crate::grammar::{
    comma, items_tokens, member_tokens, members_tokens, theorem_parse_value_tokens, value_tokens,
};
use crate::parser::{
    parse_array_rest, parse_member, parse_object_rest, parse_spec, parse_value, tokens_left,
    SpecParserError, SpecValue,
};
use crate::span::{holds, lemma_holds_index, lemma_holds_split};
use crate::tokenizer::{
    are_number_tokens, extend_tokens, in_class, is_exponent, is_number_char, is_number_literal,
    is_number_token, is_sign, is_structural, is_whitespace, lemma_extend_tokens,
    lemma_run_members, run_length, scan_string, scan_token, theorem_number_tokens, tokenize_spec,
    tokens_from, CharClass, SpecToken, SpecTokenizeError,
};
use vstd::prelude::*;

verus! {

/// A run is as long as the stretch of characters of its class that ends at
/// a character of another class, or at the end of the text.
proof fn lemma_run_length_exact(s: Seq<char>, from: int, class: CharClass, n: nat)
    requires
        0 <= from,
        from + n <= s.len(),
        forall|i: int| from <= i < from + n ==> in_class(#[trigger] s[i], class),
        from + n == s.len() || !in_class(s[from + n], class),
    ensures
        run_length(s, from, class) == n,
    decreases n,
{
    if n > 0 {
        lemma_run_length_exact(s, from + 1, class, (n - 1) as nat);
    }
}

/// A number literal is made of number characters only.
proof fn lemma_number_literal_chars(t: Seq<char>, i: int)
    requires
        is_number_literal(t),
        0 <= i < t.len(),
    ensures
        is_number_char(t[i]),
{
    let start = if t.len() > 0 && is_sign(t[0]) {
        1int
    } else {
        0int
    };
    let whole = run_length(t, start, CharClass::Digit);
    let dot = start + whole;
    let has_dot = dot < t.len() && t[dot] == '.';
    let fraction = if has_dot {
        run_length(t, dot + 1, CharClass::Digit)
    } else {
        0
    };
    let mantissa_end = if has_dot {
        dot + 1 + fraction
    } else {
        dot
    };
    if i < start {
    } else if i < dot {
        lemma_run_members(t, start, CharClass::Digit, i);
    } else if has_dot && i == dot {
    } else if i < mantissa_end {
        lemma_run_members(t, dot + 1, CharClass::Digit, i);
    } else {
        assert(is_exponent(t, mantissa_end));
        let digits_from = if mantissa_end + 1 < t.len() && is_sign(t[mantissa_end + 1]) {
            mantissa_end + 2
        } else {
            mantissa_end + 1
        };
        if i >= digits_from {
            lemma_run_members(t, digits_from, CharClass::Digit, i);
        }
    }
}

/// Whether a token ends before index `at`: the text ends there, or holds
/// whitespace or punctuation there.
spec fn ends_token(s: Seq<char>, at: int) -> bool {
    at >= s.len() || is_whitespace(s[at]) || is_structural(s[at])
}

/// Whether `text` can stand between double quotes as it is: it holds no
/// double quote and no backslash.
pub open spec fn is_plain(text: Seq<char>) -> bool {
    forall|i: int| 0 <= i < text.len() ==> #[trigger] text[i] != '"' && text[i] != '\\'
}

/// Whether the text of `v` reads back as `v`: its strings and keys are
/// plain, and its numbers are numbers as the tokenizer reads them.
pub open spec fn reads_back(v: SpecValue) -> bool
    decreases v,
{
    match v {
        SpecValue::Number(literal) => is_number_token(literal),
        SpecValue::String(content) => is_plain(content),
        SpecValue::Array(items) => forall|i: int|
            0 <= i < items.len() ==> reads_back(#[trigger] items[i]),
        SpecValue::Object(members) => forall|i: int|
            0 <= i < members.len() ==> is_plain((#[trigger] members[i]).0) && reads_back(
                members[i].1,
            ),
        _ => true,
    }
}

/// Whitespace before a token changes nothing.
proof fn lemma_skip_whitespace(s: Seq<char>, from: int, n: nat)
    requires
        0 <= from,
        from + n <= s.len(),
        forall|i: int| from <= i < from + n ==> is_whitespace(#[trigger] s[i]),
    ensures
        tokens_from(s, from) == tokens_from(s, from + n),
    decreases n,
{
    if n > 0 {
        lemma_skip_whitespace(s, from + 1, (n - 1) as nat);
    }
}

/// The indentation of a level is two blanks for each level.
proof fn lemma_indentation(level: nat)
    ensures
        indentation(level).len() == 2 * level,
        forall|i: int| 0 <= i < 2 * level ==> #[trigger] indentation(level)[i] == ' ',
    decreases level,
{
    reveal_strlit("  ");
    if level > 0 {
        lemma_indentation((level - 1) as nat);
    }
}

/// Where a text holds an indentation, the tokens from there are those from
/// its end.
proof fn lemma_skip_indentation(s: Seq<char>, from: int, level: nat)
    requires
        holds(s, from, indentation(level)),
    ensures
        tokens_from(s, from) == tokens_from(s, from + indentation(level).len()),
{
    lemma_indentation(level);
    assert forall|i: int| from <= i < from + 2 * level implies is_whitespace(#[trigger] s[i]) by {
        lemma_holds_index(s, from, indentation(level), i - from);
    }
    lemma_skip_whitespace(s, from, 2 * level);
}

/// A plain text followed by a double quote scans as that text.
proof fn lemma_scan_plain(s: Seq<char>, from: int, content: Seq<char>)
    requires
        is_plain(content),
        holds(s, from, content + seq!['"']),
    ensures
        scan_string(s, from) == Ok::<(Seq<char>, nat), SpecTokenizeError>(
            (content, content.len() + 1),
        ),
    decreases content.len(),
{
    lemma_holds_index(s, from, content + seq!['"'], 0);
    if content.len() == 0 {
        assert(content =~= Seq::<char>::empty());
    } else {
        let rest = content.drop_first();
        assert(content[0] != '"' && content[0] != '\\');
        assert(content + seq!['"'] =~= seq![content[0]] + (rest + seq!['"']));
        lemma_holds_split(s, from, seq![content[0]], rest + seq!['"']);
        assert(is_plain(rest)) by {
            assert forall|i: int| 0 <= i < rest.len() implies #[trigger] rest[i] != '"' && rest[i]
                != '\\' by {
                assert(rest[i] == content[i + 1]);
            }
        }
        lemma_scan_plain(s, from + 1, rest);
        assert(seq![content[0]] + rest =~= content);
    }
}

/// Where a text holds a plain string between double quotes, the token there
/// is that string.
proof fn lemma_scan_quoted(s: Seq<char>, at: int, content: Seq<char>)
    requires
        is_plain(content),
        holds(s, at, "\""@ + content + "\""@),
    ensures
        tokens_from(s, at) == extend_tokens(
            seq![SpecToken::String(content)],
            tokens_from(s, at + content.len() + 2),
        ),
{
    reveal_strlit("\"");
    assert("\""@ =~= seq!['"']);
    assert("\""@ + content + "\""@ =~= seq!['"'] + (content + seq!['"']));
    lemma_holds_split(s, at, seq!['"'], content + seq!['"']);
    lemma_holds_index(s, at, seq!['"'], 0);
    lemma_scan_plain(s, at + 1, content);
}

/// Where a text holds one of the words `true`, `false` and `null`, and the
/// word ends there, the token there is that word.
proof fn lemma_scan_word(s: Seq<char>, at: int, v: SpecValue)
    requires
        v is Null || v is Bool,
        holds(s, at, render_value(v, 1)),
        ends_token(s, at + render_value(v, 1).len()),
    ensures
        tokens_from(s, at) == extend_tokens(
            value_tokens(v),
            tokens_from(s, at + render_value(v, 1).len()),
        ),
{
    reveal_strlit("null");
    reveal_strlit("true");
    reveal_strlit("false");
    let word = render_value(v, 1);
    assert forall|i: int| at <= i < at + word.len() implies in_class(
        #[trigger] s[i],
        CharClass::Bareword,
    ) by {
        lemma_holds_index(s, at, word, i - at);
    }
    lemma_run_length_exact(s, at, CharClass::Bareword, word.len());
    lemma_holds_index(s, at, word, 0);
    assert("true"@ != "null"@) by {
        assert("true"@[0] != "null"@[0]);
    }
    assert("true"@ != "false"@) by {
        assert("true"@[0] != "false"@[0]);
    }
    assert("false"@ != "null"@) by {
        assert("false"@[0] != "null"@[0]);
    }
}

/// Where a text holds a number as the tokenizer reads one, and the number
/// ends there, the token there is that number.
proof fn lemma_scan_number(s: Seq<char>, at: int, literal: Seq<char>)
    requires
        is_number_token(literal),
        holds(s, at, literal),
        ends_token(s, at + literal.len()),
    ensures
        tokens_from(s, at) == extend_tokens(
            seq![SpecToken::Number(literal)],
            tokens_from(s, at + literal.len()),
        ),
{
    assert(literal.len() > 0);
    assert forall|i: int| at <= i < at + literal.len() implies in_class(
        #[trigger] s[i],
        CharClass::Number,
    ) by {
        lemma_holds_index(s, at, literal, i - at);
        lemma_number_literal_chars(literal, i - at);
    }
    lemma_run_length_exact(s, at, CharClass::Number, literal.len());
    lemma_holds_index(s, at, literal, 0);
}

/// The token that a punctuation character is.
spec fn punctuation(c: char) -> SpecToken {
    if c == '[' {
        SpecToken::LeftSquareBracket
    } else if c == '{' {
        SpecToken::LeftCurlyBracket
    } else if c == ']' {
        SpecToken::RightSquareBracket
    } else if c == '}' {
        SpecToken::RightCurlyBracket
    } else if c == ':' {
        SpecToken::Colon
    } else {
        SpecToken::Comma
    }
}

/// A punctuation character is a token by itself.
proof fn lemma_punctuation(s: Seq<char>, at: int)
    requires
        0 <= at < s.len(),
        is_structural(s[at]),
    ensures
        tokens_from(s, at) == extend_tokens(seq![punctuation(s[at])], tokens_from(s, at + 1)),
{
}

/// A whitespace character is skipped.
proof fn lemma_blank(s: Seq<char>, at: int)
    requires
        0 <= at < s.len(),
        is_whitespace(s[at]),
    ensures
        tokens_from(s, at) == tokens_from(s, at + 1),
{
}

/// The characters of the fixed pieces of a formatted text.
proof fn lemma_pieces()
    ensures
        "[]"@ == seq!['[', ']'],
        "{}"@ == seq!['{', '}'],
        "[\n"@ == seq!['[', '\n'],
        "{\n"@ == seq!['{', '\n'],
        "\n"@ == seq!['\n'],
        "]"@ == seq![']'],
        "}"@ == seq!['}'],
        ",\n"@ == seq![',', '\n'],
        "\""@ == seq!['"'],
        "\": "@ == seq!['"', ':', ' '],
{
    reveal_strlit("[]");
    reveal_strlit("{}");
    reveal_strlit("[\n");
    reveal_strlit("{\n");
    reveal_strlit("\n");
    reveal_strlit("]");
    reveal_strlit("}");
    reveal_strlit(",\n");
    reveal_strlit("\"");
    reveal_strlit("\": ");
    assert("[]"@ =~= seq!['[', ']']);
    assert("{}"@ =~= seq!['{', '}']);
    assert("[\n"@ =~= seq!['[', '\n']);
    assert("{\n"@ =~= seq!['{', '\n']);
    assert("\n"@ =~= seq!['\n']);
    assert("]"@ =~= seq![']']);
    assert("}"@ =~= seq!['}']);
    assert(",\n"@ =~= seq![',', '\n']);
    assert("\""@ =~= seq!['"']);
    assert("\": "@ =~= seq!['"', ':', ' ']);
}

/// Where a text holds a pair of brackets with nothing between them, the
/// tokens from there are the two brackets and then those of what follows.
proof fn lemma_tokens_of_brackets(s: Seq<char>, at: int, open: char, close: char)
    requires
        is_structural(open),
        is_structural(close),
        holds(s, at, seq![open, close]),
    ensures
        tokens_from(s, at) == extend_tokens(
            seq![punctuation(open)] + seq![punctuation(close)],
            tokens_from(s, at + 2),
        ),
{
    lemma_holds_index(s, at, seq![open, close], 0);
    lemma_holds_index(s, at, seq![open, close], 1);
    lemma_punctuation(s, at);
    lemma_punctuation(s, at + 1);
    lemma_extend_tokens(
        seq![punctuation(open)],
        seq![punctuation(close)],
        tokens_from(s, at + 2),
    );
}

/// The parts of a text that holds a container with elements: where its
/// lines stand, and that a token ends after them.
proof fn lemma_frame_parts(
    s: Seq<char>,
    at: int,
    open: char,
    lines: Seq<char>,
    margin: Seq<char>,
    close: char,
)
    requires
        holds(s, at, seq![open, '\n'] + lines + seq!['\n'] + margin + seq![close]),
    ensures
        holds(s, at + 2, lines),
        ends_token(s, at + 2 + lines.len()),
{
    lemma_holds_split(s, at, seq![open, '\n'] + lines + seq!['\n'] + margin, seq![close]);
    lemma_holds_split(s, at, seq![open, '\n'] + lines + seq!['\n'], margin);
    lemma_holds_split(s, at, seq![open, '\n'] + lines, seq!['\n']);
    lemma_holds_split(s, at, seq![open, '\n'], lines);
    lemma_holds_index(s, at + 2 + lines.len(), seq!['\n'], 0);
}

/// Where a text holds a container with elements, and the tokens of its lines
/// are known, the tokens from its opening bracket are that bracket, those of
/// the lines, the closing bracket, and then those of what follows.
proof fn lemma_frame_tokens(
    s: Seq<char>,
    at: int,
    open: char,
    lines: Seq<char>,
    level: nat,
    close: char,
    inside: Seq<SpecToken>,
)
    requires
        is_structural(open),
        is_structural(close),
        holds(s, at, seq![open, '\n'] + lines + seq!['\n'] + indentation(level) + seq![close]),
        tokens_from(s, at + 2) == extend_tokens(inside, tokens_from(s, at + 2 + lines.len())),
    ensures
        tokens_from(s, at) == extend_tokens(
            seq![punctuation(open)] + inside + seq![punctuation(close)],
            tokens_from(s, at + lines.len() + indentation(level).len() + 4),
        ),
{
    let margin = indentation(level);
    lemma_holds_split(s, at, seq![open, '\n'] + lines + seq!['\n'] + margin, seq![close]);
    lemma_holds_split(s, at, seq![open, '\n'] + lines + seq!['\n'], margin);
    lemma_holds_split(s, at, seq![open, '\n'] + lines, seq!['\n']);
    lemma_holds_split(s, at, seq![open, '\n'], lines);
    lemma_holds_index(s, at, seq![open, '\n'], 0);
    lemma_holds_index(s, at, seq![open, '\n'], 1);
    let lines_end = at + 2 + lines.len();
    let close_at = lines_end + 1 + margin.len();
    lemma_holds_index(s, lines_end, seq!['\n'], 0);
    lemma_holds_index(s, close_at, seq![close], 0);
    lemma_punctuation(s, at);
    lemma_blank(s, at + 1);
    lemma_blank(s, lines_end);
    lemma_skip_indentation(s, lines_end + 1, level);
    lemma_punctuation(s, close_at);
    let end = tokens_from(s, close_at + 1);
    lemma_extend_tokens(inside, seq![punctuation(close)], end);
    lemma_extend_tokens(seq![punctuation(open)], inside + seq![punctuation(close)], end);
    assert(seq![punctuation(open)] + (inside + seq![punctuation(close)]) =~= seq![
        punctuation(open),
    ] + inside + seq![punctuation(close)]);
}

/// Where a text holds a line of a container, the line after its first line,
/// behind a comma and a line break, and the tokens of the line are known,
/// the tokens from the comma are the comma, those of the line, and then
/// those of what follows.
proof fn lemma_next_line_tokens(
    s: Seq<char>,
    at: int,
    first: bool,
    level: nat,
    line: Seq<SpecToken>,
    end: int,
)
    requires
        holds(s, at, separator(first) + indentation(level)),
        tokens_from(s, at + separator(first).len() + indentation(level).len()) == extend_tokens(
            line,
            tokens_from(s, end),
        ),
    ensures
        tokens_from(s, at) == extend_tokens(comma(first) + line, tokens_from(s, end)),
{
    lemma_pieces();
    let between = separator(first);
    lemma_holds_split(s, at, between, indentation(level));
    lemma_skip_indentation(s, at + between.len(), level);
    if first {
        assert(comma(first) + line =~= line);
    } else {
        lemma_holds_index(s, at, between, 0);
        lemma_holds_index(s, at, between, 1);
        lemma_punctuation(s, at);
        lemma_blank(s, at + 1);
        lemma_extend_tokens(comma(first), line, tokens_from(s, end));
    }
}

/// Where a text holds the key of a member between double quotes, a colon and
/// a blank, and the tokens of the value behind them are known, the tokens
/// from the key are those of the member, and then those of what follows.
proof fn lemma_member_tokens(
    s: Seq<char>,
    at: int,
    key: Seq<char>,
    value: SpecValue,
    end: int,
)
    requires
        is_plain(key),
        holds(s, at, seq!['"'] + key + seq!['"', ':', ' ']),
        tokens_from(s, at + key.len() + 4) == extend_tokens(
            value_tokens(value),
            tokens_from(s, end),
        ),
    ensures
        tokens_from(s, at) == extend_tokens(member_tokens((key, value)), tokens_from(s, end)),
{
    lemma_pieces();
    let tail = seq!['"', ':', ' '];
    lemma_holds_split(s, at, seq!['"'] + key, tail);
    let quote_at = at + 1 + key.len();
    lemma_holds_index(s, quote_at, tail, 0);
    lemma_holds_index(s, quote_at, tail, 1);
    lemma_holds_index(s, quote_at, tail, 2);
    assert(holds(s, at, "\""@ + key + "\""@)) by {
        assert(s.subrange(at, at + key.len() + 2) =~= "\""@ + key + "\""@) by {
            assert forall|i: int| 0 <= i < key.len() + 2 implies s.subrange(
                at,
                at + key.len() + 2,
            )[i] == ("\""@ + key + "\""@)[i] by {
                if i <= key.len() {
                    lemma_holds_index(s, at, seq!['"'] + key, i);
                }
            }
        }
    }
    lemma_scan_quoted(s, at, key);
    lemma_punctuation(s, quote_at + 1);
    lemma_blank(s, quote_at + 2);
    let rest = tokens_from(s, end);
    let name = seq![SpecToken::String(key)];
    let colon = seq![SpecToken::Colon];
    lemma_extend_tokens(colon, value_tokens(value), rest);
    lemma_extend_tokens(name, colon + value_tokens(value), rest);
    assert(member_tokens((key, value)) =~= name + (colon + value_tokens(value)));
}

/// Where a text holds the text of a value that reads back, and a token ends
/// after it, the tokens from there are those of the value and then those of
/// what follows.
proof fn lemma_tokens_of_value(s: Seq<char>, at: int, v: SpecValue, level: nat)
    requires
        level >= 1,
        reads_back(v),
        holds(s, at, render_value(v, level)),
        ends_token(s, at + render_value(v, level).len()),
    ensures
        tokens_from(s, at) == extend_tokens(
            value_tokens(v),
            tokens_from(s, at + render_value(v, level).len()),
        ),
    decreases v, 0nat,
{
    match v {
        SpecValue::Null => {
            lemma_scan_word(s, at, v);
        },
        SpecValue::Bool(_) => {
            lemma_scan_word(s, at, v);
        },
        SpecValue::Number(literal) => {
            lemma_scan_number(s, at, literal);
        },
        SpecValue::String(content) => {
            lemma_pieces();
            lemma_scan_quoted(s, at, content);
        },
        SpecValue::Array(items) => {
            lemma_pieces();
            if items.len() == 0 {
                assert(items_tokens(items) =~= Seq::<SpecToken>::empty());
                lemma_tokens_of_brackets(s, at, '[', ']');
                assert(value_tokens(v) =~= seq![punctuation('[')] + seq![punctuation(']')]);
            } else {
                let lines = render_items(items, level);
                let margin = indentation((level - 1) as nat);
                lemma_frame_parts(s, at, '[', lines, margin, ']');
                lemma_tokens_of_items(s, at + 2, items, level);
                lemma_frame_tokens(
                    s,
                    at,
                    '[',
                    lines,
                    (level - 1) as nat,
                    ']',
                    items_tokens(items),
                );
            }
        },
        SpecValue::Object(members) => {
            lemma_pieces();
            if members.len() == 0 {
                assert(members_tokens(members) =~= Seq::<SpecToken>::empty());
                lemma_tokens_of_brackets(s, at, '{', '}');
                assert(value_tokens(v) =~= seq![punctuation('{')] + seq![punctuation('}')]);
            } else {
                let lines = render_members(members, level);
                let margin = indentation((level - 1) as nat);
                lemma_frame_parts(s, at, '{', lines, margin, '}');
                lemma_tokens_of_members(s, at + 2, members, level);
                lemma_frame_tokens(
                    s,
                    at,
                    '{',
                    lines,
                    (level - 1) as nat,
                    '}',
                    members_tokens(members),
                );
            }
        },
    }
}

/// Where a text holds the lines of the elements of an array, all of which
/// read back, and a token ends after them, the tokens from there are those
/// of the elements and then those of what follows.
proof fn lemma_tokens_of_items(s: Seq<char>, from: int, items: Seq<SpecValue>, level: nat)
    requires
        level >= 1,
        items.len() > 0,
        forall|i: int| 0 <= i < items.len() ==> reads_back(#[trigger] items[i]),
        holds(s, from, render_items(items, level)),
        ends_token(s, from + render_items(items, level).len()),
    ensures
        tokens_from(s, from) == extend_tokens(
            items_tokens(items),
            tokens_from(s, from + render_items(items, level).len()),
        ),
    decreases items, 1nat,
{
    let front = items.drop_last();
    let last = items.last();
    let first = items.len() == 1;
    let before = render_items(front, level);
    let gap = separator(first) + indentation(level);
    let shown = render_value(last, level + 1);
    let end = from + render_items(items, level).len();
    assert(render_items(items, level) =~= before + gap + shown);
    lemma_holds_split(s, from, before + gap, shown);
    lemma_holds_split(s, from, before, gap);
    let gap_at = from + before.len();
    assert(reads_back(last));
    lemma_tokens_of_value(s, gap_at + gap.len(), last, level + 1);
    lemma_next_line_tokens(s, gap_at, first, level, value_tokens(last), end);
    if first {
        assert(front =~= Seq::<SpecValue>::empty());
        assert(items_tokens(items) =~= comma(first) + value_tokens(last));
    } else {
        assert forall|i: int| 0 <= i < front.len() implies reads_back(#[trigger] front[i]) by {
            assert(front[i] == items[i]);
        }
        lemma_pieces();
        lemma_holds_index(s, gap_at, gap, 0);
        lemma_tokens_of_items(s, from, front, level);
        lemma_extend_tokens(
            items_tokens(front),
            comma(first) + value_tokens(last),
            tokens_from(s, end),
        );
        assert(items_tokens(items) =~= items_tokens(front) + (comma(first) + value_tokens(last)));
    }
}

/// Where a text holds the lines of the members of an object, all of which
/// read back, and a token ends after them, the tokens from there are those
/// of the members and then those of what follows.
proof fn lemma_tokens_of_members(
    s: Seq<char>,
    from: int,
    members: Seq<(Seq<char>, SpecValue)>,
    level: nat,
)
    requires
        level >= 1,
        members.len() > 0,
        forall|i: int|
            0 <= i < members.len() ==> is_plain((#[trigger] members[i]).0) && reads_back(
                members[i].1,
            ),
        holds(s, from, render_members(members, level)),
        ends_token(s, from + render_members(members, level).len()),
    ensures
        tokens_from(s, from) == extend_tokens(
            members_tokens(members),
            tokens_from(s, from + render_members(members, level).len()),
        ),
    decreases members, 1nat,
{
    lemma_pieces();
    let front = members.drop_last();
    let last = members.last();
    let first = members.len() == 1;
    let before = render_members(front, level);
    let gap = separator(first) + indentation(level);
    let name = seq!['"'] + last.0 + seq!['"', ':', ' '];
    let shown = render_value(last.1, level + 1);
    let end = from + render_members(members, level).len();
    assert(render_members(members, level) =~= before + gap + name + shown);
    lemma_holds_split(s, from, before + gap + name, shown);
    lemma_holds_split(s, from, before + gap, name);
    lemma_holds_split(s, from, before, gap);
    let gap_at = from + before.len();
    let name_at = gap_at + gap.len();
    assert(is_plain(last.0) && reads_back(last.1));
    lemma_tokens_of_value(s, name_at + name.len(), last.1, level + 1);
    lemma_member_tokens(s, name_at, last.0, last.1, end);
    lemma_next_line_tokens(s, gap_at, first, level, member_tokens(last), end);
    if first {
        assert(front =~= Seq::<(Seq<char>, SpecValue)>::empty());
        assert(members_tokens(members) =~= comma(first) + member_tokens(last));
    } else {
        assert forall|i: int| 0 <= i < front.len() implies is_plain((#[trigger] front[i]).0)
            && reads_back(front[i].1) by {
            assert(front[i] == members[i]);
        }
        lemma_holds_index(s, gap_at, gap, 0);
        lemma_tokens_of_members(s, from, front, level);
        lemma_extend_tokens(
            members_tokens(front),
            comma(first) + member_tokens(last),
            tokens_from(s, end),
        );
        assert(members_tokens(members) =~= members_tokens(front) + (comma(first) + member_tokens(
            last,
        )));
    }
}

/// Tokenizing the text of a value that reads back yields the tokens that
/// spell the value.
pub proof fn theorem_tokenize_format(v: SpecValue)
    requires
        reads_back(v),
    ensures
        tokenize_spec(format_spec(v)) == Ok::<Seq<SpecToken>, SpecTokenizeError>(value_tokens(v)),
{
    let text = format_spec(v);
    assert(text.subrange(0, text.len() as int) =~= text);
    lemma_tokens_of_value(text, 0, v, 1);
    assert(value_tokens(v) + Seq::<SpecToken>::empty() =~= value_tokens(v));
}

/// Formatting the text of a value that reads back changes nothing: the text
/// tokenizes to the tokens of the value, they parse to the value, and the
/// value is written as the same text.
pub proof fn theorem_round_trip(v: SpecValue)
    requires
        reads_back(v),
    ensures
        tokenize_spec(format_spec(v)) == Ok::<Seq<SpecToken>, SpecTokenizeError>(value_tokens(v)),
        parse_spec(value_tokens(v)) == Ok::<SpecValue, SpecParserError>(v),
        format_json_spec(format_spec(v)) == Ok::<Seq<char>, SpecError>(format_spec(v)),
{
    theorem_tokenize_format(v);
    theorem_parse_value_tokens(v, Seq::empty());
    assert(value_tokens(v) + Seq::<SpecToken>::empty() =~= value_tokens(v));
}

/// Whether every number in `v` is a number as the tokenizer reads one.
pub open spec fn has_number_tokens(v: SpecValue) -> bool
    decreases v,
{
    match v {
        SpecValue::Number(literal) => is_number_token(literal),
        SpecValue::Array(items) => forall|i: int|
            0 <= i < items.len() ==> has_number_tokens(#[trigger] items[i]),
        SpecValue::Object(members) => forall|i: int|
            0 <= i < members.len() ==> has_number_tokens((#[trigger] members[i]).1),
        _ => true,
    }
}

/// Whether every string and every key in `v` is plain.
pub open spec fn has_plain_strings(v: SpecValue) -> bool
    decreases v,
{
    match v {
        SpecValue::String(content) => is_plain(content),
        SpecValue::Array(items) => forall|i: int|
            0 <= i < items.len() ==> has_plain_strings(#[trigger] items[i]),
        SpecValue::Object(members) => forall|i: int|
            0 <= i < members.len() ==> is_plain((#[trigger] members[i]).0) && has_plain_strings(
                members[i].1,
            ),
        _ => true,
    }
}

/// A value reads back if its numbers are numbers as the tokenizer reads them
/// and its strings and keys are plain.
proof fn lemma_reads_back(v: SpecValue)
    requires
        has_number_tokens(v),
        has_plain_strings(v),
    ensures
        reads_back(v),
    decreases v,
{
    match v {
        SpecValue::Array(items) => {
            assert forall|i: int| 0 <= i < items.len() implies reads_back(#[trigger] items[i]) by {
                lemma_reads_back(items[i]);
            }
        },
        SpecValue::Object(members) => {
            assert forall|i: int| 0 <= i < members.len() implies is_plain(
                (#[trigger] members[i]).0,
            ) && reads_back(members[i].1) by {
                lemma_reads_back(members[i].1);
            }
        },
        _ => {},
    }
}

/// The parser puts into a value no number but those of its tokens.
proof fn lemma_parse_value_numbers(ts: Seq<SpecToken>, at: int)
    requires
        are_number_tokens(ts),
        parse_value(ts, at) is Ok,
    ensures
        has_number_tokens(parse_value(ts, at)->Ok_0.0),
    decreases tokens_left(ts, at), 2nat,
{
    match ts[at] {
        SpecToken::LeftSquareBracket => {
            if ts[at + 1] != SpecToken::RightSquareBracket {
                lemma_parse_value_numbers(ts, at + 1);
                let (first, taken) = parse_value(ts, at + 1)->Ok_0;
                lemma_parse_array_rest_numbers(ts, at + 1 + taken, seq![first]);
            }
        },
        SpecToken::LeftCurlyBracket => {
            if ts[at + 1] != SpecToken::RightCurlyBracket {
                lemma_parse_member_numbers(ts, at + 1);
                let (first, taken) = parse_member(ts, at + 1)->Ok_0;
                lemma_parse_object_rest_numbers(ts, at + 1 + taken, seq![first]);
            }
        },
        _ => {},
    }
}

/// The parser adds to the elements of an array no number but those of its
/// tokens.
proof fn lemma_parse_array_rest_numbers(ts: Seq<SpecToken>, at: int, items: Seq<SpecValue>)
    requires
        are_number_tokens(ts),
        forall|i: int| 0 <= i < items.len() ==> has_number_tokens(#[trigger] items[i]),
        parse_array_rest(ts, at, items) is Ok,
    ensures
        forall|i: int|
            0 <= i < parse_array_rest(ts, at, items)->Ok_0.0.len() ==> has_number_tokens(
                #[trigger] parse_array_rest(ts, at, items)->Ok_0.0[i],
            ),
    decreases tokens_left(ts, at), 0nat,
{
    if ts[at] == SpecToken::Comma {
        lemma_parse_value_numbers(ts, at + 1);
        let (item, taken) = parse_value(ts, at + 1)->Ok_0;
        lemma_parse_array_rest_numbers(ts, at + 1 + taken, items.push(item));
    }
}

/// The parser puts into a member no number but those of its tokens.
proof fn lemma_parse_member_numbers(ts: Seq<SpecToken>, at: int)
    requires
        are_number_tokens(ts),
        parse_member(ts, at) is Ok,
    ensures
        has_number_tokens(parse_member(ts, at)->Ok_0.0.1),
    decreases tokens_left(ts, at), 0nat,
{
    lemma_parse_value_numbers(ts, at + 2);
}

/// The parser adds to the members of an object no number but those of its
/// tokens.
proof fn lemma_parse_object_rest_numbers(
    ts: Seq<SpecToken>,
    at: int,
    members: Seq<(Seq<char>, SpecValue)>,
)
    requires
        are_number_tokens(ts),
        forall|i: int| 0 <= i < members.len() ==> has_number_tokens((#[trigger] members[i]).1),
        parse_object_rest(ts, at, members) is Ok,
    ensures
        forall|i: int|
            0 <= i < parse_object_rest(ts, at, members)->Ok_0.0.len() ==> has_number_tokens(
                (#[trigger] parse_object_rest(ts, at, members)->Ok_0.0[i]).1,
            ),
    decreases tokens_left(ts, at), 0nat,
{
    if ts[at] == SpecToken::Comma {
        lemma_parse_member_numbers(ts, at + 1);
        let (member, taken) = parse_member(ts, at + 1)->Ok_0;
        lemma_parse_object_rest_numbers(ts, at + 1 + taken, members.push(member));
    }
}

/// The numbers of a parsed value are numbers of its tokens: where every
/// number among the tokens is a number as the tokenizer reads one, so is
/// every number in the value.
pub proof fn theorem_parsed_numbers(ts: Seq<SpecToken>)
    requires
        are_number_tokens(ts),
        parse_spec(ts) is Ok,
    ensures
        has_number_tokens(parse_spec(ts)->Ok_0),
{
    lemma_parse_value_numbers(ts, 0);
}

/// The value that a text spells: what its tokens parse to.
pub open spec fn value_of(content: Seq<char>) -> SpecValue
    recommends
        format_json_spec(content) is Ok,
{
    parse_spec(tokenize_spec(content)->Ok_0)->Ok_0
}

/// Formatting is idempotent: where a text is formatted, and the strings and
/// keys of its value are plain, formatting the outcome again yields the same
/// outcome, and the outcome spells the same value as the text.
pub proof fn theorem_format_json_idempotent(content: Seq<char>)
    requires
        format_json_spec(content) is Ok,
        has_plain_strings(value_of(content)),
    ensures
        format_json_spec(format_json_spec(content)->Ok_0) == format_json_spec(content),
        value_of(format_json_spec(content)->Ok_0) == value_of(content),
{
    let ts = tokenize_spec(content)->Ok_0;
    let v = value_of(content);
    theorem_number_tokens(content, 0);
    theorem_parsed_numbers(ts);
    lemma_reads_back(v);
    theorem_round_trip(v);
}

/// The tokens that are a value by themselves.
pub open spec fn is_scalar(token: SpecToken) -> bool {
    token is Null || token is True || token is False || token is Number || token is String
}

/// The value that a scalar token is.
pub open spec fn leaf(token: SpecToken) -> SpecValue
    recommends
        is_scalar(token),
{
    match token {
        SpecToken::True => SpecValue::Bool(true),
        SpecToken::False => SpecValue::Bool(false),
        SpecToken::Number(literal) => SpecValue::Number(literal),
        SpecToken::String(content) => SpecValue::String(content),
        _ => SpecValue::Null,
    }
}

/// A text that is one scalar token, with whitespace at most before and after
/// it, spells the matching leaf: tokenizing it yields that token alone, and
/// parsing that yields the leaf.
pub proof fn theorem_scalar(s: Seq<char>, at: int, token: SpecToken, taken: nat)
    requires
        0 <= at < s.len(),
        forall|i: int| 0 <= i < at ==> is_whitespace(#[trigger] s[i]),
        !is_whitespace(s[at]),
        scan_token(s, at) == Ok::<(SpecToken, nat), SpecTokenizeError>((token, taken)),
        is_scalar(token),
        at + taken <= s.len(),
        forall|i: int| at + taken <= i < s.len() ==> is_whitespace(#[trigger] s[i]),
    ensures
        tokenize_spec(s) == Ok::<Seq<SpecToken>, SpecTokenizeError>(seq![token]),
        parse_spec(seq![token]) == Ok::<SpecValue, SpecParserError>(leaf(token)),
{
    lemma_skip_whitespace(s, 0, at as nat);
    lemma_skip_whitespace(s, at + taken, (s.len() - at - taken) as nat);
    assert(tokens_from(s, s.len() as int) == Ok::<Seq<SpecToken>, SpecTokenizeError>(Seq::empty()));
    assert(seq![token] + Seq::<SpecToken>::empty() =~= seq![token]);
}

} // verus!
