use crate::parser::{
    parse_array_rest, parse_member, parse_object_rest, parse_spec, parse_value, tokens_left,
    SpecParserError, SpecValue,
};
use crate::span::{
    holds, lemma_holds_end, lemma_holds_extend, lemma_holds_index, lemma_holds_join,
    lemma_holds_one, lemma_holds_split, lemma_holds_within,
};
use crate::tokenizer::SpecToken;
use vstd::prelude::*;

verus! {

/// The comma that stands before every element of a container but the first.
pub open spec fn comma(first: bool) -> Seq<SpecToken> {
    if first {
        Seq::empty()
    } else {
        seq![SpecToken::Comma]
    }
}

/// The tokens that spell `v`.
pub open spec fn value_tokens(v: SpecValue) -> Seq<SpecToken>
    decreases v, 1nat,
{
    match v {
        SpecValue::Null => seq![SpecToken::Null],
        SpecValue::Bool(b) => seq![
            if b {
                SpecToken::True
            } else {
                SpecToken::False
            },
        ],
        SpecValue::Number(literal) => seq![SpecToken::Number(literal)],
        SpecValue::String(content) => seq![SpecToken::String(content)],
        SpecValue::Array(items) => seq![SpecToken::LeftSquareBracket] + items_tokens(items) + seq![
            SpecToken::RightSquareBracket,
        ],
        SpecValue::Object(members) => seq![SpecToken::LeftCurlyBracket] + members_tokens(members)
            + seq![SpecToken::RightCurlyBracket],
    }
}

/// The tokens that spell the elements of an array, with a comma between two
/// of them.
pub open spec fn items_tokens(items: Seq<SpecValue>) -> Seq<SpecToken>
    decreases items, 0nat,
{
    if items.len() == 0 {
        Seq::empty()
    } else {
        items_tokens(items.drop_last()) + comma(items.len() == 1) + value_tokens(items.last())
    }
}

/// The tokens that spell one member of an object: its key, a colon and its
/// value.
pub open spec fn member_tokens(member: (Seq<char>, SpecValue)) -> Seq<SpecToken>
    decreases member, 2nat,
{
    seq![SpecToken::String(member.0), SpecToken::Colon] + value_tokens(member.1)
}

/// The tokens that spell the members of an object, with a comma between two
/// of them.
pub open spec fn members_tokens(members: Seq<(Seq<char>, SpecValue)>) -> Seq<SpecToken>
    decreases members, 0nat,
{
    if members.len() == 0 {
        Seq::empty()
    } else {
        members_tokens(members.drop_last()) + comma(members.len() == 1) + member_tokens(
            members.last(),
        )
    }
}

/// The tokens with which a value can start.
spec fn starts_value(token: SpecToken) -> bool {
    token is Null || token is True || token is False || token is Number || token is String
        || token is LeftSquareBracket || token is LeftCurlyBracket
}

/// The tokens of a value are at least one, and the first can start a value.
proof fn lemma_value_tokens_start(v: SpecValue)
    ensures
        value_tokens(v).len() > 0,
        starts_value(value_tokens(v)[0]),
{
}

/// In the tokens of an array, element `k` stands after the tokens of the
/// first `k` elements, behind a comma unless it is the first.
proof fn lemma_items_tokens_at(items: Seq<SpecValue>, k: int)
    requires
        0 <= k < items.len(),
    ensures
        items_tokens(items.take(k + 1)) == items_tokens(items.take(k)) + comma(k == 0)
            + value_tokens(items[k]),
        holds(
            items_tokens(items),
            items_tokens(items.take(k)).len() as int,
            comma(k == 0) + value_tokens(items[k]),
        ),
    decreases items.len(),
{
    let front = items.drop_last();
    assert(items.take(k + 1).drop_last() =~= items.take(k));
    assert(items.take(k + 1).last() == items[k]);
    if k == items.len() - 1 {
        assert(items.take(k) =~= front);
        lemma_holds_end(items_tokens(front), comma(k == 0) + value_tokens(items[k]));
        assert(items_tokens(items) =~= items_tokens(front) + (comma(k == 0) + value_tokens(
            items[k],
        )));
    } else {
        lemma_items_tokens_at(front, k);
        assert(front.take(k) =~= items.take(k));
        lemma_holds_extend(
            items_tokens(front),
            comma(items.len() == 1) + value_tokens(items.last()),
            items_tokens(items.take(k)).len() as int,
            comma(k == 0) + value_tokens(items[k]),
        );
        assert(items_tokens(items) =~= items_tokens(front) + (comma(items.len() == 1)
            + value_tokens(items.last())));
    }
}

/// In the tokens of an object, member `k` stands after the tokens of the
/// first `k` members, behind a comma unless it is the first.
proof fn lemma_members_tokens_at(members: Seq<(Seq<char>, SpecValue)>, k: int)
    requires
        0 <= k < members.len(),
    ensures
        members_tokens(members.take(k + 1)) == members_tokens(members.take(k)) + comma(k == 0)
            + member_tokens(members[k]),
        holds(
            members_tokens(members),
            members_tokens(members.take(k)).len() as int,
            comma(k == 0) + member_tokens(members[k]),
        ),
    decreases members.len(),
{
    let front = members.drop_last();
    assert(members.take(k + 1).drop_last() =~= members.take(k));
    assert(members.take(k + 1).last() == members[k]);
    if k == members.len() - 1 {
        assert(members.take(k) =~= front);
        lemma_holds_end(members_tokens(front), comma(k == 0) + member_tokens(members[k]));
        assert(members_tokens(members) =~= members_tokens(front) + (comma(k == 0)
            + member_tokens(members[k])));
    } else {
        lemma_members_tokens_at(front, k);
        assert(front.take(k) =~= members.take(k));
        lemma_holds_extend(
            members_tokens(front),
            comma(members.len() == 1) + member_tokens(members.last()),
            members_tokens(members.take(k)).len() as int,
            comma(k == 0) + member_tokens(members[k]),
        );
        assert(members_tokens(members) =~= members_tokens(front) + (comma(members.len() == 1)
            + member_tokens(members.last())));
    }
}

/// Where a token sequence holds the tokens of a value, the parser reads that
/// value there and takes exactly those tokens.
proof fn lemma_parse_value_tokens(ts: Seq<SpecToken>, at: int, v: SpecValue)
    requires
        holds(ts, at, value_tokens(v)),
    ensures
        parse_value(ts, at) == Ok::<(SpecValue, nat), SpecParserError>(
            (v, value_tokens(v).len()),
        ),
    decreases v, 0nat,
{
    let tokens = value_tokens(v);
    lemma_holds_index(ts, at, tokens, 0);
    match v {
        SpecValue::Array(items) => {
            let inside = items_tokens(items);
            let close = seq![SpecToken::RightSquareBracket];
            assert(tokens == seq![SpecToken::LeftSquareBracket] + (inside + close)) by {
                assert(tokens =~= seq![SpecToken::LeftSquareBracket] + (inside + close));
            }
            lemma_holds_split(ts, at, seq![SpecToken::LeftSquareBracket], inside + close);
            lemma_holds_index(ts, at + 1, inside + close, 0);
            if items.len() == 0 {
                assert(items =~= Seq::<SpecValue>::empty());
            } else {
                lemma_items_tokens_at(items, 0);
                assert(items.take(0) =~= Seq::<SpecValue>::empty());
                assert(items.take(1) =~= seq![items[0]]);
                let first = value_tokens(items[0]);
                assert(items_tokens(items.take(1)) =~= first);
                lemma_value_tokens_start(items[0]);
                lemma_holds_split(ts, at + 1, inside, close);
                assert(Seq::<SpecToken>::empty() + first =~= first);
                lemma_holds_within(ts, at + 1, inside, 0, first);
                lemma_holds_index(ts, at + 1, first, 0);
                lemma_parse_value_tokens(ts, at + 1, items[0]);
                lemma_parse_array_rest_tokens(ts, at + 1, items, 1);
            }
        },
        SpecValue::Object(members) => {
            let inside = members_tokens(members);
            let close = seq![SpecToken::RightCurlyBracket];
            assert(tokens == seq![SpecToken::LeftCurlyBracket] + (inside + close)) by {
                assert(tokens =~= seq![SpecToken::LeftCurlyBracket] + (inside + close));
            }
            lemma_holds_split(ts, at, seq![SpecToken::LeftCurlyBracket], inside + close);
            lemma_holds_index(ts, at + 1, inside + close, 0);
            if members.len() == 0 {
                assert(members =~= Seq::<(Seq<char>, SpecValue)>::empty());
            } else {
                lemma_members_tokens_at(members, 0);
                assert(members.take(0) =~= Seq::<(Seq<char>, SpecValue)>::empty());
                assert(members.take(1) =~= seq![members[0]]);
                let first = member_tokens(members[0]);
                assert(members_tokens(members.take(1)) =~= first);
                lemma_holds_split(ts, at + 1, inside, close);
                assert(Seq::<SpecToken>::empty() + first =~= first);
                lemma_holds_within(ts, at + 1, inside, 0, first);
                lemma_holds_index(ts, at + 1, first, 0);
                lemma_parse_member_tokens(ts, at + 1, members[0]);
                lemma_parse_object_rest_tokens(ts, at + 1, members, 1);
            }
        },
        _ => {},
    }
}

/// Where a token sequence holds the tokens of the elements of an array and
/// the closing bracket, the parser, once it has read the first `k` elements,
/// reads the others and ends with all of them.
proof fn lemma_parse_array_rest_tokens(
    ts: Seq<SpecToken>,
    at: int,
    items: Seq<SpecValue>,
    k: int,
)
    requires
        1 <= k <= items.len(),
        holds(ts, at, items_tokens(items) + seq![SpecToken::RightSquareBracket]),
    ensures
        items_tokens(items.take(k)).len() <= items_tokens(items).len(),
        parse_array_rest(ts, at + items_tokens(items.take(k)).len(), items.take(k)) == Ok::<
            (Seq<SpecValue>, nat),
            SpecParserError,
        >((items, (items_tokens(items).len() - items_tokens(items.take(k)).len() + 1) as nat)),
    decreases items, items.len() - k,
{
    let inside = items_tokens(items);
    let close = seq![SpecToken::RightSquareBracket];
    lemma_holds_split(ts, at, inside, close);
    if k == items.len() {
        assert(items.take(k) =~= items);
        lemma_holds_index(ts, at + inside.len(), close, 0);
    } else {
        let read = items_tokens(items.take(k));
        let next = value_tokens(items[k]);
        lemma_items_tokens_at(items, k);
        lemma_holds_within(ts, at, inside, read.len() as int, comma(false) + next);
        lemma_holds_split(ts, at + read.len(), comma(false), next);
        lemma_holds_index(ts, at + read.len(), comma(false), 0);
        lemma_parse_value_tokens(ts, at + read.len() + 1, items[k]);
        lemma_parse_array_rest_tokens(ts, at, items, k + 1);
        assert(items.take(k).push(items[k]) =~= items.take(k + 1));
    }
}

/// Where a token sequence holds the tokens of a member, the parser reads that
/// member there and takes exactly those tokens.
proof fn lemma_parse_member_tokens(ts: Seq<SpecToken>, at: int, member: (Seq<char>, SpecValue))
    requires
        holds(ts, at, member_tokens(member)),
    ensures
        parse_member(ts, at) == Ok::<((Seq<char>, SpecValue), nat), SpecParserError>(
            (member, member_tokens(member).len()),
        ),
    decreases member, 1nat,
{
    let head = seq![SpecToken::String(member.0), SpecToken::Colon];
    lemma_holds_split(ts, at, head, value_tokens(member.1));
    lemma_holds_index(ts, at, head, 0);
    lemma_holds_index(ts, at, head, 1);
    lemma_parse_value_tokens(ts, at + 2, member.1);
}

/// Where a token sequence holds the tokens of the members of an object and
/// the closing brace, the parser, once it has read the first `k` members,
/// reads the others and ends with all of them.
proof fn lemma_parse_object_rest_tokens(
    ts: Seq<SpecToken>,
    at: int,
    members: Seq<(Seq<char>, SpecValue)>,
    k: int,
)
    requires
        1 <= k <= members.len(),
        holds(ts, at, members_tokens(members) + seq![SpecToken::RightCurlyBracket]),
    ensures
        members_tokens(members.take(k)).len() <= members_tokens(members).len(),
        parse_object_rest(ts, at + members_tokens(members.take(k)).len(), members.take(k)) == Ok::<
            (Seq<(Seq<char>, SpecValue)>, nat),
            SpecParserError,
        >(
            (
                members,
                (members_tokens(members).len() - members_tokens(members.take(k)).len() + 1) as nat,
            ),
        ),
    decreases members, members.len() - k,
{
    let inside = members_tokens(members);
    let close = seq![SpecToken::RightCurlyBracket];
    lemma_holds_split(ts, at, inside, close);
    if k == members.len() {
        assert(members.take(k) =~= members);
        lemma_holds_index(ts, at + inside.len(), close, 0);
    } else {
        let read = members_tokens(members.take(k));
        let next = member_tokens(members[k]);
        lemma_members_tokens_at(members, k);
        lemma_holds_within(ts, at, inside, read.len() as int, comma(false) + next);
        lemma_holds_split(ts, at + read.len(), comma(false), next);
        lemma_holds_index(ts, at + read.len(), comma(false), 0);
        lemma_parse_member_tokens(ts, at + read.len() + 1, members[k]);
        lemma_parse_object_rest_tokens(ts, at, members, k + 1);
        assert(members.take(k).push(members[k]) =~= members.take(k + 1));
    }
}

/// Where the parser reads a value, the token sequence holds the tokens of
/// that value, and the parser takes exactly those.
proof fn lemma_parsed_value(ts: Seq<SpecToken>, at: int)
    requires
        parse_value(ts, at) is Ok,
    ensures
        holds(ts, at, value_tokens(parse_value(ts, at)->Ok_0.0)),
        parse_value(ts, at)->Ok_0.1 == value_tokens(parse_value(ts, at)->Ok_0.0).len(),
    decreases tokens_left(ts, at), 2nat,
{
    lemma_holds_one(ts, at);
    match ts[at] {
        SpecToken::LeftSquareBracket => {
            let open = seq![SpecToken::LeftSquareBracket];
            let close = seq![SpecToken::RightSquareBracket];
            if ts[at + 1] == SpecToken::RightSquareBracket {
                lemma_holds_one(ts, at + 1);
                lemma_holds_join(ts, at, open, close);
                assert(items_tokens(Seq::<SpecValue>::empty()) =~= Seq::<SpecToken>::empty());
                assert(open + Seq::<SpecToken>::empty() + close =~= open + close);
            } else {
                lemma_parsed_value(ts, at + 1);
                let (first, taken) = parse_value(ts, at + 1)->Ok_0;
                assert(seq![first].drop_last() =~= Seq::<SpecValue>::empty());
                assert(items_tokens(Seq::<SpecValue>::empty()) =~= Seq::<SpecToken>::empty());
                assert(seq![first].last() == first);
                assert(items_tokens(seq![first]) =~= value_tokens(first));
                lemma_parsed_array_rest(ts, at + 1, at + 1 + taken, seq![first]);
                let items = parse_array_rest(ts, at + 1 + taken, seq![first])->Ok_0.0;
                lemma_holds_join(ts, at, open, items_tokens(items) + close);
                assert(open + (items_tokens(items) + close) =~= open + items_tokens(items)
                    + close);
            }
        },
        SpecToken::LeftCurlyBracket => {
            let open = seq![SpecToken::LeftCurlyBracket];
            let close = seq![SpecToken::RightCurlyBracket];
            if ts[at + 1] == SpecToken::RightCurlyBracket {
                lemma_holds_one(ts, at + 1);
                lemma_holds_join(ts, at, open, close);
                assert(members_tokens(Seq::<(Seq<char>, SpecValue)>::empty()) =~= Seq::<
                    SpecToken,
                >::empty());
                assert(open + Seq::<SpecToken>::empty() + close =~= open + close);
            } else {
                lemma_parsed_member(ts, at + 1);
                let (first, taken) = parse_member(ts, at + 1)->Ok_0;
                assert(seq![first].drop_last() =~= Seq::<(Seq<char>, SpecValue)>::empty());
                assert(members_tokens(Seq::<(Seq<char>, SpecValue)>::empty()) =~= Seq::<
                    SpecToken,
                >::empty());
                assert(seq![first].last() == first);
                assert(members_tokens(seq![first]) =~= member_tokens(first));
                lemma_parsed_object_rest(ts, at + 1, at + 1 + taken, seq![first]);
                let members = parse_object_rest(ts, at + 1 + taken, seq![first])->Ok_0.0;
                lemma_holds_join(ts, at, open, members_tokens(members) + close);
                assert(open + (members_tokens(members) + close) =~= open + members_tokens(
                    members,
                ) + close);
            }
        },
        _ => {},
    }
}

/// Where the parser, with the tokens of some elements of an array behind it,
/// reads the rest of the array, the token sequence holds the tokens of all
/// the elements and the closing bracket, and the parser takes what is left
/// of them.
proof fn lemma_parsed_array_rest(
    ts: Seq<SpecToken>,
    start: int,
    at: int,
    items: Seq<SpecValue>,
)
    requires
        items.len() > 0,
        holds(ts, start, items_tokens(items)),
        at == start + items_tokens(items).len(),
        parse_array_rest(ts, at, items) is Ok,
    ensures
        holds(
            ts,
            start,
            items_tokens(parse_array_rest(ts, at, items)->Ok_0.0) + seq![
                SpecToken::RightSquareBracket,
            ],
        ),
        at + parse_array_rest(ts, at, items)->Ok_0.1 == start + items_tokens(
            parse_array_rest(ts, at, items)->Ok_0.0,
        ).len() + 1,
    decreases tokens_left(ts, at), 0nat,
{
    lemma_holds_one(ts, at);
    if ts[at] == SpecToken::Comma {
        lemma_parsed_value(ts, at + 1);
        let (item, taken) = parse_value(ts, at + 1)->Ok_0;
        let more = items.push(item);
        assert(more.drop_last() =~= items);
        lemma_holds_join(ts, at, seq![SpecToken::Comma], value_tokens(item));
        lemma_holds_join(
            ts,
            start,
            items_tokens(items),
            seq![SpecToken::Comma] + value_tokens(item),
        );
        assert(items_tokens(more) =~= items_tokens(items) + (seq![SpecToken::Comma]
            + value_tokens(item)));
        lemma_parsed_array_rest(ts, start, at + 1 + taken, more);
    } else {
        lemma_holds_join(ts, start, items_tokens(items), seq![SpecToken::RightSquareBracket]);
    }
}

/// Where the parser reads a member, the token sequence holds the tokens of
/// that member, and the parser takes exactly those.
proof fn lemma_parsed_member(ts: Seq<SpecToken>, at: int)
    requires
        parse_member(ts, at) is Ok,
    ensures
        holds(ts, at, member_tokens(parse_member(ts, at)->Ok_0.0)),
        parse_member(ts, at)->Ok_0.1 == member_tokens(parse_member(ts, at)->Ok_0.0).len(),
    decreases tokens_left(ts, at), 0nat,
{
    lemma_parsed_value(ts, at + 2);
    let member = parse_member(ts, at)->Ok_0.0;
    let head = seq![SpecToken::String(member.0), SpecToken::Colon];
    assert(ts.subrange(at, at + 2) =~= head);
    lemma_holds_join(ts, at, head, value_tokens(member.1));
}

/// Where the parser, with the tokens of some members of an object behind it,
/// reads the rest of the object, the token sequence holds the tokens of all
/// the members and the closing brace, and the parser takes what is left of
/// them.
proof fn lemma_parsed_object_rest(
    ts: Seq<SpecToken>,
    start: int,
    at: int,
    members: Seq<(Seq<char>, SpecValue)>,
)
    requires
        members.len() > 0,
        holds(ts, start, members_tokens(members)),
        at == start + members_tokens(members).len(),
        parse_object_rest(ts, at, members) is Ok,
    ensures
        holds(
            ts,
            start,
            members_tokens(parse_object_rest(ts, at, members)->Ok_0.0) + seq![
                SpecToken::RightCurlyBracket,
            ],
        ),
        at + parse_object_rest(ts, at, members)->Ok_0.1 == start + members_tokens(
            parse_object_rest(ts, at, members)->Ok_0.0,
        ).len() + 1,
    decreases tokens_left(ts, at), 0nat,
{
    lemma_holds_one(ts, at);
    if ts[at] == SpecToken::Comma {
        lemma_parsed_member(ts, at + 1);
        let (member, taken) = parse_member(ts, at + 1)->Ok_0;
        let more = members.push(member);
        assert(more.drop_last() =~= members);
        lemma_holds_join(ts, at, seq![SpecToken::Comma], member_tokens(member));
        lemma_holds_join(
            ts,
            start,
            members_tokens(members),
            seq![SpecToken::Comma] + member_tokens(member),
        );
        assert(members_tokens(more) =~= members_tokens(members) + (seq![SpecToken::Comma]
            + member_tokens(member)));
        lemma_parsed_object_rest(ts, start, at + 1 + taken, more);
    } else {
        lemma_holds_join(ts, start, members_tokens(members), seq![SpecToken::RightCurlyBracket]);
    }
}

/// The parser accepts a token sequence exactly when it starts with the
/// tokens that spell a value, and then it returns that value.
pub proof fn theorem_parser_grammar(ts: Seq<SpecToken>, v: SpecValue)
    ensures
        parse_spec(ts) == Ok::<SpecValue, SpecParserError>(v) <==> holds(ts, 0, value_tokens(v)),
{
    if holds(ts, 0, value_tokens(v)) {
        lemma_parse_value_tokens(ts, 0, v);
    }
    if parse_spec(ts) == Ok::<SpecValue, SpecParserError>(v) {
        lemma_parsed_value(ts, 0);
    }
}

/// The parser rejects a token sequence exactly when it starts with the
/// tokens of no value.
pub proof fn theorem_parser_rejects(ts: Seq<SpecToken>)
    ensures
        parse_spec(ts) is Err <==> forall|v: SpecValue| !holds(ts, 0, #[trigger] value_tokens(v)),
{
    if let Ok(v) = parse_spec(ts) {
        theorem_parser_grammar(ts, v);
    } else {
        assert forall|v: SpecValue| !holds(ts, 0, #[trigger] value_tokens(v)) by {
            theorem_parser_grammar(ts, v);
        }
    }
}

/// Parsing the tokens that spell a value yields that value, whatever tokens
/// follow them. Members of an object with equal keys are all kept, in their
/// order.
pub proof fn theorem_parse_value_tokens(v: SpecValue, rest: Seq<SpecToken>)
    ensures
        parse_spec(value_tokens(v) + rest) == Ok::<SpecValue, SpecParserError>(v),
{
    let ts = value_tokens(v) + rest;
    assert(ts.subrange(0, value_tokens(v).len() as int) =~= value_tokens(v));
    lemma_parse_value_tokens(ts, 0, v);
}

} // verus!
