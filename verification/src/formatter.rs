use crate::parser::{members_view, values_view, JsonValue, SpecValue};
use vstd::prelude::*;
use vstd::string::StringExecFns;

verus! {

/// The blanks in front of a line at indent level `level`: two for each level.
pub open spec fn indentation(level: nat) -> Seq<char>
    decreases level,
{
    if level == 0 {
        Seq::empty()
    } else {
        indentation((level - 1) as nat) + "  "@
    }
}

/// The text of `v`, where the elements of `v`, if it has any, stand at
/// indent level `level` and its closing bracket one level below.
pub open spec fn render_value(v: SpecValue, level: nat) -> Seq<char>
    decreases v, 1nat,
{
    match v {
        SpecValue::Null => "null"@,
        SpecValue::Bool(b) => if b {
            "true"@
        } else {
            "false"@
        },
        SpecValue::Number(literal) => literal,
        SpecValue::String(content) => "\""@ + content + "\""@,
        SpecValue::Array(items) => if items.len() == 0 {
            "[]"@
        } else {
            "[\n"@ + render_items(items, level) + "\n"@ + indentation((level - 1) as nat) + "]"@
        },
        SpecValue::Object(members) => if members.len() == 0 {
            "{}"@
        } else {
            "{\n"@ + render_members(members, level) + "\n"@ + indentation((level - 1) as nat)
                + "}"@
        },
    }
}

/// What stands between two lines of a container: a comma and a line break,
/// before every line but the first.
pub open spec fn separator(first: bool) -> Seq<char> {
    if first {
        Seq::empty()
    } else {
        ",\n"@
    }
}

/// The lines of the elements of an array at indent level `level`, each on a
/// line of its own, with a comma after each but the last.
pub open spec fn render_items(items: Seq<SpecValue>, level: nat) -> Seq<char>
    decreases items, 0nat,
{
    if items.len() == 0 {
        Seq::empty()
    } else {
        render_items(items.drop_last(), level) + separator(items.len() == 1) + indentation(level)
            + render_value(items.last(), level + 1)
    }
}

/// The lines of the members of an object at indent level `level`, each as
/// its key in quotes, a colon, a blank and its value, with a comma after
/// each but the last.
pub open spec fn render_members(members: Seq<(Seq<char>, SpecValue)>, level: nat) -> Seq<char>
    decreases members, 0nat,
{
    if members.len() == 0 {
        Seq::empty()
    } else {
        render_members(members.drop_last(), level) + separator(members.len() == 1) + indentation(
            level,
        ) + "\""@ + members.last().0 + "\": "@ + render_value(members.last().1, level + 1)
    }
}

/// The canonical text of `v`: the elements of the outermost container stand
/// at indent level 1.
pub open spec fn format_spec(v: SpecValue) -> Seq<char> {
    render_value(v, 1)
}

/// Formats `value`. `outer` holds the blanks of the line on which the value
/// starts, those of indent level `level - 1`.
fn format_value(value: &JsonValue, outer: &String, Ghost(level): Ghost<nat>) -> (text: String)
    requires
        level >= 1,
        outer@ == indentation((level - 1) as nat),
    ensures
        text@ == render_value(value@, level),
    decreases value, 1nat,
{
    match value {
        JsonValue::Null => "null".to_owned(),
        JsonValue::Bool(b) => if *b {
            "true".to_owned()
        } else {
            "false".to_owned()
        },
        JsonValue::Number(n) => n.clone(),
        JsonValue::String(s) => {
            let mut text = "\"".to_owned();
            text.append(s.as_str());
            text.append("\"");
            text
        },
        JsonValue::Object(entries) => format_object(entries, outer, Ghost(level)),
        JsonValue::Array(values) => format_array(values, outer, Ghost(level)),
    }
}

/// Formats the object that holds `entries`.
fn format_object(entries: &Vec<(String, JsonValue)>, outer: &String, Ghost(level): Ghost<nat>) -> (text:
    String)
    requires
        level >= 1,
        outer@ == indentation((level - 1) as nat),
    ensures
        text@ == render_value(SpecValue::Object(members_view(entries@)), level),
    decreases entries, 0nat,
{
    if entries.len() == 0 {
        return "{}".to_owned();
    }
    let ghost members = members_view(entries@);
    let mut inner = outer.clone();
    inner.append("  ");
    let mut text = "{\n".to_owned();
    let mut i: usize = 0;
    assert(members.take(0) =~= Seq::<(Seq<char>, SpecValue)>::empty());
    assert("{\n"@ + Seq::<char>::empty() =~= "{\n"@);
    while i < entries.len()
        invariant
            i <= entries.len(),
            level >= 1,
            members == members_view(entries@),
            inner@ == indentation(level),
            text@ == "{\n"@ + render_members(members.take(i as int), level),
        decreases entries.len() - i,
    {
        if i > 0 {
            text.append(",\n");
        }
        text.append(inner.as_str());
        text.append("\"");
        text.append(entries[i].0.as_str());
        text.append("\": ");
        let value = format_value(&entries[i].1, &inner, Ghost(level + 1));
        text.append(value.as_str());
        proof {
            let shown = members.take(i + 1);
            assert(shown.drop_last() =~= members.take(i as int));
            assert(shown.last() == members[i as int]);
            assert(text@ =~= "{\n"@ + render_members(shown, level));
        }
        i += 1;
    }
    assert(members.take(i as int) =~= members);
    text.append("\n");
    text.append(outer.as_str());
    text.append("}");
    text
}

/// Formats the array that holds `values`.
fn format_array(values: &Vec<JsonValue>, outer: &String, Ghost(level): Ghost<nat>) -> (text: String)
    requires
        level >= 1,
        outer@ == indentation((level - 1) as nat),
    ensures
        text@ == render_value(SpecValue::Array(values_view(values@)), level),
    decreases values, 0nat,
{
    if values.len() == 0 {
        return "[]".to_owned();
    }
    let ghost items = values_view(values@);
    let mut inner = outer.clone();
    inner.append("  ");
    let mut text = "[\n".to_owned();
    let mut i: usize = 0;
    assert(items.take(0) =~= Seq::<SpecValue>::empty());
    assert("[\n"@ + Seq::<char>::empty() =~= "[\n"@);
    while i < values.len()
        invariant
            i <= values.len(),
            level >= 1,
            items == values_view(values@),
            inner@ == indentation(level),
            text@ == "[\n"@ + render_items(items.take(i as int), level),
        decreases values.len() - i,
    {
        if i > 0 {
            text.append(",\n");
        }
        text.append(inner.as_str());
        let value = format_value(&values[i], &inner, Ghost(level + 1));
        text.append(value.as_str());
        proof {
            let shown = items.take(i + 1);
            assert(shown.drop_last() =~= items.take(i as int));
            assert(shown.last() == items[i as int]);
            assert(text@ =~= "[\n"@ + render_items(shown, level));
        }
        i += 1;
    }
    assert(items.take(i as int) =~= items);
    text.append("\n");
    text.append(outer.as_str());
    text.append("]");
    text
}

/// Formats `value` as indented text.
///
/// A scalar is written on one line, a string between double quotes with its
/// characters as they are. An empty container is written `[]` or `{}`. Any
/// other container has each element on a line of its own, two blanks deeper
/// than the line that holds its brackets.
pub fn format(value: &JsonValue) -> (text: String)
    ensures
        text@ == format_spec(value@),
{
    let outer = String::new();
    format_value(value, &outer, Ghost(1))
}

} // verus!
