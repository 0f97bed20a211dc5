use json_formatter::formatter;
use json_formatter::parser::JsonValue;

/// The value that stands for a float: a number with its decimal text.
fn number(value: f64) -> JsonValue {
    JsonValue::Number(value.to_string())
}

#[test]
fn format_null() {
    let value = JsonValue::Null;
    let result = formatter::format(&value);
    assert_eq!(result, "null");
}

#[test]
fn format_true() {
    let value = JsonValue::Bool(true);
    let result = formatter::format(&value);
    assert_eq!(result, "true");
}

#[test]
fn format_false() {
    let value = JsonValue::Bool(false);
    let result = formatter::format(&value);
    assert_eq!(result, "false");
}

#[test]
fn format_number() {
    let value = number(123.4);
    let result = formatter::format(&value);
    assert_eq!(result, "123.4");
}

#[test]
fn format_string() {
    let value = JsonValue::String("hello".to_string());
    let result = formatter::format(&value);
    assert_eq!(result, "\"hello\"");
}

#[test]
fn format_object_empty() {
    let value = JsonValue::Object(vec![]);
    let result = formatter::format(&value);
    assert_eq!(result, "{}");
}

#[test]
fn format_object_nested() {
    let value = JsonValue::Object(vec![
        ("number".to_string(), number(123.4)),
        (
            "object".to_string(),
            JsonValue::Object(vec![
                ("string".to_string(), JsonValue::String("hello".to_string())),
                (
                    "array".to_string(),
                    JsonValue::Array(vec![
                        JsonValue::Bool(true),
                        JsonValue::Bool(false),
                        JsonValue::Null,
                    ]),
                ),
            ]),
        ),
    ]);
    let result = formatter::format(&value);
    assert_eq!(
        result,
        r#"{
  "number": 123.4,
  "object": {
    "string": "hello",
    "array": [
      true,
      false,
      null
    ]
  }
}"#
    );
}

#[test]
fn format_array_empty() {
    let value = JsonValue::Array(vec![]);
    let result = formatter::format(&value);
    assert_eq!(result, "[]");
}

#[test]
fn format_array_nested() {
    let value = JsonValue::Array(vec![
        JsonValue::String("hello".to_string()),
        JsonValue::Object(vec![
            ("age".to_string(), number(18.0)),
            ("name".to_string(), JsonValue::String("Alice".to_string())),
            (
                "hobbies".to_string(),
                JsonValue::Array(vec![
                    JsonValue::Object(vec![
                        ("name".to_string(), JsonValue::String("Reading".to_string())),
                        ("level".to_string(), number(3.0)),
                    ]),
                    JsonValue::Object(vec![
                        (
                            "name".to_string(),
                            JsonValue::String("Swimming".to_string()),
                        ),
                        ("level".to_string(), number(2.0)),
                    ]),
                ]),
            ),
        ]),
        JsonValue::Object(vec![
            ("age".to_string(), number(24.0)),
            ("name".to_string(), JsonValue::String("Bob".to_string())),
            (
                "hobbies".to_string(),
                JsonValue::Array(vec![
                    JsonValue::Object(vec![
                        ("name".to_string(), JsonValue::String("Running".to_string())),
                        ("level".to_string(), number(1.0)),
                    ]),
                    JsonValue::Object(vec![
                        ("name".to_string(), JsonValue::String("Cycling".to_string())),
                        ("level".to_string(), number(2.0)),
                    ]),
                ]),
            ),
        ]),
    ]);
    let result = formatter::format(&value);
    assert_eq!(
        result,
        r#"[
  "hello",
  {
    "age": 18,
    "name": "Alice",
    "hobbies": [
      {
        "name": "Reading",
        "level": 3
      },
      {
        "name": "Swimming",
        "level": 2
      }
    ]
  },
  {
    "age": 24,
    "name": "Bob",
    "hobbies": [
      {
        "name": "Running",
        "level": 1
      },
      {
        "name": "Cycling",
        "level": 2
      }
    ]
  }
]"#
    );
}

#[test]
fn nesting_and_indentation() {
    let value = JsonValue::Object(vec![
        ("a".to_string(), number(1.0)),
        (
            "b".to_string(),
            JsonValue::Array(vec![JsonValue::Bool(true)]),
        ),
    ]);
    assert_eq!(
        formatter::format(&value),
        "{\n  \"a\": 1,\n  \"b\": [\n    true\n  ]\n}"
    );
}

#[test]
fn single_element_containers() {
    assert_eq!(
        formatter::format(&JsonValue::Array(vec![JsonValue::Null])),
        "[\n  null\n]"
    );
    assert_eq!(
        formatter::format(&JsonValue::Object(vec![(
            "k".to_string(),
            JsonValue::Null
        )])),
        "{\n  \"k\": null\n}"
    );
}

#[test]
fn empty_containers_inside_containers_stay_on_one_line() {
    let value = JsonValue::Array(vec![
        JsonValue::Array(vec![]),
        JsonValue::Object(vec![]),
        JsonValue::Object(vec![("e".to_string(), JsonValue::Array(vec![]))]),
    ]);
    assert_eq!(
        formatter::format(&value),
        "[\n  [],\n  {},\n  {\n    \"e\": []\n  }\n]"
    );
}

#[test]
fn deep_nesting_adds_two_blanks_a_level() {
    let value = JsonValue::Array(vec![JsonValue::Array(vec![JsonValue::Array(vec![
        JsonValue::Array(vec![number(7.0)]),
    ])])]);
    assert_eq!(
        formatter::format(&value),
        "[\n  [\n    [\n      [\n        7\n      ]\n    ]\n  ]\n]"
    );
}

#[test]
fn strings_and_keys_are_not_escaped() {
    let value = JsonValue::Object(vec![(
        "a\"b".to_string(),
        JsonValue::String("x\\y\n\"z\"".to_string()),
    )]);
    assert_eq!(formatter::format(&value), "{\n  \"a\"b\": \"x\\y\n\"z\"\"\n}");
}

#[test]
fn number_is_written_as_its_literal() {
    assert_eq!(formatter::format(&JsonValue::Number("1e5".to_string())), "1e5");
    assert_eq!(formatter::format(&JsonValue::Number("-0.50".to_string())), "-0.50");
}

#[test]
fn empty_string_and_empty_key() {
    assert_eq!(formatter::format(&JsonValue::String(String::new())), "\"\"");
    assert_eq!(
        formatter::format(&JsonValue::Object(vec![(
            String::new(),
            JsonValue::String(String::new())
        )])),
        "{\n  \"\": \"\"\n}"
    );
}
