use json_parser::{ErrorKind, JsonError, JsonNumber, JsonObject, JsonParser};

fn read(text: &str) -> (Result<JsonObject, JsonError>, usize) {
    let mut parser = JsonParser::new(text.to_string());
    let result = parser.parse();
    (result, parser.cursor())
}

fn failure(text: &str) -> JsonError {
    match read(text).0 {
        Ok(tree) => panic!("{text:?} was read as {tree:?}"),
        Err(error) => error,
    }
}

fn number(negative: bool, digits: &[u8]) -> JsonObject {
    JsonObject::Number(JsonNumber { negative, digits: digits.to_vec() })
}

fn string(text: &str) -> JsonObject {
    JsonObject::String(text.to_string())
}

fn as_float(tree: &JsonObject) -> f32 {
    match tree {
        JsonObject::Number(number) => {
            let mut magnitude = 0f32;
            for digit in &number.digits {
                magnitude = magnitude * 10.0 + *digit as f32;
            }
            if number.negative {
                -magnitude
            } else {
                magnitude
            }
        }
        other => panic!("{other:?} is no number"),
    }
}

fn write(tree: &JsonObject) -> String {
    match tree {
        JsonObject::Object(members) => {
            let parts: Vec<String> = members
                .iter()
                .map(|(key, value)| format!("\"{}\":{}", key, write(value)))
                .collect();
            format!("{{{}}}", parts.join(","))
        }
        JsonObject::Array(items) => {
            let parts: Vec<String> = items.iter().map(write).collect();
            format!("[{}]", parts.join(","))
        }
        JsonObject::String(text) => format!("\"{}\"", text),
        JsonObject::Number(number) => {
            let digits: String = number.digits.iter().map(|d| (b'0' + d) as char).collect();
            format!("{}{}", if number.negative { "-" } else { "" }, digits)
        }
        JsonObject::Boolean(truth) => format!("{}", truth),
        JsonObject::Null => "null".to_string(),
    }
}

#[test]
fn reads_the_sample_document() {
    let text = "[true, false, \"hello\", {}, -12]";
    let (result, cursor) = read(text);
    assert_eq!(
        result,
        Ok(JsonObject::Array(vec![
            JsonObject::Boolean(true),
            JsonObject::Boolean(false),
            string("hello"),
            JsonObject::Object(vec![]),
            number(true, &[1, 2]),
        ]))
    );
    assert_eq!(cursor, text.len());
}

#[test]
fn later_duplicate_key_wins() {
    let (result, cursor) = read("{\"a\": 1, \"a\": 2}");
    assert_eq!(
        result,
        Ok(JsonObject::Object(vec![("a".to_string(), number(false, &[2]))]))
    );
    assert_eq!(cursor, 16);
}

#[test]
fn duplicate_key_keeps_its_place_among_the_others() {
    let (result, _) = read("{\"a\":1,\"b\":2,\"a\":3}");
    assert_eq!(
        result,
        Ok(JsonObject::Object(vec![
            ("a".to_string(), number(false, &[3])),
            ("b".to_string(), number(false, &[2])),
        ]))
    );
}

#[test]
fn trailing_comma_in_array_fails() {
    assert_eq!(failure("[1, 2, ]"), JsonError { kind: ErrorKind::UnexpectedToken(b']'), position: 7 });
    assert_eq!(failure("[1, 2,]"), JsonError { kind: ErrorKind::UnexpectedEnd, position: 5 });
}

#[test]
fn unterminated_string_fails() {
    assert_eq!(
        failure("\"abc"),
        JsonError { kind: ErrorKind::ExpectedDelimiter(b'"'), position: 4 }
    );
}

#[test]
fn empty_object_has_no_members() {
    let (result, cursor) = read("{}");
    assert_eq!(result, Ok(JsonObject::Object(vec![])));
    assert_eq!(cursor, 2);
}

#[test]
fn array_needs_an_element() {
    assert_eq!(failure("[]"), JsonError { kind: ErrorKind::UnexpectedToken(b']'), position: 1 });
}

#[test]
fn negative_number() {
    let (result, cursor) = read("-12");
    let tree = result.unwrap();
    assert_eq!(tree, number(true, &[1, 2]));
    assert_eq!(as_float(&tree), -12.0f32);
    assert_eq!(cursor, 3);
}

#[test]
fn fraction_is_left_unread() {
    let (result, cursor) = read("1.5");
    let tree = result.unwrap();
    assert_eq!(tree, number(false, &[1]));
    assert_eq!(as_float(&tree), 1.0f32);
    assert_eq!(cursor, 1);
}

#[test]
fn fraction_in_array_fails() {
    assert_eq!(failure("[1.5]"), JsonError { kind: ErrorKind::UnexpectedEnd, position: 2 });
    assert_eq!(failure("[1e5]"), JsonError { kind: ErrorKind::UnexpectedEnd, position: 2 });
}

#[test]
fn fraction_in_object_fails() {
    assert_eq!(
        failure("{\"a\":1.5}"),
        JsonError { kind: ErrorKind::ExpectedDelimiter(b'}'), position: 6 }
    );
}

#[test]
fn null_is_read() {
    let (result, cursor) = read("null");
    assert_eq!(result, Ok(JsonObject::Null));
    assert_eq!(cursor, 4);
}

#[test]
fn malformed_null_is_null_and_reads_nothing() {
    let (result, cursor) = read("nul");
    assert_eq!(result, Ok(JsonObject::Null));
    assert_eq!(cursor, 0);
    let (result, cursor) = read("  nil");
    assert_eq!(result, Ok(JsonObject::Null));
    assert_eq!(cursor, 2);
}

#[test]
fn malformed_null_in_array_fails() {
    assert_eq!(failure("[nul]"), JsonError { kind: ErrorKind::UnexpectedEnd, position: 1 });
}

#[test]
fn booleans() {
    assert_eq!(read("true"), (Ok(JsonObject::Boolean(true)), 4));
    assert_eq!(read("false"), (Ok(JsonObject::Boolean(false)), 5));
    assert_eq!(read("truest"), (Ok(JsonObject::Boolean(true)), 4));
}

#[test]
fn malformed_boolean_fails() {
    assert_eq!(failure("tru"), JsonError { kind: ErrorKind::UnexpectedEnd, position: 0 });
    assert_eq!(failure(" fals"), JsonError { kind: ErrorKind::UnexpectedEnd, position: 1 });
    assert_eq!(failure("tr\u{fc}e"), JsonError { kind: ErrorKind::UnexpectedEnd, position: 0 });
}

#[test]
fn empty_input_fails() {
    assert_eq!(failure(""), JsonError { kind: ErrorKind::EndOfInput, position: 0 });
}

#[test]
fn blank_input_fails_at_its_end() {
    assert_eq!(failure(" \t\n "), JsonError { kind: ErrorKind::EndOfInput, position: 4 });
}

#[test]
fn unexpected_token_is_reported_with_its_byte() {
    assert_eq!(failure("  x"), JsonError { kind: ErrorKind::UnexpectedToken(b'x'), position: 2 });
    assert_eq!(failure("}"), JsonError { kind: ErrorKind::UnexpectedToken(b'}'), position: 0 });
    assert_eq!(failure("\0"), JsonError { kind: ErrorKind::UnexpectedToken(0), position: 0 });
}

#[test]
fn carriage_return_is_no_space() {
    assert_eq!(failure("\r\n1"), JsonError { kind: ErrorKind::UnexpectedToken(b'\r'), position: 0 });
    assert_eq!(read("\n\t 1"), (Ok(number(false, &[1])), 4));
}

#[test]
fn plus_sign_is_read_and_ignored() {
    let (result, cursor) = read("+7");
    let tree = result.unwrap();
    assert_eq!(tree, number(false, &[7]));
    assert_eq!(as_float(&tree), 7.0f32);
    assert_eq!(cursor, 2);
}

#[test]
fn sign_without_digits_is_zero() {
    assert_eq!(read("-"), (Ok(number(true, &[])), 1));
    assert_eq!(read("+"), (Ok(number(false, &[])), 1));
    assert_eq!(read("-+1"), (Ok(number(true, &[])), 1));
    assert_eq!(as_float(&number(true, &[])), 0.0f32);
}

#[test]
fn leading_zeros_are_digits_like_others() {
    let (result, cursor) = read("007");
    let tree = result.unwrap();
    assert_eq!(tree, number(false, &[0, 0, 7]));
    assert_eq!(as_float(&tree), 7.0f32);
    assert_eq!(cursor, 3);
}

#[test]
fn long_numeral_keeps_every_digit() {
    let text = "123456789012345678901234567890";
    let (result, cursor) = read(text);
    let digits: Vec<u8> = text.bytes().map(|b| b - b'0').collect();
    assert_eq!(result, Ok(number(false, &digits)));
    assert_eq!(cursor, 30);
}

#[test]
fn string_is_the_text_between_the_quotes() {
    assert_eq!(read("\"hello\""), (Ok(string("hello")), 7));
    assert_eq!(read("\"\""), (Ok(string("")), 2));
    assert_eq!(read("\"a b\tc\""), (Ok(string("a b\tc")), 7));
}

#[test]
fn string_keeps_characters_of_several_bytes() {
    let text = "\"h\u{e9}llo \u{4e16}\u{754c} \u{1f600}\"";
    assert_eq!(read(text), (Ok(string("h\u{e9}llo \u{4e16}\u{754c} \u{1f600}")), text.len()));
}

#[test]
fn backslash_escapes_nothing() {
    assert_eq!(read("\"a\\\"b\""), (Ok(string("a\\")), 4));
    assert_eq!(read("\"a\\nb\""), (Ok(string("a\\nb")), 6));
}

#[test]
fn nested_document() {
    let text = "{\"a\": [1, {\"b\": null}], \"c\": \"x\"}";
    let (result, cursor) = read(text);
    assert_eq!(
        result,
        Ok(JsonObject::Object(vec![
            (
                "a".to_string(),
                JsonObject::Array(vec![
                    number(false, &[1]),
                    JsonObject::Object(vec![("b".to_string(), JsonObject::Null)]),
                ])
            ),
            ("c".to_string(), string("x")),
        ]))
    );
    assert_eq!(cursor, text.len());
}

#[test]
fn spaces_stand_in_front_of_values_and_keys_only() {
    assert_eq!(
        read("[ 1,\n\t2]"),
        (Ok(JsonObject::Array(vec![number(false, &[1]), number(false, &[2])])), 8)
    );
    assert_eq!(
        read("{ \"a\": 1}"),
        (Ok(JsonObject::Object(vec![("a".to_string(), number(false, &[1]))])), 9)
    );
    assert_eq!(failure("[1 ]"), JsonError { kind: ErrorKind::UnexpectedEnd, position: 2 });
    assert_eq!(failure("[1 ,2]"), JsonError { kind: ErrorKind::UnexpectedEnd, position: 2 });
    assert_eq!(
        failure("{\"a\" :1}"),
        JsonError { kind: ErrorKind::ExpectedDelimiter(b':'), position: 4 }
    );
    assert_eq!(
        failure("{\"a\":1 }"),
        JsonError { kind: ErrorKind::ExpectedDelimiter(b'}'), position: 6 }
    );
}

#[test]
fn brace_behind_spaces_is_taken_for_a_key() {
    assert_eq!(
        failure("{ }"),
        JsonError { kind: ErrorKind::ExpectedDelimiter(b'"'), position: 2 }
    );
    assert_eq!(
        failure("{\"a\":1, }"),
        JsonError { kind: ErrorKind::ExpectedDelimiter(b'"'), position: 8 }
    );
}

#[test]
fn comma_right_in_front_of_the_closing_brace_is_passed() {
    assert_eq!(
        read("{\"a\":1,}"),
        (Ok(JsonObject::Object(vec![("a".to_string(), number(false, &[1]))])), 8)
    );
}

#[test]
fn object_failures() {
    assert_eq!(
        failure("{\"a\" 1}"),
        JsonError { kind: ErrorKind::ExpectedDelimiter(b':'), position: 4 }
    );
    assert_eq!(
        failure("{\"a\":1"),
        JsonError { kind: ErrorKind::ExpectedDelimiter(b'}'), position: 6 }
    );
    assert_eq!(
        failure("{\"a\":1 \"b\":2}"),
        JsonError { kind: ErrorKind::ExpectedDelimiter(b'}'), position: 6 }
    );
    assert_eq!(failure("{a:1}"), JsonError { kind: ErrorKind::ExpectedDelimiter(b'"'), position: 1 });
    assert_eq!(failure("{\"a\":}"), JsonError { kind: ErrorKind::UnexpectedToken(b'}'), position: 5 });
    assert_eq!(failure("{\"a\":"), JsonError { kind: ErrorKind::EndOfInput, position: 5 });
    assert_eq!(
        failure("{\"a"),
        JsonError { kind: ErrorKind::ExpectedDelimiter(b'"'), position: 3 }
    );
    assert_eq!(failure("{"), JsonError { kind: ErrorKind::ExpectedDelimiter(b'}'), position: 1 });
}

#[test]
fn array_failures() {
    assert_eq!(failure("["), JsonError { kind: ErrorKind::ExpectedDelimiter(b']'), position: 1 });
    assert_eq!(failure("[1,"), JsonError { kind: ErrorKind::ExpectedDelimiter(b']'), position: 3 });
    assert_eq!(failure("[1"), JsonError { kind: ErrorKind::UnexpectedEnd, position: 2 });
    assert_eq!(failure("[1 2]"), JsonError { kind: ErrorKind::UnexpectedEnd, position: 2 });
    assert_eq!(failure("[1,,2]"), JsonError { kind: ErrorKind::UnexpectedToken(b','), position: 3 });
    assert_eq!(failure("[1, "), JsonError { kind: ErrorKind::EndOfInput, position: 4 });
}

#[test]
fn what_follows_a_value_is_left_unread() {
    assert_eq!(read("[1]5"), (Ok(JsonObject::Array(vec![number(false, &[1])])), 3));
    assert_eq!(read("null null"), (Ok(JsonObject::Null), 4));
    assert_eq!(read("12 "), (Ok(number(false, &[1, 2])), 2));
}

#[test]
fn second_parse_goes_on_behind_the_first() {
    let mut parser = JsonParser::new("true false".to_string());
    assert_eq!(parser.parse(), Ok(JsonObject::Boolean(true)));
    assert_eq!(parser.cursor(), 4);
    assert_eq!(parser.parse(), Ok(JsonObject::Boolean(false)));
    assert_eq!(parser.cursor(), 10);
    assert_eq!(parser.parse(), Err(JsonError { kind: ErrorKind::EndOfInput, position: 10 }));
}

#[test]
fn supported_document_is_read_as_it_is_built() {
    let text = " {\"name\": \"caf\u{e9}\",\n\t\"sizes\": [ 1, +2,-3, [true, false]],\"none\":null}";
    let expected = JsonObject::Object(vec![
        ("name".to_string(), string("caf\u{e9}")),
        (
            "sizes".to_string(),
            JsonObject::Array(vec![
                number(false, &[1]),
                number(false, &[2]),
                number(true, &[3]),
                JsonObject::Array(vec![JsonObject::Boolean(true), JsonObject::Boolean(false)]),
            ]),
        ),
        ("none".to_string(), JsonObject::Null),
    ]);
    assert_eq!(read(text), (Ok(expected), text.len()));
}

#[test]
fn written_tree_is_read_back() {
    let tree = JsonObject::Object(vec![
        ("k".to_string(), JsonObject::Array(vec![number(true, &[4, 0]), string("s p")])),
        ("".to_string(), JsonObject::Object(vec![])),
        ("t".to_string(), JsonObject::Boolean(false)),
        ("n".to_string(), JsonObject::Null),
    ]);
    let text = write(&tree);
    assert_eq!(text, "{\"k\":[-40,\"s p\"],\"\":{},\"t\":false,\"n\":null}");
    assert_eq!(read(&text), (Ok(tree), text.len()));
}

#[test]
fn parsed_tree_written_and_read_again_is_equal() {
    let (first, _) = read("[ {\"a\": [\"x\", -0, 12]}, true, null]");
    let first = first.unwrap();
    let (second, _) = read(&write(&first));
    assert_eq!(second, Ok(first));
}
