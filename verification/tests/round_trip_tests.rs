use json_ast::json;
use json_ast::ast::JsonExpression;
use json_ast::ser::serialize;
use json_ast::lexer::is_delim;

#[test]
fn serialize_keeps_number_text() {
    let expr = json(String::from("[1,2,3]")).unwrap();
    assert_eq!(serialize(&expr), "[1,2,3]");
}

#[test]
fn serialize_empty_object_and_array() {
    assert_eq!(serialize(&JsonExpression::Object(vec![])), "{}");
    assert_eq!(serialize(&JsonExpression::Array(vec![])), "[]");
}

#[test]
fn serialize_object_with_members() {
    let expr = json(String::from("{ \"a\" : 1 , \"b\" : [2.0, \"x\"] }")).unwrap();
    assert_eq!(serialize(&expr), "{\"a\":1,\"b\":[2.0,\"x\"]}");
}

#[test]
fn round_trip_gives_the_same_tree() {
    let source = "{\"a\": [1, 2.5e0, {\"inner\": \"x\\\"y\"}], \"a\": {}, \"c\": [[]]}";
    let first = json(String::from(source)).unwrap();
    let text = serialize(&first);
    let second = json(text).unwrap();
    assert_eq!(first, second);
}

#[test]
fn round_trip_is_a_fixed_point_of_serialization() {
    let source = "[ {\"k\": \"a\\\\b\"}, 3.25, \"\" ]";
    let first = json(String::from(source)).unwrap();
    let text = serialize(&first);
    let second = json(text.clone()).unwrap();
    assert_eq!(serialize(&second), text);
    assert_eq!(first, second);
}

#[test]
fn delimiters_are_exactly_punctuation_and_whitespace() {
    for c in [',', '{', '}', '[', ']', ':', ' ', '\n', '\t', '\r'] {
        assert!(is_delim(c));
    }
    for c in ['a', '1', '.', '-', '+', 'e', '"', '\\'] {
        assert!(!is_delim(c));
    }
}
