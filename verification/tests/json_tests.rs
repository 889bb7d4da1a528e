use json_ast::json;
use json_ast::ast::JsonError;
use json_ast::ast::JsonExpression;

fn num(e: &JsonExpression) -> f64 {
    match e {
        JsonExpression::Number(w) => w.parse::<f64>().unwrap(),
        _ => panic!("expected a number"),
    }
}

#[test]
fn empty_object() {
    let expr = json(String::from("{}")).unwrap();
    assert_eq!(expr, JsonExpression::Object(vec![]));
}

#[test]
fn empty_array() {
    let expr = json(String::from("[]")).unwrap();
    assert_eq!(expr, JsonExpression::Array(vec![]));
}

#[test]
fn object() {
    let expr = json(String::from(
        "
        {
            \"one\": 1,
            \"two\": 2.0
        }
        ",
    ))
    .unwrap();
    match expr {
        JsonExpression::Object(members) => {
            assert_eq!(members.len(), 2);
            assert_eq!(members[0].0, "one");
            assert_eq!(num(&members[0].1), 1.0);
            assert_eq!(members[1].0, "two");
            assert_eq!(num(&members[1].1), 2.0);
        },
        _ => panic!("expected an object"),
    }
}

#[test]
fn object_keeps_key_order() {
    let expr = json(String::from("{\"a\":1,\"b\":2.0}")).unwrap();
    match expr {
        JsonExpression::Object(members) => {
            assert_eq!(members.len(), 2);
            assert_eq!(members[0].0, "a");
            assert_eq!(num(&members[0].1), 1.0);
            assert_eq!(members[1].0, "b");
            assert_eq!(num(&members[1].1), 2.0);
        },
        _ => panic!("expected an object"),
    }
}

#[test]
fn object_keeps_duplicate_keys() {
    let expr = json(String::from("{\"a\":1,\"a\":2}")).unwrap();
    match expr {
        JsonExpression::Object(members) => {
            assert_eq!(members.len(), 2);
            assert_eq!(members[0].0, "a");
            assert_eq!(num(&members[0].1), 1.0);
            assert_eq!(members[1].0, "a");
            assert_eq!(num(&members[1].1), 2.0);
        },
        _ => panic!("expected an object"),
    }
}

#[test]
fn array_of_numbers() {
    let expr = json(String::from("[1,2,3]")).unwrap();
    match expr {
        JsonExpression::Array(elements) => {
            assert_eq!(elements.len(), 3);
            assert_eq!(num(&elements[0]), 1.0);
            assert_eq!(num(&elements[1]), 2.0);
            assert_eq!(num(&elements[2]), 3.0);
        },
        _ => panic!("expected an array"),
    }
}

#[test]
fn trailing_comma_is_a_syntax_error() {
    let err = json(String::from("[1,]")).unwrap_err();
    assert_eq!(err, JsonError::SyntaxError);
}

#[test]
fn bare_top_level_number_is_a_syntax_error() {
    let err = json(String::from("42")).unwrap_err();
    assert_eq!(err, JsonError::SyntaxError);
}

#[test]
fn string_escapes_are_kept_verbatim() {
    let expr = json(String::from("{\"k\": \"a\\\"b\"}")).unwrap();
    match expr {
        JsonExpression::Object(members) => {
            assert_eq!(members.len(), 1);
            assert_eq!(members[0].0, "k");
            match &members[0].1 {
                JsonExpression::String(s) => assert_eq!(s, "a\\\"b"),
                _ => panic!("expected a string"),
            }
        },
        _ => panic!("expected an object"),
    }
}

#[test]
fn missing_closing_bracket_is_end_of_input() {
    let err = json(String::from("[1, 2")).unwrap_err();
    assert_eq!(err, JsonError::UnexpectedEndOfInput);
}

#[test]
fn missing_closing_brace_is_end_of_input() {
    let err = json(String::from("{\"a\": 1")).unwrap_err();
    assert_eq!(err, JsonError::UnexpectedEndOfInput);
}

#[test]
fn bareword_that_is_no_number_is_rejected() {
    let err = json(String::from("[true]")).unwrap_err();
    assert_eq!(err, JsonError::NumberFormatError);
}

#[test]
fn two_dots_are_no_number() {
    let err = json(String::from("[1.2.3]")).unwrap_err();
    assert_eq!(err, JsonError::NumberFormatError);
}

#[test]
fn float_keywords_and_exponents_are_numbers() {
    let expr = json(String::from("[nan,inf,-2.5e-3,+Infinity,1e5,.5,7.]")).unwrap();
    match expr {
        JsonExpression::Array(elements) => {
            assert_eq!(elements.len(), 7);
            assert!(num(&elements[0]).is_nan());
            assert_eq!(num(&elements[1]), f64::INFINITY);
            assert_eq!(num(&elements[2]), -2.5e-3);
            assert_eq!(num(&elements[3]), f64::INFINITY);
            assert_eq!(num(&elements[4]), 1e5);
            assert_eq!(num(&elements[5]), 0.5);
            assert_eq!(num(&elements[6]), 7.0);
        },
        _ => panic!("expected an array"),
    }
}

#[test]
fn unterminated_string_is_reported() {
    let err = json(String::from("{\"a")).unwrap_err();
    assert_eq!(err, JsonError::UnterminatedString);
}

#[test]
fn trailing_backslash_is_an_unterminated_string() {
    let err = json(String::from("[\"a\\")).unwrap_err();
    assert_eq!(err, JsonError::UnterminatedString);
}

#[test]
fn nested_structures_parse() {
    let expr = json(String::from("{\"a\":[1,{\"b\":[]}],\"c\":{}}")).unwrap();
    match expr {
        JsonExpression::Object(members) => {
            assert_eq!(members.len(), 2);
            assert_eq!(members[0].0, "a");
            match &members[0].1 {
                JsonExpression::Array(elements) => {
                    assert_eq!(elements.len(), 2);
                    assert_eq!(num(&elements[0]), 1.0);
                },
                _ => panic!("expected an array"),
            }
            assert_eq!(members[1].1, JsonExpression::Object(vec![]));
        },
        _ => panic!("expected an object"),
    }
}

#[test]
fn missing_colon_is_a_syntax_error() {
    let err = json(String::from("{\"a\" 1}")).unwrap_err();
    assert_eq!(err, JsonError::SyntaxError);
}

#[test]
fn non_string_key_is_a_syntax_error() {
    let err = json(String::from("{1: 2}")).unwrap_err();
    assert_eq!(err, JsonError::SyntaxError);
}

#[test]
fn parsing_twice_gives_equal_trees() {
    let source = "{\"a\":[1,2.5],\"b\":\"x\\\"y\"}";
    let first = json(String::from(source)).unwrap();
    let second = json(String::from(source)).unwrap();
    assert_eq!(first, second);
}

#[test]
fn number_acceptance_matches_the_float_parse() {
    let candidates = [
        "1", "2.0", "-3", ".5", "7.", "1e5", "2.5E-3", "+inf", "inf", "nan", "NaN", "NAN",
        "INFINITY", "Infinity", "-infinity", "iNfInItY", "1e+5", "1E05", "-.5", "+1.25e-07",
        "1.2.3", "true", "false", "null", "1e", "e5", "+", "-", ".", "abc", "1e5e5", "--1",
        "+-1", "1.-5", "infinit", "infinityy", "1.e5", ".e5", "5.e", "0x10", "1_000",
    ];
    for w in candidates {
        let accepted = json(format!("[{}]", w)).is_ok();
        let parses = w.parse::<f64>().is_ok();
        assert_eq!(accepted, parses, "disagreement on {:?}", w);
    }
}
