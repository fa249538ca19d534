use message_parser::value::Value::{Array, Dict, Str};
use message_parser::{
    parse_array, parse_digits, parse_key, parse_string, parse_value, tag_basic, zap, Value,
};

#[test]
fn test_tag_basic_success() {
    let result = tag_basic("abc123");
    assert_eq!(result, Ok(("123", "abc")));
}

#[test]
fn test_tag_basic_failure() {
    let result = tag_basic("xyz");
    assert!(result.is_err());
}

#[test]
fn test_parse_digits() {
    assert_eq!(parse_digits("123abc"), Ok(("abc", "123")));
    assert_eq!(parse_digits("151.241"), Ok((".241", "151")));
}

#[test]
fn test_parse_string() {
    let result = parse_string("xyz");
    assert!(result.is_err());
    let result = parse_string("\"xyz\"");
    assert_eq!(result, Ok(("", Str("xyz"))));
    let result = parse_string("\"fizzbuzz\"zpzp");
    assert_eq!(result, Ok(("zpzp", Str("fizzbuzz"))));
}

#[test]
fn test_parse_array() {
    let result = parse_array("[\"abc\" \"abc\" \"abc\"]");
    assert_eq!(result, Ok(("", Array(vec![Str("abc"), Str("abc"), Str("abc")]))));
    let result = parse_array("[\"abc\" \"beeep\" \"foo\"]");
    assert_eq!(result, Ok(("", Array(vec![Str("abc"), Str("beeep"), Str("foo")]))));
    let result = parse_array("[\"abc\" \"beeep\" [\"wee\"] \"foo\"]");
    assert_eq!(
        result,
        Ok(("", Array(vec![Str("abc"), Str("beeep"), Array(vec![Str("wee")]), Str("foo")])))
    );

    let result = parse_array(r#"["abc" "beeep" ["fuzz" ["wee" "smat"] "food"] "foo"]"#);
    assert_eq!(
        result,
        Ok((
            "",
            Value::Array(vec![
                Value::Str("abc"),
                Value::Str("beeep"),
                Value::Array(vec![
                    Value::Str("fuzz"),
                    Value::Array(vec![Value::Str("wee"), Value::Str("smat")]),
                    Value::Str("food"),
                ]),
                Value::Str("foo")
            ])
        ))
    );
}

#[test]
fn test_parse_key() {
    // a key is everything before the `=`, the space included
    let input = "myKey = \"value\"";
    let (rest, key) = parse_key(input).unwrap();
    assert_eq!(key, "myKey ");
    assert!(key.starts_with("myKey"));
    assert!(input.ends_with(rest));
    assert_eq!(rest, "= \"value\"");
    assert!(!rest.starts_with(" = \"value\""));
}

#[test]
fn test_parse_value() {
    let input = r#""hello""#;
    let (rest, value) = parse_value(input).unwrap();
    assert_eq!(value, Str("hello"));
    assert_eq!(rest, "");

    let input = r#"["a" "b" "c"]"#;
    let (rest, value) = parse_value(input).unwrap();
    assert_eq!(value, Array(vec![Str("a"), Str("b"), Str("c")]));
    assert_eq!(rest, "");

    // the quotes round the first key belong to the key
    let input = r#"{"bar"="baz" nest=["a" "b"]}"#;
    let (rest, value) = parse_value(input).unwrap();
    assert_eq!(rest, "");
    assert_eq!(
        value,
        Dict(vec![("\"bar\"", Str("baz")), ("nest", Array(vec![Str("a"), Str("b")]))])
    );
    assert!(value.get("bar").is_none());
    assert_eq!(value.get("\"bar\""), Some(&Str("baz")));
}

#[test]
fn test_trivial() {
    assert_eq!(zap(), 1)
}
