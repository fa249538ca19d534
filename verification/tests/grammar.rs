use message_parser::matchers::is_unquoted;
use message_parser::value::Value::{Array, Dict, Str};
use message_parser::value::{find_last, put_entry, same_text};
use message_parser::{
    parse_array, parse_digits, parse_key, parse_key_value, parse_map, parse_message, parse_pair,
    parse_string, parse_value, tag_basic, NoMatch, Value,
};

#[test]
fn tag_fails_in_place() {
    assert_eq!(tag_basic("ab"), Err(NoMatch { rest: "ab" }));
    assert_eq!(tag_basic(""), Err(NoMatch { rest: "" }));
    assert_eq!(tag_basic("xabc"), Err(NoMatch { rest: "xabc" }));
    assert_eq!(tag_basic("abc"), Ok(("", "abc")));
}

#[test]
fn digits_need_one_digit() {
    assert_eq!(parse_digits("abc"), Err(NoMatch { rest: "abc" }));
    assert_eq!(parse_digits(""), Err(NoMatch { rest: "" }));
    assert_eq!(parse_digits("7"), Ok(("", "7")));
    assert_eq!(parse_digits("0123456789x"), Ok(("x", "0123456789")));
    // only the ASCII digits count
    assert_eq!(parse_digits("٣4"), Err(NoMatch { rest: "٣4" }));
}

#[test]
fn key_stops_before_first_equals() {
    assert_eq!(parse_key("a=b=c"), Ok(("=b=c", "a")));
    assert_eq!(parse_key("=x"), Ok(("=x", "")));
    assert_eq!(parse_key("ké y=1"), Ok(("=1", "ké y")));
    assert_eq!(parse_key("no equals"), Err(NoMatch { rest: "no equals" }));
    assert_eq!(parse_key(""), Err(NoMatch { rest: "" }));
}

#[test]
fn unquoted_is_every_character_but_the_quote() {
    assert!(is_unquoted('a'));
    assert!(is_unquoted(' '));
    assert!(is_unquoted('\''));
    assert!(!is_unquoted('"'));
}

#[test]
fn string_rejects_unterminated_and_empty() {
    assert_eq!(parse_string("\"abc"), Err(NoMatch { rest: "" }));
    assert_eq!(parse_string("\"\""), Err(NoMatch { rest: "\"" }));
    assert_eq!(parse_string("\"\"x"), Err(NoMatch { rest: "\"x" }));
    assert_eq!(parse_string("\""), Err(NoMatch { rest: "" }));
    assert_eq!(parse_string(""), Err(NoMatch { rest: "" }));
    assert_eq!(parse_string("abc\""), Err(NoMatch { rest: "abc\"" }));
}

#[test]
fn string_borrows_between_the_quotes() {
    let input = "\"a b\t[c]{d}=é\" tail";
    let (rest, value) = parse_string(input).unwrap();
    assert_eq!(rest, " tail");
    assert_eq!(value, Str("a b\t[c]{d}=é"));
    match value {
        Str(text) => {
            let start = text.as_ptr() as usize - input.as_ptr() as usize;
            assert_eq!(start, 1);
        }
        _ => panic!("a string was expected"),
    }
}

#[test]
fn array_may_be_empty() {
    assert_eq!(parse_array("[]"), Ok(("", Array(vec![]))));
    assert_eq!(parse_array("[]]"), Ok(("]", Array(vec![]))));
}

#[test]
fn array_nests_deeply() {
    assert_eq!(
        parse_array(r#"["a" ["b" ["c"]]]"#),
        Ok(("", Array(vec![Str("a"), Array(vec![Str("b"), Array(vec![Str("c")])])])))
    );
    assert_eq!(
        parse_array("[[[[[]]]]]"),
        Ok(("", Array(vec![Array(vec![Array(vec![Array(vec![Array(vec![])])])])])))
    );
}

#[test]
fn array_separator_is_exactly_one_space() {
    assert_eq!(parse_array("[\"a\"  \"b\"]"), Err(NoMatch { rest: "  \"b\"]" }));
    assert_eq!(parse_array("[\"a\"\t\"b\"]"), Err(NoMatch { rest: "\t\"b\"]" }));
    assert_eq!(parse_array("[\"a\"\"b\"]"), Err(NoMatch { rest: "\"b\"]" }));
    assert_eq!(parse_array("[ \"a\"]"), Err(NoMatch { rest: " \"a\"]" }));
    assert_eq!(parse_array("[\"a\" ]"), Err(NoMatch { rest: " ]" }));
}

#[test]
fn array_fails_without_brackets() {
    assert_eq!(parse_array("\"a\"]"), Err(NoMatch { rest: "\"a\"]" }));
    assert_eq!(parse_array("[\"a\""), Err(NoMatch { rest: "" }));
    assert_eq!(parse_array(""), Err(NoMatch { rest: "" }));
}

#[test]
fn array_element_is_no_map() {
    assert_eq!(parse_array("[{a=\"1\"}]"), Err(NoMatch { rest: "{a=\"1\"}]" }));
    assert_eq!(parse_array("[\"x\" {a=\"1\"}]"), Err(NoMatch { rest: " {a=\"1\"}]" }));
}

#[test]
fn value_tries_string_array_map() {
    assert_eq!(parse_value("\"s\"!"), Ok(("!", Str("s"))));
    assert_eq!(parse_value("[\"s\"]!"), Ok(("!", Array(vec![Str("s")]))));
    assert_eq!(parse_value("{k=\"s\"}!"), Ok(("!", Dict(vec![("k", Str("s"))]))));
}

#[test]
fn value_fails_as_its_last_alternative() {
    assert_eq!(parse_value("x"), Err(NoMatch { rest: "x" }));
    assert_eq!(parse_value(""), Err(NoMatch { rest: "" }));
    // the string and the array fail further on, the map fails at the start
    assert_eq!(parse_value("\"abc"), Err(NoMatch { rest: "\"abc" }));
    assert_eq!(parse_value("[\"a\""), Err(NoMatch { rest: "[\"a\"" }));
    assert_eq!(parse_value("{a=\"1\""), Err(NoMatch { rest: "" }));
}

#[test]
fn message_with_string_and_array() {
    let (rest, value) = parse_message(r#"{bar="baz" nest=["a" "b"]}"#).unwrap();
    assert_eq!(rest, "");
    assert_eq!(value, Dict(vec![("bar", Str("baz")), ("nest", Array(vec![Str("a"), Str("b")]))]));
    assert_eq!(value.get("bar"), Some(&Str("baz")));
    assert_eq!(value.get("nest"), Some(&Array(vec![Str("a"), Str("b")])));
    assert_eq!(value.get("ba"), None);
}

#[test]
fn message_last_write_wins() {
    let (rest, value) = parse_message(r#"{a="1"a="2"}"#).unwrap();
    assert_eq!(rest, "");
    assert_eq!(value, Dict(vec![("a", Str("2"))]));
    assert_eq!(value.get("a"), Some(&Str("2")));
    match value {
        Dict(entries) => assert_eq!(entries.len(), 1),
        _ => panic!("a map was expected"),
    }
}

#[test]
fn message_keys_are_the_keys_present() {
    let (rest, value) = parse_message("{a=\"1\" b=\"2\"\n\ta=\"3\"c=[] b=\"4\"}rest").unwrap();
    assert_eq!(rest, "rest");
    match &value {
        Dict(entries) => {
            let keys: Vec<&str> = entries.iter().map(|e| e.0).collect();
            assert_eq!(keys, vec!["a", "b", "c"]);
        }
        _ => panic!("a map was expected"),
    }
    assert_eq!(value.get("a"), Some(&Str("3")));
    assert_eq!(value.get("b"), Some(&Str("4")));
    assert_eq!(value.get("c"), Some(&Array(vec![])));
    assert_eq!(value.get("d"), None);
}

#[test]
fn message_leaves_what_follows_the_brace() {
    assert_eq!(parse_message("{}"), Ok(("", Dict(vec![]))));
    assert_eq!(parse_message("{}{}"), Ok(("{}", Dict(vec![]))));
    assert_eq!(parse_message("{a=\"1\"} and more"), Ok((" and more", Dict(vec![("a", Str("1"))]))));
}

#[test]
fn message_needs_its_braces() {
    assert_eq!(parse_message(""), Err(NoMatch { rest: "" }));
    assert_eq!(parse_message("a=\"1\"}"), Err(NoMatch { rest: "a=\"1\"}" }));
    assert_eq!(parse_message(" {}"), Err(NoMatch { rest: " {}" }));
    assert_eq!(parse_message("{a=\"1\""), Err(NoMatch { rest: "" }));
    assert_eq!(parse_message("{a=\"1\"]"), Err(NoMatch { rest: "]" }));
}

#[test]
fn message_whitespace_only_between_pairs() {
    // whitespace before the closing brace is no separator
    assert_eq!(parse_message("{a=\"1\" }"), Err(NoMatch { rest: " }" }));
    // whitespace behind the opening brace belongs to the key
    assert_eq!(parse_message("{ a=\"1\"}"), Ok(("", Dict(vec![(" a", Str("1"))]))));
    assert_eq!(
        parse_message("{a=\"1\" \t\r\n b=\"2\"}"),
        Ok(("", Dict(vec![("a", Str("1")), ("b", Str("2"))])))
    );
}

#[test]
fn message_nests_maps_in_values() {
    let (rest, value) = parse_message("{e=[\"f\"] a={b={c=\"d\"}}}").unwrap();
    assert_eq!(rest, "");
    let inner = Dict(vec![("b", Dict(vec![("c", Str("d"))]))]);
    assert_eq!(value, Dict(vec![("a", inner), ("e", Array(vec![Str("f")]))]));
    let a = value.get("a").unwrap();
    let b = a.get("b").unwrap();
    assert_eq!(b.get("c"), Some(&Str("d")));
}

#[test]
fn key_runs_over_a_closing_brace() {
    // behind the inner pair the text up to the next `=` is one more key
    assert_eq!(
        parse_map("{b=\"c\"} d=\"e\"}"),
        Ok(("", Dict(vec![("b", Str("c")), ("} d", Str("e"))])))
    );
    // so the inner map takes the last brace, and the outer one finds none
    assert_eq!(parse_message("{a={b=\"c\"} d=\"e\"}"), Err(NoMatch { rest: "" }));
    assert_eq!(
        parse_message("{a={b={c=\"d\"}} e=[\"f\"]}"),
        Err(NoMatch { rest: "a={b={c=\"d\"}} e=[\"f\"]}" })
    );
}

#[test]
fn map_is_the_message_production() {
    let input = "{x=\"1\" y=[\"2\"]}z";
    assert_eq!(parse_map(input), parse_message(input));
    assert_eq!(parse_map("x"), Err(NoMatch { rest: "x" }));
}

#[test]
fn pair_is_key_equals_value() {
    assert_eq!(parse_pair("k=\"v\" more"), Ok((" more", ("k", Str("v")))));
    assert_eq!(parse_pair("k=[]"), Ok(("", ("k", Array(vec![])))));
    assert_eq!(parse_pair("=\"v\""), Ok(("", ("", Str("v")))));
    assert_eq!(parse_pair("k"), Err(NoMatch { rest: "k" }));
    assert_eq!(parse_pair("k=v"), Err(NoMatch { rest: "v" }));
    assert_eq!(parse_pair("k="), Err(NoMatch { rest: "" }));
}

#[test]
fn pairs_never_fail() {
    assert_eq!(parse_key_value(""), Ok(("", vec![])));
    assert_eq!(parse_key_value("}"), Ok(("}", vec![])));
    assert_eq!(parse_key_value("a=\"1\"  b"), Ok(("  b", vec![("a", Str("1"))])));
    assert_eq!(parse_key_value("a=\"1\"b=\"2\"a=[]"), Ok(("", vec![("a", Array(vec![])), ("b", Str("2"))])));
}

#[test]
fn put_entry_replaces_or_appends() {
    let mut entries: Vec<(&str, Value)> = Vec::new();
    put_entry(&mut entries, "a", Str("1"));
    put_entry(&mut entries, "b", Str("2"));
    assert_eq!(entries, vec![("a", Str("1")), ("b", Str("2"))]);
    put_entry(&mut entries, "a", Str("3"));
    assert_eq!(entries, vec![("a", Str("3")), ("b", Str("2"))]);
}

#[test]
fn find_last_gives_the_last_index() {
    let entries = vec![("a", Str("1")), ("b", Str("2")), ("a", Str("3"))];
    assert_eq!(find_last(&entries, "a"), Some(2));
    assert_eq!(find_last(&entries, "b"), Some(1));
    assert_eq!(find_last(&entries, "c"), None);
    assert_eq!(find_last(&Vec::new(), "a"), None);
}

#[test]
fn get_reads_the_last_entry_of_a_key() {
    let value = Dict(vec![("a", Str("1")), ("b", Str("2")), ("a", Str("3"))]);
    assert_eq!(value.get("a"), Some(&Str("3")));
    assert_eq!(value.get("b"), Some(&Str("2")));
    assert_eq!(Str("a").get("a"), None);
    assert_eq!(Array(vec![Str("a")]).get("a"), None);
}

#[test]
fn same_text_compares_characters() {
    assert!(same_text("", ""));
    assert!(same_text("héllo", "héllo"));
    assert!(!same_text("hello", "hellp"));
    assert!(!same_text("hello", "hell"));
    assert!(!same_text("", "a"));
}

#[test]
fn equality_ignores_the_order_of_entries() {
    let one = Dict(vec![("a", Str("1")), ("b", Array(vec![Str("2")]))]);
    let two = Dict(vec![("b", Array(vec![Str("2")])), ("a", Str("1"))]);
    assert!(one.same(&two));
    assert_eq!(one, two);
    let three = Dict(vec![("a", Str("0")), ("b", Array(vec![Str("2")])), ("a", Str("1"))]);
    assert_eq!(one, three);
    assert_eq!(three, one);
}

#[test]
fn equality_tells_values_apart() {
    assert_ne!(Str("a"), Str("b"));
    assert_ne!(Str("a"), Array(vec![Str("a")]));
    assert_ne!(Array(vec![]), Dict(vec![]));
    assert_ne!(Array(vec![Str("a"), Str("b")]), Array(vec![Str("b"), Str("a")]));
    assert_ne!(Array(vec![Str("a")]), Array(vec![Str("a"), Str("a")]));
    assert_ne!(Dict(vec![("a", Str("1"))]), Dict(vec![("a", Str("2"))]));
    assert_ne!(Dict(vec![("a", Str("1"))]), Dict(vec![("b", Str("1"))]));
    assert_ne!(Dict(vec![("a", Str("1"))]), Dict(vec![("a", Str("1")), ("b", Str("1"))]));
    assert_ne!(Dict(vec![("a", Str("1")), ("b", Str("1"))]), Dict(vec![("a", Str("1"))]));
}

#[test]
fn parsing_again_gives_the_same_value() {
    let input = "{k=[\"a\" [\"b\"]] m={n=\"o\"}}";
    let first = parse_message(input).unwrap();
    let second = parse_message(input).unwrap();
    assert_eq!(first, second);
}
