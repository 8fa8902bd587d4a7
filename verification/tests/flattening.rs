use json2kv::convert::render;
use json2kv::entries::KeyValues;
use json2kv::error::{ConvertError, Place};
use json2kv::flatten::{flatten, flatten_at, flatten_json};
use json2kv::json::Json;
use json2kv::order::{compare_keys, KeyOrder};
use json2kv::parse::parse;
use json2kv::path::{decimal_text, join_path};

fn text(s: &str) -> Json {
    Json::Text(s.to_string())
}

fn number(s: &str) -> Json {
    Json::Number(s.to_string())
}

fn member(name: &str, value: Json) -> (String, Json) {
    (name.to_string(), value)
}

fn pairs(output: &KeyValues) -> Vec<(String, String)> {
    let mut all = Vec::new();
    for i in 0..output.len() {
        all.push((output.key(i).to_string(), output.value(i).to_string()));
    }
    all
}

fn pair(key: &str, value: &str) -> (String, String) {
    (key.to_string(), value.to_string())
}

#[test]
fn leaves_are_put_under_their_paths() {
    let document = Json::Object(vec![
        member("name", text("Alice")),
        member("age", number("30")),
        member("tags", Json::Array(vec![text("x"), Json::Null, Json::Bool(false)])),
        member("home", Json::Object(vec![member("zip code", number("1.5e3"))])),
    ]);
    let output = flatten(&document).unwrap();
    assert_eq!(
        pairs(&output),
        vec![
            pair("age", "30"),
            pair("home.zip-code", "1.5e3"),
            pair("name", "Alice"),
            pair("tags.0", "x"),
            pair("tags.1", "null"),
            pair("tags.2", "false"),
        ]
    );
}

#[test]
fn prefix_is_put_before_every_path() {
    let mut output = KeyValues::new();
    let document = Json::Array(vec![Json::Bool(true), Json::Object(vec![member("a", Json::Null)])]);
    assert_eq!(flatten_json(&document, "root".to_string(), &mut output), Ok(()));
    assert_eq!(pairs(&output), vec![pair("root.0", "true"), pair("root.1.a", "null")]);
}

#[test]
fn scalar_is_put_under_the_prefix_itself() {
    let mut output = KeyValues::new();
    assert_eq!(flatten_json(&number("7"), "n".to_string(), &mut output), Ok(()));
    assert_eq!(flatten_json(&Json::Bool(true), String::new(), &mut output), Ok(()));
    assert_eq!(pairs(&output), vec![pair("", "true"), pair("n", "7")]);
}

#[test]
fn entries_already_there_are_kept_or_replaced() {
    let mut output = KeyValues::new();
    output.insert("a".to_string(), "old".to_string());
    output.insert("z".to_string(), "kept".to_string());
    let document = Json::Object(vec![member("a", text("new")), member("b", text("more"))]);
    assert_eq!(flatten_json(&document, String::new(), &mut output), Ok(()));
    assert_eq!(pairs(&output), vec![pair("a", "new"), pair("b", "more"), pair("z", "kept")]);
}

#[test]
fn entries_before_a_failure_stay() {
    let mut output = KeyValues::new();
    let document = Json::Object(vec![
        member("first", number("1")),
        member("bad\nkey", number("2")),
        member("last", number("3")),
    ]);
    assert_eq!(
        flatten_json(&document, String::new(), &mut output),
        Err(ConvertError::KeyNewline("bad\nkey".to_string()))
    );
    assert_eq!(pairs(&output), vec![pair("first", "1")]);
}

#[test]
fn first_failure_is_the_one_reported() {
    let document = Json::Array(vec![
        text("fine"),
        Json::Object(vec![member("v", text("a\0b")), member("k\0", Json::Null)]),
        Json::Object(vec![member("x\ry", Json::Null)]),
    ]);
    assert_eq!(flatten(&document).err(), Some(ConvertError::NulChar(Place::Value)));
}

#[test]
fn member_name_is_checked_before_its_value_is_visited() {
    let document = Json::Object(vec![member("k\0", text("a\0b"))]);
    assert_eq!(flatten(&document).err(), Some(ConvertError::NulChar(Place::Key)));
}

#[test]
fn empty_containers_add_nothing() {
    assert_eq!(flatten(&Json::Array(Vec::new())).unwrap().len(), 0);
    assert_eq!(flatten(&Json::Object(Vec::new())).unwrap().len(), 0);
    let nested = Json::Object(vec![
        member("a", Json::Array(Vec::new())),
        member("b", Json::Object(Vec::new())),
    ]);
    assert_eq!(flatten(&nested).unwrap().len(), 0);
}

#[test]
fn string_values_are_sanitized() {
    let document = Json::Object(vec![member("x", text("line1\r\nline2"))]);
    assert_eq!(pairs(&flatten(&document).unwrap()), vec![pair("x", "line1\\nline2")]);
}

#[test]
fn output_keys_are_strictly_ascending() {
    let document = Json::Object(vec![
        member("b", Json::Array(vec![number("1"), number("2")])),
        member("a b", number("3")),
        member("a-b", number("4")),
        member("é", number("5")),
        member("B", number("6")),
    ]);
    let output = flatten(&document).unwrap();
    for i in 1..output.len() {
        assert!(output.key(i - 1).as_bytes() < output.key(i).as_bytes());
    }
    assert_eq!(output.len(), 5);
}

#[test]
fn flattening_the_output_again_gives_the_same() {
    let document = Json::Object(vec![
        member("name", text("Al\r\nice")),
        member("deep", Json::Array(vec![Json::Object(vec![member("k y", number("-1.5"))])])),
        member("", Json::Bool(true)),
    ]);
    let first = flatten(&document).unwrap();
    let mut members = Vec::new();
    for i in 0..first.len() {
        members.push(member(first.key(i), text(first.value(i))));
    }
    let second = flatten(&Json::Object(members)).unwrap();
    assert_eq!(pairs(&second), pairs(&first));
    assert_eq!(render(&second), render(&first));
}

#[test]
fn inserting_keeps_the_keys_in_order() {
    let mut output = KeyValues::new();
    assert_eq!(output.len(), 0);
    output.insert("m".to_string(), "1".to_string());
    output.insert("a".to_string(), "2".to_string());
    output.insert("z".to_string(), "3".to_string());
    output.insert("b".to_string(), "4".to_string());
    assert_eq!(pairs(&output), vec![pair("a", "2"), pair("b", "4"), pair("m", "1"), pair("z", "3")]);
}

#[test]
fn inserting_under_a_key_again_replaces_the_value() {
    let mut output = KeyValues::new();
    output.insert("k".to_string(), "1".to_string());
    output.insert("j".to_string(), "2".to_string());
    output.insert("k".to_string(), "3".to_string());
    assert_eq!(pairs(&output), vec![pair("j", "2"), pair("k", "3")]);
    assert_eq!(output.key(1), "k");
    assert_eq!(output.value(1), "3");
}

#[test]
fn lines_are_written_in_key_order() {
    let mut output = KeyValues::new();
    assert_eq!(render(&output), "");
    output.insert("b".to_string(), "two words".to_string());
    output.insert("".to_string(), "root".to_string());
    output.insert("a".to_string(), "".to_string());
    assert_eq!(render(&output), " root\na \nb two words\n");
}

#[test]
fn keys_are_compared_by_bytes() {
    assert_eq!(compare_keys("a", "b"), KeyOrder::Before);
    assert_eq!(compare_keys("b", "a"), KeyOrder::After);
    assert_eq!(compare_keys("a", "a"), KeyOrder::Same);
    assert_eq!(compare_keys("", ""), KeyOrder::Same);
    assert_eq!(compare_keys("", "a"), KeyOrder::Before);
    assert_eq!(compare_keys("a", "ab"), KeyOrder::Before);
    assert_eq!(compare_keys("ab", "a"), KeyOrder::After);
    assert_eq!(compare_keys("10", "2"), KeyOrder::Before);
    assert_eq!(compare_keys("Z", "a"), KeyOrder::Before);
    assert_eq!(compare_keys("z", "é"), KeyOrder::Before);
    assert_eq!(compare_keys("\u{ffff}", "\u{10000}"), KeyOrder::Before);
}

#[test]
fn indices_are_written_in_decimal() {
    assert_eq!(decimal_text(0), "0");
    assert_eq!(decimal_text(7), "7");
    assert_eq!(decimal_text(10), "10");
    assert_eq!(decimal_text(1234567890), "1234567890");
    assert_eq!(decimal_text(usize::MAX), usize::MAX.to_string());
}

#[test]
fn paths_are_joined_with_a_dot() {
    assert_eq!(join_path("a", false, "b"), "a.b");
    assert_eq!(join_path("a", false, ""), "a.");
    assert_eq!(join_path("a.b", false, "0"), "a.b.0");
    assert_eq!(join_path("", false, "b"), ".b");
    assert_eq!(join_path("", false, ""), ".");
}

#[test]
fn children_of_the_root_get_their_segment_alone() {
    assert_eq!(join_path("", true, "b"), "b");
    assert_eq!(join_path("", true, ""), "");
    assert_eq!(join_path("", true, "0"), "0");
}

#[test]
fn parsing_brings_every_kind_of_value_over() {
    let document = parse(r#"{"n":null,"t":true,"i":-12,"f":2.5,"s":"x","a":[1,[]],"o":{}}"#).unwrap();
    assert_eq!(
        document,
        Json::Object(vec![
            member("a", Json::Array(vec![number("1"), Json::Array(Vec::new())])),
            member("f", number("2.5")),
            member("i", number("-12")),
            member("n", Json::Null),
            member("o", Json::Object(Vec::new())),
            member("s", text("x")),
            member("t", Json::Bool(true)),
        ])
    );
}

#[test]
fn parsing_keeps_the_last_of_repeated_names() {
    assert_eq!(parse(r#"{"a":1,"a":2}"#), Ok(Json::Object(vec![member("a", number("2"))])));
}

#[test]
fn parsing_refuses_what_is_no_document() {
    assert!(matches!(parse(""), Err(ConvertError::JsonParse(_))));
    assert!(matches!(parse("{"), Err(ConvertError::JsonParse(_))));
    assert!(matches!(parse("[1,]"), Err(ConvertError::JsonParse(_))));
    assert!(matches!(parse("1 2"), Err(ConvertError::JsonParse(_))));
}

#[test]
fn parse_error_carries_the_parsers_words() {
    match parse("[1,") {
        Err(ConvertError::JsonParse(text)) => {
            assert_eq!(text, "EOF while parsing a value at line 1 column 3")
        }
        _ => panic!("expected a parse error"),
    }
}

#[test]
fn empty_prefix_marks_the_root() {
    let mut output = KeyValues::new();
    let document = Json::Object(vec![
        member("", Json::Object(vec![member("a", number("1"))])),
        member("a", number("2")),
    ]);
    assert_eq!(flatten_json(&document, String::new(), &mut output), Ok(()));
    assert_eq!(pairs(&output), vec![pair(".a", "1"), pair("a", "2")]);
}

#[test]
fn value_that_is_not_the_root_joins_with_a_dot_under_an_empty_path() {
    let mut output = KeyValues::new();
    let inner = Json::Object(vec![member("a", number("1"))]);
    assert_eq!(flatten_at(&inner, String::new(), false, &mut output), Ok(()));
    assert_eq!(pairs(&output), vec![pair(".a", "1")]);
    let mut at_root = KeyValues::new();
    assert_eq!(flatten_at(&inner, String::new(), true, &mut at_root), Ok(()));
    assert_eq!(pairs(&at_root), vec![pair("a", "1")]);
}

fn put(tree: &mut Json, segments: &[&str], value: &str) {
    let members = match tree {
        Json::Object(members) => members,
        _ => panic!("a value stands where members are asked for"),
    };
    if segments.len() == 1 {
        members.push(member(segments[0], text(value)));
        return;
    }
    let found = members.iter().position(|(name, _)| name == segments[0]);
    let at = match found {
        Some(at) => at,
        None => {
            members.push(member(segments[0], Json::Object(Vec::new())));
            members.len() - 1
        }
    };
    put(&mut members[at].1, &segments[1..], value);
}

fn rebuild(output: &KeyValues) -> Json {
    let mut tree = Json::Object(Vec::new());
    for i in 0..output.len() {
        let segments: Vec<&str> = output.key(i).split('.').collect();
        put(&mut tree, &segments, output.value(i));
    }
    tree
}

#[test]
fn flattening_the_nested_rebuilding_gives_the_same() {
    let document = Json::Object(vec![
        member("name", text("Al\r\nice")),
        member("deep", Json::Array(vec![
            Json::Object(vec![member("k y", number("-1.5")), member("", Json::Null)]),
            Json::Bool(false),
        ])),
        member("", Json::Object(vec![member("a", number("1")), member("", text("x"))])),
        member("a", number("2")),
    ]);
    let first = flatten(&document).unwrap();
    assert_eq!(
        pairs(&first),
        vec![
            pair(".", "x"),
            pair(".a", "1"),
            pair("a", "2"),
            pair("deep.0.", "null"),
            pair("deep.0.k-y", "-1.5"),
            pair("deep.1", "false"),
            pair("name", "Al\\nice"),
        ]
    );
    let rebuilt = rebuild(&first);
    assert_eq!(
        rebuilt,
        Json::Object(vec![
            member("", Json::Object(vec![member("", text("x")), member("a", text("1"))])),
            member("a", text("2")),
            member("deep", Json::Object(vec![
                member("0", Json::Object(vec![member("", text("null")), member("k-y", text("-1.5"))])),
                member("1", text("false")),
            ])),
            member("name", text("Al\\nice")),
        ])
    );
    let second = flatten(&rebuilt).unwrap();
    assert_eq!(pairs(&second), pairs(&first));
}

#[test]
fn root_scalar_is_rebuilt_as_a_member_with_the_empty_name() {
    let first = flatten(&Json::Bool(true)).unwrap();
    let rebuilt = rebuild(&first);
    assert_eq!(rebuilt, Json::Object(vec![member("", text("true"))]));
    assert_eq!(pairs(&flatten(&rebuilt).unwrap()), vec![pair("", "true")]);
}
