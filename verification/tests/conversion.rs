use json2kv::convert::{convert, render};
use json2kv::error::{ConvertError, Place};

fn lines_of(input: &str) -> String {
    match convert(input) {
        Ok(output) => render(&output),
        Err(e) => panic!("conversion failed: {}", e.report()),
    }
}

#[test]
fn members_come_out_in_key_order() {
    assert_eq!(lines_of(r#"{"name":"Alice","age":30}"#), "age 30\nname Alice\n");
}

#[test]
fn nested_values_get_dotted_paths() {
    assert_eq!(lines_of(r#"{"a":{"b":1,"c":[2,3]}}"#), "a.b 1\na.c.0 2\na.c.1 3\n");
}

#[test]
fn line_breaks_in_values_are_escaped() {
    assert_eq!(lines_of(r#"{"x":"line1\r\nline2"}"#), "x line1\\nline2\n");
}

#[test]
fn blanks_in_keys_become_hyphens() {
    assert_eq!(lines_of(r#"{"k y":1}"#), "k-y 1\n");
}

#[test]
fn tabs_in_keys_become_hyphens() {
    assert_eq!(lines_of("{\"k\\ty\":1}"), "k-y 1\n");
}

#[test]
fn line_feed_in_a_key_is_refused_with_the_key() {
    let outcome = convert("{\"a\\nb\":1}");
    match outcome {
        Err(ConvertError::KeyNewline(key)) => assert_eq!(key, "a\nb"),
        _ => panic!("expected the key to be refused"),
    }
}

#[test]
fn refused_key_is_named_in_the_report() {
    let e = convert("{\"ok\":1,\"bad\\rkey\":2}").err().unwrap();
    assert_eq!(e.description(), "Key contains newline character: bad\rkey");
    assert_eq!(e.report(), "Error: Key contains newline character: bad\rkey");
}

#[test]
fn nul_in_a_key_is_refused() {
    let e = convert("{\"a\\u0000b\":1}").err().unwrap();
    assert_eq!(e, ConvertError::NulChar(Place::Key));
    assert_eq!(e.report(), "Error: Key contains null character");
}

#[test]
fn nul_in_a_value_is_refused() {
    let e = convert("{\"a\":\"x\\u0000y\"}").err().unwrap();
    assert_eq!(e, ConvertError::NulChar(Place::Value));
    assert_eq!(e.report(), "Error: Value contains null character");
}

#[test]
fn line_break_in_a_key_is_reported_before_its_nul() {
    let e = convert("{\"a\\u0000b\\nc\":1}").err().unwrap();
    assert!(matches!(e, ConvertError::KeyNewline(_)));
}

#[test]
fn empty_containers_give_no_lines() {
    assert_eq!(lines_of("[]"), "");
    assert_eq!(lines_of("{}"), "");
    assert_eq!(lines_of(r#"{"a":[],"b":{},"c":1}"#), "c 1\n");
}

#[test]
fn scalar_root_gives_one_line_with_empty_key() {
    assert_eq!(lines_of("true"), " true\n");
    assert_eq!(lines_of("false"), " false\n");
    assert_eq!(lines_of("null"), " null\n");
    assert_eq!(lines_of("12"), " 12\n");
    assert_eq!(lines_of(r#""text""#), " text\n");
}

#[test]
fn array_root_uses_bare_indices() {
    assert_eq!(lines_of(r#"["a","b"]"#), "0 a\n1 b\n");
}

#[test]
fn indices_are_ordered_as_text() {
    let input = "[0,1,2,3,4,5,6,7,8,9,10,11]";
    assert_eq!(
        lines_of(input),
        "0 0\n1 1\n10 10\n11 11\n2 2\n3 3\n4 4\n5 5\n6 6\n7 7\n8 8\n9 9\n"
    );
}

#[test]
fn numbers_keep_the_parsers_text() {
    assert_eq!(lines_of(r#"{"a":-5,"b":1.5,"c":0}"#), "a -5\nb 1.5\nc 0\n");
}

#[test]
fn malformed_input_is_a_parse_error() {
    let e = convert("{\"a\":").err().unwrap();
    assert!(matches!(e, ConvertError::JsonParse(_)));
    assert!(e.report().starts_with("Error parsing JSON: "));
    assert!(e.report().len() > "Error parsing JSON: ".len());
}

#[test]
fn later_member_wins_where_paths_collide() {
    assert_eq!(lines_of(r#"{"a b":1,"a-b":2}"#), "a-b 2\n");
    assert_eq!(lines_of(r#"{"a":{"b":1},"a.b":2}"#), "a.b 2\n");
}

#[test]
fn keys_are_ordered_by_bytes() {
    assert_eq!(lines_of(r#"{"b":1,"B":2,"a":3,"é":4,"z":5}"#), "B 2\na 3\nb 1\nz 5\né 4\n");
}

#[test]
fn empty_member_name_is_a_segment_like_any_other() {
    assert_eq!(lines_of(r#"{"":{"x":1}}"#), ".x 1\n");
    assert_eq!(lines_of(r#"{"a":{"":1}}"#), "a. 1\n");
    assert_eq!(lines_of(r#"{"":1}"#), " 1\n");
    assert_eq!(lines_of(r#"{"":[5,{"":6}]}"#), ".0 5\n.1. 6\n");
    assert_eq!(lines_of(r#"{"":{"":{"":7}}}"#), ".. 7\n");
}

#[test]
fn member_under_an_empty_name_keeps_its_own_path() {
    assert_eq!(lines_of(r#"{"":{"a":1},"a":2}"#), ".a 1\na 2\n");
}

#[test]
fn large_document_comes_out_whole_and_ordered() {
    let mut input = String::from("{");
    for i in 0..3000 {
        if i > 0 {
            input.push(',');
        }
        input.push_str(&format!("\"k{}\":[{},\"v{}\"]", i, i, i));
    }
    input.push('}');
    let output = convert(&input).unwrap();
    assert_eq!(output.len(), 6000);
    for i in 1..output.len() {
        assert!(output.key(i - 1).as_bytes() < output.key(i).as_bytes());
    }
    assert_eq!(output.key(0), "k0.0");
    assert_eq!(output.value(0), "0");
    assert_eq!(output.key(5999), "k999.1");
    assert_eq!(output.value(5999), "v999");
}

#[test]
fn deeply_nested_document_is_followed_to_its_leaf() {
    let depth = 50;
    let mut input = String::new();
    for _ in 0..depth {
        input.push_str("{\"a\":[");
    }
    input.push_str("null");
    for _ in 0..depth {
        input.push_str("]}");
    }
    let mut key = String::new();
    for i in 0..depth {
        if i > 0 {
            key.push('.');
        }
        key.push_str("a.0");
    }
    assert_eq!(lines_of(&input), format!("{} null\n", key));
}

#[test]
fn nesting_beyond_the_parsers_limit_is_a_parse_error() {
    let input = "[".repeat(200) + &"]".repeat(200);
    assert!(matches!(convert(&input), Err(ConvertError::JsonParse(_))));
}
