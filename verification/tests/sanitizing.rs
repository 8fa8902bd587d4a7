use json2kv::error::{ConvertError, Place};
use json2kv::sanitize::{escape_line_feeds, normalize_line_endings, sanitize_key, sanitize_value};
use json2kv::text::{chars_of, contains_char};

#[test]
fn plain_key_is_kept() {
    assert_eq!(sanitize_key("name"), Ok("name".to_string()));
    assert_eq!(sanitize_key(""), Ok(String::new()));
    assert_eq!(sanitize_key("a.b-c_d"), Ok("a.b-c_d".to_string()));
}

#[test]
fn each_blank_and_tab_of_a_key_becomes_a_hyphen() {
    assert_eq!(sanitize_key("k y"), Ok("k-y".to_string()));
    assert_eq!(sanitize_key(" a\tb  c\t"), Ok("-a-b--c-".to_string()));
}

#[test]
fn key_with_line_feed_is_refused() {
    assert_eq!(sanitize_key("a\nb"), Err(ConvertError::KeyNewline("a\nb".to_string())));
}

#[test]
fn key_with_carriage_return_is_refused() {
    assert_eq!(sanitize_key("a\rb c"), Err(ConvertError::KeyNewline("a\rb c".to_string())));
}

#[test]
fn key_with_nul_is_refused() {
    assert_eq!(sanitize_key("a\0b"), Err(ConvertError::NulChar(Place::Key)));
}

#[test]
fn key_with_line_feed_and_nul_reports_the_line_feed() {
    assert_eq!(sanitize_key("\0\n"), Err(ConvertError::KeyNewline("\0\n".to_string())));
}

#[test]
fn sanitizing_a_key_twice_changes_nothing_more() {
    let once = sanitize_key("a b\tc.d").unwrap();
    assert_eq!(sanitize_key(&once), Ok(once.clone()));
}

#[test]
fn plain_value_is_kept() {
    assert_eq!(sanitize_value("Alice"), Ok("Alice".to_string()));
    assert_eq!(sanitize_value(""), Ok(String::new()));
    assert_eq!(sanitize_value("a b\tc"), Ok("a b\tc".to_string()));
}

#[test]
fn every_line_ending_of_a_value_is_escaped() {
    assert_eq!(sanitize_value("line1\r\nline2"), Ok("line1\\nline2".to_string()));
    assert_eq!(sanitize_value("a\rb"), Ok("a\\nb".to_string()));
    assert_eq!(sanitize_value("a\nb"), Ok("a\\nb".to_string()));
    assert_eq!(sanitize_value("\n\r\r\n\n"), Ok("\\n\\n\\n\\n".to_string()));
    assert_eq!(sanitize_value("a\r"), Ok("a\\n".to_string()));
    assert_eq!(sanitize_value("\r\r\n"), Ok("\\n\\n".to_string()));
}

#[test]
fn value_with_nul_is_refused() {
    assert_eq!(sanitize_value("a\0"), Err(ConvertError::NulChar(Place::Value)));
    assert_eq!(sanitize_value("\n\0"), Err(ConvertError::NulChar(Place::Value)));
}

#[test]
fn backslashes_of_a_value_are_kept() {
    assert_eq!(sanitize_value("a\\nb"), Ok("a\\nb".to_string()));
}

#[test]
fn sanitizing_a_value_twice_changes_nothing_more() {
    let once = sanitize_value("x\r\ny\rz\n").unwrap();
    assert_eq!(sanitize_value(&once), Ok(once.clone()));
}

#[test]
fn value_agrees_with_replacing_step_by_step() {
    let samples = ["", "a", "\r", "\n", "\r\n", "\n\r", "a\r\n\rb\n\n\r\r\nc", "é\r\nü"];
    for sample in samples {
        let expected = sample.replace("\r\n", "\n").replace('\r', "\n").replace('\n', "\\n");
        assert_eq!(sanitize_value(sample), Ok(expected));
    }
}

#[test]
fn line_endings_are_made_uniform() {
    let chars: Vec<char> = "a\r\nb\rc\nd".chars().collect();
    let uniform: String = normalize_line_endings(&chars).into_iter().collect();
    assert_eq!(uniform, "a\nb\nc\nd");
}

#[test]
fn line_feeds_are_escaped() {
    let chars: Vec<char> = "a\nb\r".chars().collect();
    assert_eq!(escape_line_feeds(&chars), "a\\nb\r");
}

#[test]
fn characters_are_listed_in_order() {
    assert_eq!(chars_of("aé\n"), vec!['a', 'é', '\n']);
    assert_eq!(chars_of(""), Vec::<char>::new());
}

#[test]
fn character_is_found_only_where_it_occurs() {
    let chars = vec!['a', 'b'];
    assert!(contains_char(&chars, 'b'));
    assert!(!contains_char(&chars, 'c'));
    assert!(!contains_char(&Vec::new(), 'a'));
}

#[test]
fn errors_are_described() {
    assert_eq!(
        ConvertError::KeyNewline("a\nb".to_string()).description(),
        "Key contains newline character: a\nb"
    );
    assert_eq!(ConvertError::NulChar(Place::Key).description(), "Key contains null character");
    assert_eq!(ConvertError::NulChar(Place::Value).description(), "Value contains null character");
    assert_eq!(ConvertError::JsonParse("expected value".to_string()).description(), "expected value");
    assert_eq!(ConvertError::IoRead("broken pipe".to_string()).description(), "broken pipe");
}

#[test]
fn errors_are_reported() {
    assert_eq!(
        ConvertError::JsonParse("expected value at line 1 column 1".to_string()).report(),
        "Error parsing JSON: expected value at line 1 column 1"
    );
    assert_eq!(
        ConvertError::NulChar(Place::Value).report(),
        "Error: Value contains null character"
    );
    assert_eq!(
        ConvertError::IoRead("stream did not contain valid UTF-8".to_string()).report(),
        "Error reading input: stream did not contain valid UTF-8"
    );
}
