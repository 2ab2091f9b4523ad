use verethiel::translation::Translation;
use verethiel::walk::{sort_entry_action, sort_output_allowed, EntryAction};

fn parse(input: &str) -> Translation {
    let value: serde_json::Value = serde_json::from_str(input).unwrap();
    convert(value)
}

fn convert(value: serde_json::Value) -> Translation {
    match value {
        serde_json::Value::String(text) => Translation::Value(text, false),
        serde_json::Value::Object(map) => {
            let mut content = Vec::new();
            let mut order = Vec::new();
            for (key, value) in map {
                order.push(key.clone());
                content.push((key, convert(value)));
            }
            Translation::Nested { content, order }
        }
        other => panic!("invalid type: {other}, expected string or map"),
    }
}

const FILE_CONTENT_0: &str = r#"{"a":"a","b":"b","c":{"a":"a","b":"b"}}"#;
const FILE_CONTENT_1: &str = r#"{"c":{"b":"b","a":"a"},"b":"b","a":"a"}"#;
const FILE_CONTENT_2: &str = r#"{"b":"b","c":{"b":"b","a":"a"},"a":"a"}"#;

/// What the sort command writes for a file with `content` sorted after
/// `base`.
fn sorted(base: &Translation, content: &str) -> String {
    let mut translation = parse(content);
    translation.apply_translation_order(base).unwrap();
    translation.to_json().unwrap()
}

#[test]
fn test_correct_order_file_file_none() {
    let base = parse(FILE_CONTENT_0);
    assert!(sort_output_allowed(false, true, false, true));
    assert_eq!(sorted(&base, FILE_CONTENT_1), FILE_CONTENT_0);
}

#[test]
fn test_sort_file() {
    let base: Translation = parse(FILE_CONTENT_0);
    assert_eq!(sorted(&base, FILE_CONTENT_1), FILE_CONTENT_0);
}

#[test]
fn test_sort_directory() {
    let base: Translation = parse(FILE_CONTENT_0);
    assert_eq!(sort_entry_action(false, false, true), EntryAction::Process);
    let result0 = sorted(&base, FILE_CONTENT_1);
    let result1 = sorted(&base, FILE_CONTENT_2);
    assert_eq!(result0, FILE_CONTENT_0);
    assert_eq!(result1, FILE_CONTENT_0);
}

#[test]
fn sorting_twice_changes_nothing() {
    let base = parse(r#"{"x":"","y":{"p":"","q":""},"z":""}"#);
    let once = sorted(&base, r#"{"extra":"1","z":"2","y":{"q":"3","new":"4","p":"5"}}"#);
    assert_eq!(once, r#"{"y":{"p":"5","q":"3","new":"4"},"z":"2","extra":"1"}"#);
    let twice = sorted(&base, &once);
    assert_eq!(twice, once);
}

#[test]
fn sorting_keeps_the_keys() {
    let base = parse(r#"{"b":"","a":""}"#);
    let mut t = parse(r#"{"a":"1","c":{"d":"2"},"b":"3"}"#);
    let before: Vec<Vec<String>> = t
        .get_keys()
        .into_iter()
        .map(|k| k.into_iter().cloned().collect())
        .collect();
    t.apply_translation_order(&base).unwrap();
    let after: Vec<Vec<String>> = t
        .get_keys()
        .into_iter()
        .map(|k| k.into_iter().cloned().collect())
        .collect();
    assert_eq!(before, after);
    assert_eq!(t.to_json().unwrap(), r#"{"b":"3","a":"1","c":{"d":"2"}}"#);
}

#[test]
fn sorting_values_against_values_is_a_no_op() {
    let base = Translation::Value("x".to_string(), false);
    let mut t = Translation::Value("y".to_string(), false);
    assert!(t.apply_translation_order(&base).is_ok());
    assert_eq!(t.to_json().unwrap(), r#""y""#);
}

#[test]
fn sorting_stops_at_the_first_divergence() {
    let base = parse(r#"{"a":{"x":""},"b":"","c":{"y":""}}"#);
    let mut t = parse(r#"{"c":{"y":""},"b":{"z":"1"},"a":"2"}"#);
    let r = t.apply_translation_order(&base);
    assert_eq!(
        r,
        Err("self and other diverged, self being map, other value".to_string())
    );
    // the order of the root was already sorted when the walk stopped
    assert_eq!(t.to_json().unwrap(), r#"{"a":"2","b":{"z":"1"},"c":{"y":""}}"#);
}

#[test]
fn sort_walk_decisions() {
    assert_eq!(sort_entry_action(true, true, false), EntryAction::Descend);
    assert_eq!(sort_entry_action(false, true, false), EntryAction::Skip);
    assert_eq!(sort_entry_action(false, false, false), EntryAction::Skip);
    assert!(sort_output_allowed(true, false, true, false));
    assert!(!sort_output_allowed(true, false, false, true));
    assert!(!sort_output_allowed(false, true, true, false));
    assert!(!sort_output_allowed(false, false, false, false));
}

#[test]
fn json_strings_are_escaped() {
    let t = Translation::Nested {
        content: vec![(
            "say \"hi\"".to_string(),
            Translation::Value("line\nbreak \\ tab\t".to_string(), false),
        )],
        order: vec!["say \"hi\"".to_string()],
    };
    assert_eq!(
        t.to_json().unwrap(),
        r#"{"say \"hi\"":"line\nbreak \\ tab\t"}"#
    );
}

#[test]
fn control_characters_are_escaped_in_hex() {
    let t = Translation::Value("a\u{1}b\u{1f}\u{8}\u{c}\r/\u{7f}é".to_string(), false);
    assert_eq!(t.to_json().unwrap(), "\"a\\u0001b\\u001f\\b\\f\\r/\u{7f}é\"");
}

#[test]
fn empty_map_is_written_as_empty_object() {
    let t = Translation::Nested {
        content: vec![],
        order: vec![],
    };
    assert_eq!(t.to_json().unwrap(), "{}");
}

#[test]
fn sorting_keeps_values_flags_and_names() {
    let base = parse(r#"{"b":"","a":{"y":"","x":""},"q":""}"#);
    let mut t = parse(r#"{"a":{"x":"1","z":"2","y":"3"},"c":"4","b":"5"}"#);
    let a = "a".to_string();
    let z = "z".to_string();
    t.visit_key(&[&a, &z]).unwrap();
    t.apply_translation_order(&base).unwrap();
    match &t {
        Translation::Nested { content, order } => {
            assert_eq!(order, &vec!["b".to_string(), "a".to_string(), "c".to_string()]);
            assert_eq!(content.len(), 3);
            for (name, value) in content {
                match (name.as_str(), value) {
                    ("c", Translation::Value(text, visited)) => {
                        assert_eq!(text, "4");
                        assert!(!visited);
                    }
                    ("b", Translation::Value(text, visited)) => {
                        assert_eq!(text, "5");
                        assert!(!visited);
                    }
                    ("a", Translation::Nested { content, order }) => {
                        assert_eq!(
                            order,
                            &vec!["y".to_string(), "x".to_string(), "z".to_string()]
                        );
                        for (inner, value) in content {
                            match (inner.as_str(), value) {
                                ("x", Translation::Value(text, visited)) => {
                                    assert_eq!(text, "1");
                                    assert!(!visited);
                                }
                                ("z", Translation::Value(text, visited)) => {
                                    assert_eq!(text, "2");
                                    assert!(visited);
                                }
                                ("y", Translation::Value(text, visited)) => {
                                    assert_eq!(text, "3");
                                    assert!(!visited);
                                }
                                _ => panic!("unexpected entry"),
                            }
                        }
                    }
                    _ => panic!("unexpected entry"),
                }
            }
        }
        Translation::Value(..) => panic!("expected a map"),
    }
}

#[test]
fn sorting_after_a_base_whose_order_names_more_than_its_entries() {
    let base = Translation::Nested {
        content: vec![("a".to_string(), Translation::Value(String::new(), false))],
        order: vec!["b".to_string(), "x".to_string(), "a".to_string()],
    };
    let mut t = parse(r#"{"c":"3","a":"1","b":"2"}"#);
    t.apply_translation_order(&base).unwrap();
    match &t {
        Translation::Nested { content, order } => {
            assert_eq!(
                order,
                &vec!["b".to_string(), "a".to_string(), "c".to_string()]
            );
            assert_eq!(content.len(), 3);
        }
        Translation::Value(..) => panic!("expected a map"),
    }
    assert_eq!(t.to_json().unwrap(), r#"{"b":"2","a":"1","c":"3"}"#);
}
