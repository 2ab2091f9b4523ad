use std::collections::{vec_deque, VecDeque};

use verethiel::translation::Translation;

/// Reads a JSON document the way the program does: a string is a value, an
/// object a map with its names in the order they were written.
fn parse(input: &str) -> Translation {
    let value: serde_json::Value = serde_json::from_str(input).unwrap();
    convert(value)
}

fn convert(value: serde_json::Value) -> Translation {
    match value {
        serde_json::Value::String(text) => Translation::Value(text, false),
        serde_json::Value::Object(map) => {
            let mut content = Vec::new();
            let mut order = Vec::new();
            for (key, value) in map {
                order.push(key.clone());
                content.push((key, convert(value)));
            }
            Translation::Nested { content, order }
        }
        other => panic!("invalid type: {other}, expected string or map"),
    }
}

fn sample() -> Translation {
    Translation::Nested {
        content: vec![
            (
                "a".to_string(),
                Translation::Nested {
                    content: vec![
                        ("a".to_string(), Translation::Value("a".to_string(), false)),
                        ("b".to_string(), Translation::Value("b".to_string(), false)),
                    ]
                    .into_iter()
                    .collect(),
                    order: vec!["a".to_string(), "b".to_string()],
                },
            ),
            ("b".to_string(), Translation::Value("b".to_string(), false)),
            ("c".to_string(), Translation::Value("c".to_string(), false)),
        ]
        .into_iter()
        .collect(),
        order: vec!["c".to_string(), "a".to_string(), "b".to_string()],
    }
}

#[test]
fn test_serialization() {
    let value = sample();
    let translation = value.to_json().unwrap();
    const EXPECTED: &str = r#"{"c":"c","a":{"a":"a","b":"b"},"b":"b"}"#;
    assert_eq!(translation, EXPECTED);
}

#[test]
#[should_panic(expected = "Everything in order should be in content aswell")]
fn test_serialization_faulty_stucture() {
    let value = Translation::Nested {
        content: vec![
            (
                "a".to_string(),
                Translation::Nested {
                    content: vec![
                        ("a".to_string(), Translation::Value("a".to_string(), false)),
                        ("b".to_string(), Translation::Value("b".to_string(), false)),
                    ]
                    .into_iter()
                    .collect(),
                    order: vec!["a".to_string(), "b".to_string()],
                },
            ),
            ("c".to_string(), Translation::Value("c".to_string(), false)),
        ]
        .into_iter()
        .collect(),
        order: vec!["c".to_string(), "a".to_string(), "b".to_string()],
    };

    _ = value.to_json().unwrap();
}

#[test]
fn test_contains_key() {
    const INPUT: &str = r#"{"c": "c", "a": {"a": "a", "b": "b"}, "b": "b"}"#;
    let translation: Translation = parse(INPUT);

    assert!(!translation.contains_key(&[&"a".to_string()]));
    assert!(translation.contains_key(&[&"a".to_string(), &"a".to_string()]));
    assert!(translation.contains_key(&[&"a".to_string(), &"b".to_string()]));
    assert!(translation.contains_key(&[&"b".to_string()]));
    assert!(translation.contains_key(&[&"c".to_string()]));
}

#[test]
fn test_get_keys() {
    const INPUT: &str = r#"{"c": "c", "a": {"a": "a", "b": "b"}, "b": "b"}"#;
    let translation: Translation = parse(INPUT);

    let translation_keys: Vec<Vec<&String>> = translation
        .get_keys()
        .into_iter()
        .map(VecDeque::into_iter)
        .map(vec_deque::IntoIter::<&String>::collect)
        .collect();

    assert_eq!(translation_keys.len(), 4);
    for key in translation_keys.iter().map(Vec::as_slice) {
        assert!(translation.contains_key(key), "{key:?}");
    }
}

#[test]
fn test_get_ordered_keys() {
    const INPUT: &str = r#"{"c": "c", "a": {"a": "a", "b": "b"}, "b": "b"}"#;
    let translation: Translation = parse(INPUT);

    let ordered_keys: Vec<Vec<(&String, usize)>> = translation
        .get_ordered_keys()
        .into_iter()
        .map(VecDeque::into_iter)
        .map(vec_deque::IntoIter::collect)
        .collect();
    assert!(ordered_keys.contains(&vec![(&"c".to_string(), 0)]));
    assert!(ordered_keys.contains(&vec![(&"a".to_string(), 1), (&"a".to_string(), 0)]));
    assert!(ordered_keys.contains(&vec![(&"a".to_string(), 1), (&"b".to_string(), 1)]));
    assert!(ordered_keys.contains(&vec![(&"b".to_string(), 2)]));
}

#[test]
fn test_order_applyance() {
    const INPUT_A: &str = r#"{"a":"","b":""}"#;
    const INPUT_B: &str = r#"{"b":"b","a":"a"}"#;
    const EXPECTED: &str = r#"{"a":"a","b":"b"}"#;
    let t1: Translation = parse(INPUT_A);
    let mut t2: Translation = parse(INPUT_B);
    t2.apply_translation_order(&t1).unwrap();
    let result = t2.to_json().unwrap();
    assert_eq!(result, EXPECTED);
}

#[test]
#[should_panic(expected = "self and other diverged, self being value, other map")]
fn test_order_applyance_divergence_other() {
    const INPUT_A: &str = r#"{"a":"","b":{"b":""}}"#;
    const INPUT_B: &str = r#"{"b":"b","a":"a"}"#;
    let t1: Translation = parse(INPUT_A);
    let mut t2: Translation = parse(INPUT_B);
    t2.apply_translation_order(&t1).unwrap();
}

#[test]
#[should_panic(expected = "self and other diverged, self being map, other value")]
fn test_order_applyance_divergence_self() {
    const INPUT_A: &str = r#"{"a":"","b":""}"#;
    const INPUT_B: &str = r#"{"b":{"b":"b"},"a":"a"}"#;
    let t1: Translation = parse(INPUT_A);
    let mut t2: Translation = parse(INPUT_B);
    t2.apply_translation_order(&t1).unwrap();
}

#[test]
fn test_append_unknown_keys_at_the_end_when_ordering() {
    const INPUT_A: &str = r#"{"a":"","b":""}"#;
    const INPUT_B: &str = r#"{"c":"c","a":"a"}"#;
    const EXPECTED_OUTPUT: &str = r#"{"a":"a","c":"c"}"#;
    let t1: Translation = parse(INPUT_A);
    let mut t2: Translation = parse(INPUT_B);
    t2.apply_translation_order(&t1).unwrap();
    assert_eq!(t2.to_json().unwrap(), EXPECTED_OUTPUT);
}

#[test]
fn ordered_keys_carry_the_first_position() {
    let t = Translation::Nested {
        content: vec![
            ("a".to_string(), Translation::Value("1".to_string(), false)),
            ("b".to_string(), Translation::Value("2".to_string(), false)),
        ],
        order: vec!["b".to_string(), "a".to_string(), "b".to_string()],
    };
    let ordered: Vec<Vec<(String, usize)>> = t
        .get_ordered_keys()
        .into_iter()
        .map(|k| k.into_iter().map(|(n, i)| (n.clone(), i)).collect())
        .collect();
    assert_eq!(
        ordered,
        vec![vec![("a".to_string(), 1)], vec![("b".to_string(), 0)]]
    );
}
