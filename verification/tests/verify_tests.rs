use verethiel::keys::KeyToString;
use verethiel::translation::Translation;
use verethiel::verify::validate_translation;
use verethiel::walk::{verify_entry_action, EntryAction};

fn parse(input: &str) -> Translation {
    let value: serde_json::Value = serde_json::from_str(input).unwrap();
    convert(value)
}

fn convert(value: serde_json::Value) -> Translation {
    match value {
        serde_json::Value::String(text) => Translation::Value(text, false),
        serde_json::Value::Object(map) => {
            let mut content = Vec::new();
            let mut order = Vec::new();
            for (key, value) in map {
                order.push(key.clone());
                content.push((key, convert(value)));
            }
            Translation::Nested { content, order }
        }
        other => panic!("invalid type: {other}, expected string or map"),
    }
}

const BASE: &str = r#"{"a":"a","b":{"c":"c","d":"d"}}"#;

#[test]
fn same_keys_validate() {
    let base = parse(BASE);
    let t = parse(r#"{"b":{"d":"1","c":"2"},"a":"3"}"#);
    assert_eq!(validate_translation(t, &base, false, "f.json"), Ok(()));
}

#[test]
fn missing_key_is_reported() {
    let base = parse(BASE);
    let t = parse(r#"{"a":"1","b":{"c":"2"}}"#);
    assert_eq!(
        validate_translation(t, &base, false, "f.json"),
        Err("Failed to find 'b.d' in 'f.json'".to_string())
    );
}

#[test]
fn value_where_the_base_has_a_map_is_reported() {
    let base = parse(r#"{"a":{"b":"b"}}"#);
    let t = parse(r#"{"a":"a"}"#);
    assert_eq!(
        validate_translation(t, &base, false, "f.json"),
        Err("Failed to find 'a.b' in 'f.json'".to_string())
    );
    let base = parse(r#"{"a":{"b":"b"}}"#);
    let t = parse(r#"{"a":"a"}"#);
    assert_eq!(
        validate_translation(t, &base, true, "f.json"),
        Err("Failed to find 'a.b' in 'f.json'".to_string())
    );
}

#[test]
fn map_where_the_base_has_a_value_is_reported() {
    let base = parse(r#"{"a":"a"}"#);
    let t = parse(r#"{"a":{"b":"b"}}"#);
    assert_eq!(
        validate_translation(t, &base, false, "f.json"),
        Err("Failed to find 'a' in 'f.json'".to_string())
    );
}

#[test]
fn walking_past_a_value_fails() {
    let mut t = parse(r#"{"a":"a"}"#);
    let a = "a".to_string();
    let b = "b".to_string();
    assert_eq!(t.visit_key(&[&a, &b]), Err(()));
    assert!(!t.everything_visited());
    assert_eq!(t.visit_key(&[&a]), Ok(()));
    assert!(t.everything_visited());
}

#[test]
fn unknown_key_is_reported() {
    let base = parse(BASE);
    let t = parse(r#"{"a":"1","b":{"c":"2","d":"3","e":"4"}}"#);
    assert_eq!(
        validate_translation(t, &base, false, "f.json"),
        Err("Found 'b.e' in 'f.json' which is not present in base".to_string())
    );
}

#[test]
fn strict_validation_checks_the_order() {
    let base = parse(BASE);
    let same_order = parse(r#"{"a":"1","b":{"c":"2","d":"3"}}"#);
    assert_eq!(validate_translation(same_order, &base, true, "f.json"), Ok(()));
    let other_order = parse(r#"{"b":{"c":"2","d":"3"},"a":"1"}"#);
    let r = validate_translation(other_order, &base, true, "f.json");
    assert!(r.is_err());
    assert!(r.unwrap_err().starts_with("Failed to find '"));
    let relaxed = parse(r#"{"b":{"c":"2","d":"3"},"a":"1"}"#);
    assert_eq!(validate_translation(relaxed, &base, false, "f.json"), Ok(()));
}

#[test]
fn visiting_marks_values() {
    let mut t = parse(BASE);
    assert!(!t.everything_visited());
    let a = "a".to_string();
    let b = "b".to_string();
    let c = "c".to_string();
    let d = "d".to_string();
    assert_eq!(t.visit_key(&[&a]), Ok(()));
    assert_eq!(t.visit_key(&[&b]), Err(()));
    assert_eq!(t.visit_key(&[&b, &c]), Ok(()));
    assert!(!t.everything_visited());
    assert_eq!(t.visit_key(&[&b, &d]), Ok(()));
    assert!(t.everything_visited());
    // a walk that meets a value while names are left fails
    assert_eq!(t.visit_key(&[&a, &c]), Err(()));
    assert_eq!(t.visit_key(&[&"x".to_string()]), Err(()));
}

#[test]
fn visiting_a_whole_document() {
    let mut t = parse(BASE);
    let other = parse(r#"{"b":{"c":"","d":""},"a":""}"#);
    assert_eq!(t.visit_translation(&other), Ok(()));
    assert!(t.everything_visited());
    let mut t = parse(BASE);
    let other = parse(r#"{"a":"","b":{"x":{"y":""}}}"#);
    assert_eq!(t.visit_translation(&other), Err("b.x.y".to_string()));
}

#[test]
fn a_copy_visited_with_the_document_itself_reaches_everything() {
    let t = parse(r#"{"z":{"y":"1","x":{"w":"2"}},"a":"3","m":{}}"#);
    let mut copy = t.clone();
    assert_eq!(copy.visit_translation(&t), Ok(()));
    assert!(copy.everything_visited());
    let mut copy = t.clone();
    assert_eq!(copy.visit_ordered_translation::<true>(&t), Ok(()));
    assert!(copy.everything_visited());
}

#[test]
fn key_paths_are_listed_once() {
    let t = parse(r#"{"z":{"y":"1","x":{"w":"2","v":"4"}},"a":"3","m":{}}"#);
    let keys: Vec<Vec<String>> = t
        .get_keys()
        .into_iter()
        .map(|k| k.into_iter().cloned().collect())
        .collect();
    assert_eq!(keys.len(), 4);
    for (i, k) in keys.iter().enumerate() {
        for other in keys.iter().skip(i + 1) {
            assert_ne!(k, other);
        }
        let refs: Vec<&String> = k.iter().collect();
        assert!(t.contains_key(&refs));
    }
}

#[test]
fn ordered_visits() {
    let mut t = parse(BASE);
    let a = "a".to_string();
    let b = "b".to_string();
    let d = "d".to_string();
    assert_eq!(t.visit_ordered_key::<true>(&[(&b, 1), (&d, 1)]), Ok(()));
    assert_eq!(t.visit_ordered_key::<true>(&[(&a, 1)]), Err(()));
    assert_eq!(t.visit_ordered_key::<false>(&[(&a, 1)]), Ok(()));
    assert_eq!(t.visit_ordered_key::<true>(&[(&a, 0)]), Ok(()));
    let mut t = parse(BASE);
    let other = parse(r#"{"b":{"c":"","d":""},"a":""}"#);
    assert_eq!(t.visit_ordered_translation::<true>(&other), Err("b.c".to_string()));
    let mut t = parse(BASE);
    assert_eq!(t.visit_ordered_translation::<false>(&other), Ok(()));
}

#[test]
fn keys_are_joined_with_dots() {
    let a = "a".to_string();
    let b = "b".to_string();
    let key: &[&String] = &[&a, &b];
    assert_eq!(key.to_string(), "a.b");
    let empty: &[&String] = &[];
    assert_eq!(empty.to_string(), "");
    let ordered: &[(&String, usize)] = &[(&a, 3), (&b, 1)];
    assert_eq!(ordered.to_string(), "a.b");
    let deque: std::collections::VecDeque<&String> = vec![&b, &a, &b].into();
    assert_eq!(deque.to_string(), "b.a.b");
}

#[test]
fn verify_walk_decisions() {
    assert_eq!(verify_entry_action(true, true, false), EntryAction::Descend);
    assert_eq!(verify_entry_action(false, true, false), EntryAction::Skip);
    assert_eq!(verify_entry_action(true, false, true), EntryAction::Process);
    assert_eq!(verify_entry_action(false, false, true), EntryAction::Process);
    assert_eq!(verify_entry_action(false, false, false), EntryAction::Skip);
}

#[test]
fn clone_copies_everything() {
    let mut t = parse(BASE);
    let a = "a".to_string();
    t.visit_key(&[&a]).unwrap();
    let copy = t.clone();
    assert_eq!(copy.to_json().unwrap(), t.to_json().unwrap());
    match copy {
        Translation::Nested { content, .. } => match &content[0].1 {
            Translation::Value(text, visited) => {
                assert_eq!(text, "a");
                assert!(*visited);
            }
            _ => panic!("expected a value"),
        },
        _ => panic!("expected a map"),
    }
}

#[test]
fn a_document_validates_strictly_against_itself() {
    let base = parse(r#"{"z":"1","y":{"b":"2","a":{"q":"3"}},"x":"4"}"#);
    let t = base.clone();
    assert_eq!(validate_translation(t, &base, true, "self.json"), Ok(()));
    let mut t = base.clone();
    assert_eq!(t.visit_ordered_translation::<true>(&base), Ok(()));
    assert!(t.everything_visited());
}

#[test]
fn visiting_keeps_the_keys() {
    let mut t = parse(BASE);
    let before: Vec<Vec<String>> = t
        .get_keys()
        .into_iter()
        .map(|k| k.into_iter().cloned().collect())
        .collect();
    let b = "b".to_string();
    let c = "c".to_string();
    t.visit_key(&[&b, &c]).unwrap();
    let after: Vec<Vec<String>> = t
        .get_keys()
        .into_iter()
        .map(|k| k.into_iter().cloned().collect())
        .collect();
    assert_eq!(before, after);
}

#[test]
fn ordered_keys_name_the_keys() {
    let t = parse(r#"{"z":"1","y":{"b":"2","a":{"q":"3"}},"x":"4"}"#);
    let keys: Vec<Vec<String>> = t
        .get_keys()
        .into_iter()
        .map(|k| k.into_iter().cloned().collect())
        .collect();
    let ordered: Vec<Vec<String>> = t
        .get_ordered_keys()
        .into_iter()
        .map(|k| k.into_iter().map(|(name, _)| name.clone()).collect())
        .collect();
    assert_eq!(keys, ordered);
    assert_eq!(
        keys,
        vec![
            vec!["z".to_string()],
            vec!["y".to_string(), "b".to_string()],
            vec!["y".to_string(), "a".to_string(), "q".to_string()],
            vec!["x".to_string()],
        ]
    );
}

#[test]
fn orders_cover_content_detects_unordered_names() {
    assert!(parse(BASE).orders_cover_content());
    let t = Translation::Nested {
        content: vec![("a".to_string(), Translation::Value("1".to_string(), false))],
        order: vec![],
    };
    assert!(!t.orders_cover_content());
}
