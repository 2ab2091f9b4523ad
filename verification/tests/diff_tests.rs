use verethiel::diff::{diff_translation, DiffResults, DiffWithBase};
use verethiel::keys::{ToKeyArray, ToSliceArr};
use verethiel::translation::Translation;
use verethiel::walk::{depth_exceeded, diff_entry_action, EntryAction, MAX_DEPTH};

fn parse(input: &str) -> Translation {
    let value: serde_json::Value = serde_json::from_str(input).unwrap();
    convert(value)
}

fn convert(value: serde_json::Value) -> Translation {
    match value {
        serde_json::Value::String(text) => Translation::Value(text, false),
        serde_json::Value::Object(map) => {
            let mut content = Vec::new();
            let mut order = Vec::new();
            for (key, value) in map {
                order.push(key.clone());
                content.push((key, convert(value)));
            }
            Translation::Nested { content, order }
        }
        other => panic!("invalid type: {other}, expected string or map"),
    }
}

/// Diffs every source against the base and renders the report, as the diff
/// command does for the files it finds.
fn report(base: &str, sources: &[(&str, &str)]) -> String {
    let base = parse(base);
    let base_keys = base.get_keys().keys();
    let base_keys = base_keys.to_slice();
    let mut parts = Vec::new();
    for (path, content) in sources {
        let diff = diff_translation(parse(content), path.to_string(), &base, &base_keys);
        parts.push(DiffResults::new(Ok(diff)));
    }
    let base_copy = base.clone();
    DiffResults::from_iter(parts).base(base_copy).render()
}

#[test]
fn test_diff_file_nothing_to_do() {
    const FILE_CONTENT_0: &str = r#"{"a":"a","b":"b","c":{"a":"a","b":"b"}}"#;
    let result = report(FILE_CONTENT_0, &[("/tmp/.tmpAb12Cd", FILE_CONTENT_0)]);
    assert_eq!(result, "Diff for /tmp/.tmpAb12Cd\nnothing.\n\n");
}

#[test]
fn test_diff_file_missing() {
    const FILE_CONTENT_0: &str = r#"{"a":"a","b":"b","c":{"a":"a","b":"b"}}"#;
    const FILE_CONTENT_1: &str = r#"{"a":"a","b":"b","c":{"a":"a"}}"#;
    let result = report(FILE_CONTENT_0, &[("/tmp/.tmpAb12Cd", FILE_CONTENT_1)]);
    assert_eq!(
        result,
        "Diff for /tmp/.tmpAb12Cd\nmissing keys:\nMissing key: c.b\n\n"
    );
}

#[test]
fn test_diff_file_extra() {
    const FILE_CONTENT_0: &str = r#"{"a":"a","b":"b","c":{"a":"a"}}"#;
    const FILE_CONTENT_1: &str = r#"{"a":"a","b":"b","c":{"a":"a","b":"b"}}"#;
    let result = report(FILE_CONTENT_0, &[("/tmp/.tmpAb12Cd", FILE_CONTENT_1)]);
    assert_eq!(result, "Diff for /tmp/.tmpAb12Cd\nextra keys:\nExtra key: c.b\n\n");
}

#[test]
fn test_diff_file_both() {
    const FILE_CONTENT_0: &str = r#"{"a":"a","b":"b","c":{"a":"a"}}"#;
    const FILE_CONTENT_1: &str = r#"{"a":"a","b":"b","c":{"b":"b"}}"#;
    let result = report(FILE_CONTENT_0, &[("/tmp/.tmpAb12Cd", FILE_CONTENT_1)]);
    assert_eq!(
        result,
        "Diff for /tmp/.tmpAb12Cd\nmissing keys:\nMissing key: c.a\nextra keys:\nExtra key: c.b\n\n"
    );
}

#[test]
fn test_diff_dir_nothing_to_do() {
    const FILE_CONTENT_0: &str = r#"{"a":"a","b":"b","c":{"a":"a","b":"b"}}"#;
    // Both files of the directory are compared.
    assert_eq!(diff_entry_action(false, false, true, false), EntryAction::Process);
    let result = report(
        FILE_CONTENT_0,
        &[
            ("/tmp/.tmpDir001/.tmpFil001", FILE_CONTENT_0),
            ("/tmp/.tmpDir001/.tmpFil002", FILE_CONTENT_0),
        ],
    );
    assert_eq!(
        result,
        "Diff for /tmp/.tmpDir001/.tmpFil001\nnothing.\n\nDiff for /tmp/.tmpDir001/.tmpFil002\nnothing.\n\n"
    );
}

#[test]
fn test_diff_dir_nest_no_recurse_nothing_to_do() {
    const FILE_CONTENT_0: &str = r#"{"a":"a","b":"b","c":{"a":"a","b":"b"}}"#;
    // Without recursion the nested directory is left alone.
    assert_eq!(diff_entry_action(false, true, false, false), EntryAction::Skip);
    let base = parse(FILE_CONTENT_0);
    let base_keys = base.get_keys().keys();
    let base_keys = base_keys.to_slice();
    let file = DiffResults::new(Ok(diff_translation(
        parse(FILE_CONTENT_0),
        "/tmp/.tmpDir001/.tmpFil001".to_string(),
        &base,
        &base_keys,
    )));
    let skipped = DiffResults::default();
    let result = DiffResults::from_iter(vec![file, skipped]).base(base.clone()).render();
    assert_eq!(result, "Diff for /tmp/.tmpDir001/.tmpFil001\nnothing.\n\n");
}

#[test]
fn test_diff_dir_nest_recurse_nothing_to_do() {
    const FILE_CONTENT_0: &str = r#"{"a":"a","b":"b","c":{"a":"a","b":"b"}}"#;
    // With recursion the nested directory is walked into.
    assert_eq!(diff_entry_action(true, true, false, false), EntryAction::Descend);
    assert!(!depth_exceeded(1));
    let base = parse(FILE_CONTENT_0);
    let base_keys = base.get_keys().keys();
    let base_keys = base_keys.to_slice();
    let file = DiffResults::new(Ok(diff_translation(
        parse(FILE_CONTENT_0),
        "/tmp/.tmpDir001/.tmpFil001".to_string(),
        &base,
        &base_keys,
    )));
    let nested = DiffResults::from_iter(vec![DiffResults::new(Ok(diff_translation(
        parse(FILE_CONTENT_0),
        "/tmp/.tmpDir001/.tmpDir002/.tmpFil002".to_string(),
        &base,
        &base_keys,
    )))]);
    let result = DiffResults::from_iter(vec![file, nested]).base(base.clone()).render();
    assert_eq!(
        result,
        "Diff for /tmp/.tmpDir001/.tmpFil001\nnothing.\n\nDiff for /tmp/.tmpDir001/.tmpDir002/.tmpFil002\nnothing.\n\n"
    );
}

#[test]
fn diff_indices_point_at_the_keys() {
    let base = parse(r#"{"x":"1","y":{"z":"2","w":"3"}}"#);
    let t = parse(r#"{"y":{"w":"3","v":"4"},"q":"5"}"#);
    let base_keys = base.get_keys().keys();
    let base_keys = base_keys.to_slice();
    let diff = diff_translation(t, "f".to_string(), &base, &base_keys);
    // base keys: x, y.z, y.w ; translation keys: y.w, y.v, q
    assert_eq!(diff.missing, vec![0, 1]);
    assert_eq!(diff.extra, vec![1, 2]);
    assert_eq!(diff.file_path, "f");
}

#[test]
fn diff_of_a_document_with_itself_is_empty() {
    let base = parse(r#"{"x":"1","y":{"z":"2","w":{"v":"3"}}}"#);
    let base_keys = base.get_keys().keys();
    let base_keys = base_keys.to_slice();
    let diff = diff_translation(base.clone(), "same".to_string(), &base, &base_keys);
    assert!(diff.missing.is_empty());
    assert!(diff.extra.is_empty());
}

#[test]
fn error_entries_are_reported() {
    let base = parse(r#"{"a":"a"}"#);
    let result = DiffResults::from_iter(vec![
        DiffResults::new_err("Failed to open directory 'x'".to_string()),
        DiffResults::default(),
    ])
    .base(base)
    .render();
    assert_eq!(result, "An error occured: Failed to open directory 'x'\n\n");
}

#[test]
fn walk_depth_is_limited() {
    assert_eq!(MAX_DEPTH, 10);
    assert!(!depth_exceeded(9));
    assert!(depth_exceeded(10));
    assert!(depth_exceeded(11));
}

#[test]
fn the_base_file_itself_is_skipped() {
    assert_eq!(diff_entry_action(false, false, true, true), EntryAction::Skip);
    assert_eq!(diff_entry_action(true, false, true, true), EntryAction::Skip);
    assert_eq!(diff_entry_action(false, false, false, false), EntryAction::Skip);
}

#[test]
fn render_needs_a_base_and_indices_in_range() {
    let base = parse(r#"{"a":"a"}"#);
    let base_keys = base.get_keys().keys();
    let base_keys = base_keys.to_slice();
    let diff = diff_translation(parse(r#"{"b":"b"}"#), "p".to_string(), &base, &base_keys);
    let without_base = DiffResults::new(Ok(diff));
    assert!(!without_base.can_render());
    let with_base = without_base.base(base.clone());
    assert!(with_base.can_render());
    assert_eq!(
        with_base.render(),
        "Diff for p\nmissing keys:\nMissing key: a\nextra keys:\nExtra key: b\n\n"
    );
}

#[test]
fn diff_with_base_renders_one_file() {
    let base = parse(r#"{"a":{"x":"1","y":"2"}}"#);
    let base_keys = base.get_keys().keys();
    let base_keys = base_keys.to_slice();
    let diff = diff_translation(parse(r#"{"a":{"y":"2"}}"#), "q".to_string(), &base, &base_keys);
    let text = DiffWithBase::new(&diff, &base_keys).render();
    assert_eq!(text, "Diff for q\nmissing keys:\nMissing key: a.x\n");
}
