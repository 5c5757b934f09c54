use syncables::{apply_overlay, parse_target, Error, JsonMap, JsonValue};
use syncables::{OverlayAction, OverlayDocument, OverlayInfo};

fn s(text: &str) -> String {
    text.to_string()
}

fn map(entries: Vec<(&str, JsonValue)>) -> JsonMap {
    let mut m = JsonMap::new();
    for (k, v) in entries {
        m.insert(s(k), v);
    }
    m
}

fn obj(entries: Vec<(&str, JsonValue)>) -> JsonValue {
    JsonValue::Object(map(entries))
}

fn string(text: &str) -> JsonValue {
    JsonValue::String(s(text))
}

fn number(text: &str) -> JsonValue {
    JsonValue::Number(s(text))
}

fn keys(value: &JsonValue) -> Vec<String> {
    match value {
        JsonValue::Object(m) => m.entries.iter().map(|(k, _)| k.clone()).collect(),
        _ => Vec::new(),
    }
}

fn at<'a>(value: &'a JsonValue, path: &[&str]) -> Option<&'a JsonValue> {
    let mut node = value;
    for key in path {
        node = node.get(&s(key))?;
    }
    Some(node)
}

fn overlay(actions: Vec<OverlayAction>) -> OverlayDocument {
    OverlayDocument {
        overlay: s("1.0.0"),
        info: OverlayInfo { title: s("t"), version: s("1") },
        actions,
    }
}

fn update(target: &str, entries: Vec<(&str, JsonValue)>) -> OverlayAction {
    OverlayAction { target: s(target), update: Some(map(entries)), remove: None }
}

fn remove(target: &str) -> OverlayAction {
    OverlayAction { target: s(target), update: None, remove: Some(true) }
}

// --- the ordered map ---------------------------------------------------------

#[test]
fn map_insert_then_get_reads_back() {
    let mut m = JsonMap::new();
    assert_eq!(m.insert(s("a"), number("1")), None);
    assert_eq!(m.get(&s("a")), Some(&number("1")));
    assert_eq!(m.get(&s("b")), None);
    assert!(m.contains_key(&s("a")));
    assert!(!m.contains_key(&s("b")));
    assert_eq!(m.len(), 1);
}

#[test]
fn map_insert_of_an_existing_key_keeps_its_place() {
    let mut m = map(vec![("a", number("1")), ("b", number("2")), ("c", number("3"))]);
    assert_eq!(m.insert(s("b"), number("20")), Some(number("2")));
    let order: Vec<String> = m.entries.iter().map(|(k, _)| k.clone()).collect();
    assert_eq!(order, vec![s("a"), s("b"), s("c")]);
    assert_eq!(m.get(&s("b")), Some(&number("20")));
    assert_eq!(m.insert(s("d"), number("4")), None);
    assert_eq!(m.entries.last().map(|(k, _)| k.clone()), Some(s("d")));
}

#[test]
fn map_shift_remove_keeps_the_order_of_the_rest() {
    let mut m = map(vec![("a", number("1")), ("b", number("2")), ("c", number("3"))]);
    assert_eq!(m.shift_remove(&s("a")), Some(number("1")));
    assert_eq!(m.shift_remove(&s("a")), None);
    let order: Vec<String> = m.entries.iter().map(|(k, _)| k.clone()).collect();
    assert_eq!(order, vec![s("b"), s("c")]);
    assert_eq!(m.position(&s("c")), Some(1));
}

#[test]
fn clone_value_copies_nested_values() {
    let v = obj(vec![
        ("list", JsonValue::Array(vec![JsonValue::Null, JsonValue::Bool(true), number("2.5")])),
        ("inner", obj(vec![("x", string("y"))])),
    ]);
    assert_eq!(v.clone_value(), v);
    assert!(v.is_object());
    assert!(!string("x").is_object());
    assert!(v.as_object().is_some());
    assert_eq!(string("x").get(&s("x")), None);
}

// --- targets -----------------------------------------------------------------

#[test]
fn the_root_target_walks_no_keys() {
    assert_eq!(parse_target("$").unwrap(), Vec::<String>::new());
}

#[test]
fn a_dot_path_splits_into_its_keys() {
    assert_eq!(parse_target("$.components.schemas.Foo").unwrap(), vec![s("components"), s("schemas"), s("Foo")]);
    assert_eq!(parse_target("$.a..b").unwrap(), vec![s("a"), s(""), s("b")]);
    assert_eq!(parse_target("$.").unwrap(), vec![s("")]);
    assert_eq!(parse_target("$.a.").unwrap(), vec![s("a"), s("")]);
}

#[test]
fn targets_outside_the_subset_are_refused_with_their_text() {
    for target in [
        "",
        "components",
        "$x",
        "$$",
        "$.paths[0]",
        "$.a]",
        "$.*",
        "$.paths[*].get",
        "$.paths['/pets'",
        "$.paths['/pets']x",
        "$.paths['/pets\"]",
        "$[a]",
        "$[",
        "$['a'",
    ] {
        match parse_target(target) {
            Err(Error::UnsupportedOverlayTarget(t)) => assert_eq!(t, target),
            other => panic!("{target} gave {other:?}"),
        }
    }
}

#[test]
fn quoted_bracket_keys_are_walked_without_their_quotes() {
    assert_eq!(
        parse_target("$.paths['/pets/{petId}'].get").unwrap(),
        vec![s("paths"), s("/pets/{petId}"), s("get")]
    );
    assert_eq!(
        parse_target("$.paths[\"/pets/{petId}\"].get").unwrap(),
        vec![s("paths"), s("/pets/{petId}"), s("get")]
    );
    assert_eq!(parse_target("$['a.b[*]']").unwrap(), vec![s("a.b[*]")]);
    assert_eq!(parse_target("$['a'][\"it's\"]").unwrap(), vec![s("a"), s("it's")]);
    assert_eq!(parse_target("$.a['']").unwrap(), vec![s("a"), s("")]);
}

#[test]
fn a_bracket_target_addresses_the_operation() {
    let document = obj(vec![(
        "paths",
        obj(vec![("/pets/{petId}", obj(vec![("get", obj(vec![("summary", string("one"))]))]))]),
    )]);
    let result = apply_overlay(
        &document,
        &overlay(vec![update("$.paths['/pets/{petId}'].get", vec![("x-crud", obj(vec![("action", string("read"))]))])]),
    )
    .unwrap();
    assert_eq!(at(&result, &["paths", "/pets/{petId}", "get", "x-crud", "action"]), Some(&string("read")));
    assert_eq!(at(&result, &["paths", "/pets/{petId}", "get", "summary"]), Some(&string("one")));
    let removed = apply_overlay(&result, &overlay(vec![remove("$.paths[\"/pets/{petId}\"]")])).unwrap();
    assert_eq!(removed, obj(vec![("paths", obj(vec![]))]));
}

#[test]
fn a_one_action_overlay_applied_twice_changes_nothing_more() {
    let document = obj(vec![("a", obj(vec![("x", number("1"))])), ("b", number("2"))]);
    for action in [update("$.a", vec![("y", obj(vec![("z", JsonValue::Null)]))]), remove("$.b"), update("$.c.d", vec![])] {
        let o = overlay(vec![action]);
        let once = apply_overlay(&document, &o).unwrap();
        let twice = apply_overlay(&once, &o).unwrap();
        assert_eq!(twice, once);
    }
}

#[test]
fn merging_a_document_onto_itself_gives_it_back() {
    let document = obj(vec![("a", obj(vec![("x", number("1")), ("y", JsonValue::Array(vec![]))])), ("b", string("s"))]);
    let entries: Vec<(&str, JsonValue)> = vec![
        ("a", obj(vec![("x", number("1")), ("y", JsonValue::Array(vec![]))])),
        ("b", string("s")),
    ];
    assert_eq!(apply_overlay(&document, &overlay(vec![update("$", entries)])).unwrap(), document);
    assert_eq!(apply_overlay(&document, &overlay(vec![update("$", vec![])])).unwrap(), document);
}

// --- errors ------------------------------------------------------------------

#[test]
fn error_messages_name_what_went_wrong() {
    assert_eq!(
        Error::UnsupportedOverlayTarget(s("$x")).to_string(),
        "unsupported overlay target \"$x\": only \"$\" or simple dot-paths like \"$.components...\" are supported"
    );
    assert_eq!(
        Error::OverlayTargetNotAnObject(s("a")).to_string(),
        "overlay target segment \"a\" does not resolve to an object"
    );
    assert_eq!(Error::OverlayRemovesRoot.to_string(), "overlay cannot remove the document root");
    assert_eq!(Error::Http(s("timeout")).to_string(), "http error: timeout");
    assert_eq!(Error::UnknownResource(s("/pets")).to_string(), "unknown resource \"/pets\"");
    let io = Error::Io(std::io::Error::new(std::io::ErrorKind::NotFound, "gone"));
    assert_eq!(io.to_string(), "i/o error: gone");
}

#[test]
fn an_intermediate_non_object_is_refused() {
    let document = obj(vec![("components", string("oops"))]);
    let error = apply_overlay(&document, &overlay(vec![update("$.components.schemas", vec![])]))
        .expect_err("a string is not an object");
    match error {
        Error::OverlayTargetNotAnObject(seg) => assert_eq!(seg, "components"),
        other => panic!("{other:?}"),
    }
}

#[test]
fn a_non_object_root_is_refused_by_an_update() {
    let document = JsonValue::Array(vec![]);
    match apply_overlay(&document, &overlay(vec![update("$", vec![("a", JsonValue::Null)])])) {
        Err(Error::OverlayTargetNotAnObject(t)) => assert_eq!(t, "$"),
        other => panic!("{other:?}"),
    }
    match apply_overlay(&document, &overlay(vec![update("$.a", vec![])])) {
        Err(Error::OverlayTargetNotAnObject(t)) => assert_eq!(t, "a"),
        other => panic!("{other:?}"),
    }
}

#[test]
fn removing_under_a_non_object_root_or_a_missing_parent_changes_nothing() {
    let document = JsonValue::Array(vec![number("1")]);
    assert_eq!(apply_overlay(&document, &overlay(vec![remove("$.a")])).unwrap(), document);
    let document = obj(vec![("a", number("1"))]);
    assert_eq!(apply_overlay(&document, &overlay(vec![remove("$.b.c")])).unwrap(), document);
    assert_eq!(apply_overlay(&document, &overlay(vec![remove("$.z")])).unwrap(), document);
}

#[test]
fn removing_under_a_non_object_parent_is_refused() {
    let document = obj(vec![("a", number("1"))]);
    match apply_overlay(&document, &overlay(vec![remove("$.a.b")])) {
        Err(Error::OverlayTargetNotAnObject(seg)) => assert_eq!(seg, "a"),
        other => panic!("{other:?}"),
    }
}

// --- merging -----------------------------------------------------------------

#[test]
fn a_non_object_update_value_replaces_what_was_there() {
    let document = obj(vec![("a", obj(vec![("x", number("1"))])), ("b", number("2"))]);
    let result = apply_overlay(
        &document,
        &overlay(vec![update("$", vec![("a", number("3")), ("b", obj(vec![("y", JsonValue::Null)]))])]),
    )
    .unwrap();
    assert_eq!(result, obj(vec![("a", number("3")), ("b", obj(vec![("y", JsonValue::Null)]))]));
}

#[test]
fn nested_objects_merge_key_by_key_and_new_keys_go_last() {
    let document = obj(vec![("a", obj(vec![("x", number("1")), ("y", number("2"))])), ("b", JsonValue::Null)]);
    let result = apply_overlay(
        &document,
        &overlay(vec![update("$", vec![("c", JsonValue::Bool(false)), ("a", obj(vec![("z", number("3")), ("x", number("9"))]))])]),
    )
    .unwrap();
    assert_eq!(keys(&result), vec![s("a"), s("b"), s("c")]);
    assert_eq!(keys(at(&result, &["a"]).unwrap()), vec![s("x"), s("y"), s("z")]);
    assert_eq!(at(&result, &["a", "x"]), Some(&number("9")));
    assert_eq!(at(&result, &["a", "y"]), Some(&number("2")));
}

#[test]
fn actions_apply_in_order_and_the_first_failure_ends_the_run() {
    let document = obj(vec![]);
    let result = apply_overlay(
        &document,
        &overlay(vec![update("$.a", vec![("x", number("1"))]), remove("$.a.x"), update("$.a", vec![("y", number("2"))])]),
    )
    .unwrap();
    assert_eq!(result, obj(vec![("a", obj(vec![("y", number("2"))]))]));

    let failing = overlay(vec![update("$.a", vec![]), remove("$"), update("$.b[0]", vec![])]);
    assert!(matches!(apply_overlay(&document, &failing), Err(Error::OverlayRemovesRoot)));
}

#[test]
fn an_overlay_without_actions_returns_the_document() {
    let document = obj(vec![("a", JsonValue::Array(vec![string("x")]))]);
    assert_eq!(apply_overlay(&document, &overlay(vec![])).unwrap(), document);
}

#[test]
fn an_action_with_neither_update_nor_remove_still_checks_its_target() {
    let document = obj(vec![("a", number("1"))]);
    let noop = OverlayAction { target: s("$.a"), update: None, remove: Some(false) };
    assert_eq!(apply_overlay(&document, &overlay(vec![noop])).unwrap(), document);
    let bad = OverlayAction { target: s("$.a[1]"), update: None, remove: None };
    assert!(matches!(apply_overlay(&document, &overlay(vec![bad])), Err(Error::UnsupportedOverlayTarget(_))));
}

#[test]
fn the_input_document_is_left_untouched() {
    let document = obj(vec![("a", number("1"))]);
    let before = document.clone_value();
    let _ = apply_overlay(&document, &overlay(vec![remove("$.a")])).unwrap();
    assert_eq!(document, before);
}

#[test]
fn overlay_info_defaults_to_empty_texts() {
    let info = OverlayInfo::default();
    assert_eq!(info, OverlayInfo { title: String::new(), version: String::new() });
}

#[test]
fn parse_errors_carry_their_source_in_the_message() {
    let json = serde_json::from_str::<i32>("not json").unwrap_err();
    let text = json.to_string();
    assert_eq!(Error::Json(json).to_string(), format!("could not read document: {text}"));
    let yaml = serde_yaml_ng::from_str::<i32>("[unclosed").unwrap_err();
    let text = yaml.to_string();
    assert_eq!(Error::Yaml(yaml).to_string(), format!("could not parse document: {text}"));
}

#[test]
fn repeated_inserts_never_duplicate_a_key() {
    let mut m = JsonMap::new();
    for round in 0..3 {
        for key in ["a", "b", "a", "c", "b"] {
            m.insert(s(key), number(&round.to_string()));
        }
    }
    let order: Vec<String> = m.entries.iter().map(|(k, _)| k.clone()).collect();
    assert_eq!(order, vec![s("a"), s("b"), s("c")]);
    assert_eq!(m.get(&s("c")), Some(&number("2")));
}

#[test]
fn removing_a_key_leaves_its_siblings() {
    let document = obj(vec![("p", obj(vec![("a", number("1")), ("b", number("2")), ("c", number("3"))]))]);
    let result = apply_overlay(&document, &overlay(vec![remove("$.p.b")])).unwrap();
    assert_eq!(result, obj(vec![("p", obj(vec![("a", number("1")), ("c", number("3"))]))]));
}

#[test]
fn cloned_overlays_apply_the_same() {
    let o = overlay(vec![update("$.x", vec![("y", JsonValue::Bool(true))])]);
    let copy = o.clone();
    assert_eq!(copy, o);
    let document = obj(vec![]);
    assert_eq!(apply_overlay(&document, &copy).unwrap(), apply_overlay(&document, &o).unwrap());
}
