use syncables::{apply_overlay, JsonMap, JsonValue};
use syncables::{OverlayAction, OverlayDocument, OverlayInfo};

fn s(text: &str) -> String {
    text.to_string()
}

fn map(entries: Vec<(&str, JsonValue)>) -> JsonMap {
    let mut m = JsonMap::new();
    for (k, v) in entries {
        m.insert(s(k), v);
    }
    m
}

fn obj(entries: Vec<(&str, JsonValue)>) -> JsonValue {
    JsonValue::Object(map(entries))
}

fn string(text: &str) -> JsonValue {
    JsonValue::String(s(text))
}

fn at<'a>(value: &'a JsonValue, path: &[&str]) -> Option<&'a JsonValue> {
    let mut node = value;
    for key in path {
        node = node.get(&s(key))?;
    }
    Some(node)
}


fn update(target: &str, entries: Vec<(&str, JsonValue)>) -> OverlayAction {
    OverlayAction { target: s(target), update: Some(map(entries)), remove: None }
}

fn remove(target: &str) -> OverlayAction {
    OverlayAction { target: s(target), update: None, remove: Some(true) }
}

fn overlay(actions: Vec<OverlayAction>) -> OverlayDocument {
    OverlayDocument {
        overlay: s("1.0.0"),
        info: OverlayInfo { title: s("test"), version: s("1.0.0") },
        actions,
    }
}

#[test]
fn deep_merges_an_update_onto_its_target() {
    let document = obj(vec![(
        "components",
        obj(vec![("schemas", obj(vec![("Pet", obj(vec![("type", string("object"))]))]))]),
    )]);
    let result = apply_overlay(
        &document,
        &overlay(vec![update(
            "$.components",
            vec![("paginationSchemes", obj(vec![("byPage", obj(vec![("type", string("pageNumber"))]))]))],
        )]),
    )
    .expect("overlay applies");

    assert_eq!(
        at(&result, &["components", "paginationSchemes", "byPage", "type"]),
        Some(&string("pageNumber"))
    );
    // The merge is additive: what was already there survives.
    assert_eq!(at(&result, &["components", "schemas", "Pet", "type"]), Some(&string("object")));
}

#[test]
fn creates_missing_intermediate_objects() {
    let document = obj(vec![]);
    let result = apply_overlay(
        &document,
        &overlay(vec![update(
            "$.components.schemas",
            vec![("Pet", obj(vec![("type", string("object"))]))],
        )]),
    )
    .expect("overlay applies");
    assert_eq!(at(&result, &["components", "schemas", "Pet", "type"]), Some(&string("object")));
}

#[test]
fn removes_a_target() {
    let document =
        obj(vec![("components", obj(vec![("schemas", obj(vec![("Pet", obj(vec![]))]))]))]);
    let result = apply_overlay(&document, &overlay(vec![remove("$.components.schemas")]))
        .expect("overlay applies");
    assert!(result.get(&s("components")).unwrap().get(&s("schemas")).is_none());
}

#[test]
fn rejects_targets_outside_the_supported_subset() {
    let document = obj(vec![]);
    let error = apply_overlay(&document, &overlay(vec![update("$.paths[*].get", vec![])]))
        .expect_err("wildcard targets are unsupported");
    assert!(error.to_string().contains("unsupported overlay target"));
}

#[test]
fn refuses_to_remove_the_document_root() {
    let document = obj(vec![]);
    let error = apply_overlay(&document, &overlay(vec![remove("$")]))
        .expect_err("the root cannot be removed");
    assert!(error.to_string().contains("document root"));
}

