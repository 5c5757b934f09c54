# syncables (overlays)

Applies OpenAPI Overlay documents (`update` and `remove` actions whose targets are `$`
followed by dotted keys and quoted bracket keys, such as `$.paths['/pets/{petId}'].get`)
to JSON documents, verified with Verus.

- `src/json.rs` — `JsonValue`, an insertion-ordered JSON value, its model `Json`, and
  the ordered map `JsonMap` (`get`, `insert`, `shift_remove`, ...) with its laws.
- `src/openapi/overlay.rs` — overlay documents, `parse_target`, `apply_overlay`, and the
  spec functions that define what applying an overlay yields.
- `src/openapi/properties.rs` — what holds of every application: updates land at their
  targets and merge additively, removals delete exactly their target, actions compose
  in order, applying a one-action overlay twice changes nothing, and deep merge is
  idempotent. A `JsonValue` can be built with a key twice in one object (its entries
  are public); for a document with distinct keys everywhere and updates with distinct
  keys, `apply_overlay` never produces a repeated key, and the idempotence laws assume
  such inputs.
- `src/error.rs` — the error type and its messages.
- `app/lib.rs` — loading overlays from YAML/JSON files, `serde` copies of the types, and
  conversion between `serde_json::Value` and `JsonValue`.
