//! Applies OpenAPI Overlay documents to JSON documents.

pub mod error;
pub mod json;
pub mod openapi;

pub use error::{Error, Result};
pub use json::{Json, JsonMap, JsonValue};
pub use openapi::overlay::{apply_overlay, parse_target, OverlayAction, OverlayDocument, OverlayInfo};
