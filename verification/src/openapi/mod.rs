//! OpenAPI documents and the overlays applied to them.

pub mod overlay;
pub mod properties;
