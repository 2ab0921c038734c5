//! Schemas in one place: reading one out of a schema document, and checking a
//! document against it.
pub use crate::parse_schema::{parse_schema, parse_schema_internal};
pub use crate::validate_schema::{try_validate, validate};
