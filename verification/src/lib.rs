//! Decoding of flat key/value pair lists (the shape of a parsed HTTP query
//! string) into structured values, one record deep.
//!
//! The library owns the value store (an ordered mapping from key to the queue
//! of values that arrived under it), the traversal state machine that guards
//! against shapes a flat key space cannot represent, and the scalar parsers.
//! A thin unverified layer elsewhere plugs these operations into a generic
//! serialization framework.

pub mod engine;
pub mod error;
pub mod laws;
pub mod model;
pub mod order;
pub mod query;
pub mod scalar;
pub mod store;

pub use engine::VariantShape;
pub use engine::confirm_unit_variant;
pub use error::Error;
pub use scalar::parse_bool;
pub use scalar::parse_signed;
pub use scalar::parse_unsigned;
pub use store::Deserializer;
