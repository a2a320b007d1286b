//! Projection and serialization of typed columnar records.
//!
//! A self-describing, dynamically typed record (scalars, nested groups,
//! lists, maps) is mapped to a JSON value tree under caller-configured
//! pruning rules, and the tree is rendered either as one compact JSON
//! object per line or as CSV cells with nested values embedded as JSON
//! text.

pub mod convert;
pub mod csv_out;
pub mod decimal;
pub mod json;
pub mod numfmt;
pub mod project;
pub mod settings;
pub mod times;
pub mod value;

pub use settings::{Settings, TimestampRendering};
