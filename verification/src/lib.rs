//! An in-memory entity registry.
//!
//! Records with a sequentially assigned id, a name and an email are created
//! with validation, looked up by id, searched by name substring, and exported
//! to a plain-text representation that parses back to the same records.

pub mod codec;
pub mod error;
pub mod num;
pub mod record;
pub mod registry;
pub mod text;

pub use error::Error;
pub use record::Record;
pub use registry::Registry;
