//! Storage schema: column family names and key encodings.
pub mod schema;
