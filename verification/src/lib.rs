//! # KIVI format deserializer
//!
//! KIVI is a simple text format for storing keys with associated values on
//! separate lines: a key stands on one line, its value on the following line.
//! A key or a value may span several lines when it is enclosed in a marker
//! character (by default the quotation mark).
//!
//! ```text
//! host
//! 127.0.0.1
//!
//! port
//! 54321
//! ```
//!
//! `host` and `port` are keys; `127.0.0.1` and `54321` are their values.

pub mod laws;
mod loader;
pub mod model;
pub mod normalize;
pub mod scan;

pub use loader::load_from_string;
pub use loader::load_from_string_markers;
pub use model::KeyValuePairs;
