//! Escaping of XML special characters in attribute values and character data.
pub mod escape;
pub mod utf8_offsets;

pub use escape::{escape_str_attribute, escape_str_pcdata};
