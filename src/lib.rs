//! A codec between query strings with dot-delimited keys and nested records.
//!
//! Decoding turns the wire bytes into a tree of [`Level`] nodes, which a
//! [`Deserializer`] then hands out field by field. Encoding collects
//! dot-joined keys and their texts in an [`Encoder`] and joins them into a
//! form-urlencoded string. The module [`laws`] states and proves the round
//! trips between the two.
pub mod deserializer;
pub mod encoder;
pub mod error;
pub mod level;
pub mod parser;
pub mod text;

pub use deserializer::{Deserializer, LevelDeserializer};
pub use encoder::{integer_text, join_items, Encoder};
pub use error::{Conflict, DecodeCause, Error, Shape};
pub use level::Level;
pub use parser::Parser;
pub use text::replace_plus;
pub mod laws;
