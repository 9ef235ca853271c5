//! A JSON parser: a tokenizer, a two-pass parser over its tokens, a
//! single-pass parser over bytes, and a value type with compact serialization.

pub mod agreement;
pub mod error;
pub mod laws;
pub mod lexical;
pub mod parser;
pub mod properties;
pub mod stream;
pub mod text;
pub mod tokenizer;
pub mod value;

pub use error::JsonError;
pub use parser::{parse_json, JsonParser};
pub use value::{JsonObject, JsonValue};
