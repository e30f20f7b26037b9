//! The parser-combinator engine and the JSON grammar built from it.

pub mod errors;
pub mod impls;
pub mod json;
pub mod traits;
