//! Contract-ABI parameter codec: type-string parsing, value tokenization,
//! head/tail binary encoding and decoding, token formatting, and signature
//! building with 4-byte method selectors.

pub mod api;
pub mod codec;
pub mod decode;
pub mod entry;
pub mod format;
pub mod outside;
pub mod parse;
pub mod token;
pub mod tokenize;
pub mod types;
pub mod words;


