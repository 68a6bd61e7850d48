//! A verified codec for a tag-length-value binary serialization format
//! (the JCE/Tars wire format): primitive value encode/decode, a structural
//! scanner, schema-driven and schema-less struct codecs, and an incremental
//! length-prefixed stream framer.

pub mod codec;
pub mod endian;
pub mod error;
pub mod framing;
pub mod laws;
pub mod nums;
pub mod reader;
pub mod scanner;
pub mod schema;
pub mod stream;
pub mod types;
pub mod utf8;
pub mod value;
pub mod wire;
pub mod writer;
