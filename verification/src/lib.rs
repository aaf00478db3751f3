//! Incremental decoder for the RESP wire protocol.
//!
//! Bytes arrive from a socket in pieces of any size. The [`Decoder`] turns
//! them into replies, one at a time, and gives the same replies however the
//! bytes were cut. [`Parser`] and [`ValueCodec`] drive it for a source that is
//! read on demand and for a buffer that is filled by events.

pub mod buffer;
pub mod builder;
pub mod classify;
pub mod decoder;
pub mod examples;
pub mod grammar;
pub mod parser;
pub mod stream;
pub mod text;
pub mod types;
pub mod wire;

pub use builder::{RedisParser, ValueParser};
pub use decoder::{Decoder, Outcome};
pub use parser::{parse_redis_value, Parser, ValueCodec};
pub use types::{make_extension_error, ErrorKind, ParseFault, RedisError, RedisResult, Value};
