//! Streaming encoder and decoder for the binary format of PostgreSQL's
//! `COPY ... BINARY` bulk transfer.
//!
//! - `wire`: the byte layout of the format and its integer framing.
//! - `reader`: the encoder, which stages one field at a time.
//! - `writer`: the decoder, which takes its input in chunks of any size.
//! - `laws`: what holds of the two together.
//! - `error`: why a stream was refused.
pub mod error;
pub mod laws;
pub mod reader;
pub mod wire;
pub mod writer;

pub use error::CopyError;
pub use reader::BinaryCopyReader;
pub use wire::Field;
pub use writer::{BinaryCopyWriter, WriteValueReader};
