//! A binary container format for named, multi-dimensional numeric arrays
//! ("tensors"), with a verified serializer and deserializer.
//!
//! A container is written as an 8-byte little-endian header length, the
//! header document (a structured text mapping each tensor name to its dtype,
//! shape and byte range, plus an optional metadata block), and the data
//! section holding every tensor's raw bytes back to back. The header of an
//! incoming buffer is untrusted: it is parsed and validated in full before
//! any view into the data section is handed out, so a hostile or corrupted
//! buffer is rejected with a structured error and never read out of bounds.

pub mod deserialize;
pub mod dtype;
pub mod encoding;
pub mod error;
pub mod laws;
pub mod model;
pub mod parser;
pub mod parsing;
pub mod roundtrip;
pub mod tensor;
pub mod validate;

pub use dtype::Dtype;
pub use error::SafeTensorError;
pub use tensor::{Container, Tensor};
pub use deserialize::{deserialize_borrowed, deserialize_owned, SafeTensors, TensorView};
pub use encoding::{encode_header, serialize};
