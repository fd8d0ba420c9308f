//! A library for run-length encoded (RLE) sequences of characters.
//!
//! A [`Table`] assigns a stable index to every distinct character it has
//! seen. Sequences of characters are encoded as runs `(index, length)`,
//! and runs can be packed further into a compact byte format: each record
//! is one or two bytes, the low bit of the first byte telling whether an
//! explicit length byte follows.
//!
//! The scheme works for any totally ordered element type; this crate
//! fixes the element type to `char` — a scalar whose total order the
//! verifier can reason about — ordered by Unicode scalar value. The
//! design carries over to other ordered element types unchanged.

use vstd::prelude::*;

mod bytes_decoder;
mod bytes_encoder;
mod bytes_encoder_mut;
mod decoder;
mod encoder;
mod encoder_mut;
mod error;
pub mod hex;
pub mod laws;
pub mod model;
mod table;

pub use bytes_decoder::BytesDecoder;
pub use bytes_encoder::BytesEncoder;
pub use bytes_encoder_mut::BytesEncoderMut;
pub use decoder::Decoder;
pub use encoder::Encoder;
pub use encoder_mut::EncoderMut;
pub use error::Error;
pub use table::{SortedTableIter, Table, TableIter};

verus! {

/// A table index: the position of an element in insertion order.
pub type Index = usize;

} // verus!
