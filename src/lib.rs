//! Order-preserving binary embeddings.
//!
//! A value is turned into a byte string whose unsigned lexicographic order is
//! the order of the values themselves. Fixed-width types (booleans,
//! characters, integers) map to exactly as many bytes as their width;
//! variable-width types (strings, tuples) are built from escaped, terminated
//! fields that can be concatenated and split apart again.

mod interface;
pub mod order;
pub mod escape;
mod helper;
pub mod implementations;
pub mod laws;

pub use interface::{DecodeError, FixedSize, FixedSizeEmbedding, Sealed, VariableSize, VariableSizeEmbedding};
pub use helper::{VariableSizeEmbeddingDecoder, VariableSizeEmbeddingEncoder};
