//! Decoders and encoders for the pages of a columnar file format: bit-packed
//! and run-length streams, dictionary pages, delta and byte-stream-split
//! columns, bloom filters, and a secondary index built from them.
//!
//! Every executable function carries a contract over mathematical models
//! (sequences of bytes, of indices, of values). Every contract is proved, but
//! for those of the small wrappers around calls into outside crates and `std`.
//! Functions whose names start with `law_` state what holds of several functions
//! together; in the modules whose names end in `_laws` they say above all what is
//! read back of streams as a writer lays them out.

pub mod adaptive;
pub mod bitpack;
pub mod bitpack_avx2;
pub mod bitpack_kernels;
pub mod bitpack_neon;
pub mod bits;
pub mod bloom;
pub mod byte_stream_split;
pub mod column;
pub mod compression;
pub mod cursor;
pub mod delta;
pub mod delta_laws;
pub mod dict;
pub mod downcast;
pub mod encrypted;
pub mod error;
pub mod hash_laws;
pub mod hybrid_laws;
pub mod index;
pub mod levels;
pub mod packing_laws;
pub mod page_index;
pub mod parallel;
pub mod plain;
pub mod rle;
pub mod schema;
pub mod text;
pub mod thrift;
pub mod thrift_laws;
pub mod wrap;

pub use error::{CodecError, Result};
