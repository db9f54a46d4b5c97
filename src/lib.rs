//! Compression of sets of integer identifiers drawn from a bounded universe.
//!
//! A set is given as a strictly increasing sequence of `u32` identifiers, all
//! below a caller-supplied universe size. It is stored as a count, the first
//! identifier and the gaps between successive identifiers, each written as a
//! little-endian base-128 varint.
use vstd::prelude::*;

mod error;
pub mod varint;
pub mod encoding;
mod roc;
pub mod ans;

pub use ans::{AnsDecoder, AnsEncoder};
pub use error::CompressionError;
pub use roc::{RocCompressor, DEFAULT_ANS_PRECISION};

verus! {

/// Encoding strategy that a caller may record beside a compressed payload.
#[derive(Clone, Debug, PartialEq, Eq, Structural)]
pub enum IdCompressionMethod {
    /// No compression (uncompressed storage).
    Uncompressed,
    /// Elias-Fano encoding (reserved).
    EliasFano,
    /// Delta and varint encoding of the gaps between identifiers.
    Roc,
    /// Wavelet tree (reserved).
    WaveletTree,
}

impl Default for IdCompressionMethod {
    fn default() -> (r: Self)
        ensures
            r == IdCompressionMethod::Uncompressed,
    {
        IdCompressionMethod::Uncompressed
    }
}

} // verus!
