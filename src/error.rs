use vstd::prelude::*;
use vstd::string::StringExecFns;

verus! {

/// Why a compression or decompression call failed; each variant carries a
/// message for people.
#[derive(Clone, Debug, PartialEq, Eq)]
pub enum CompressionError {
    /// The identifiers handed to the compressor are not a valid set: not
    /// strictly increasing, or one of them is not below the universe size.
    InvalidInput(String),
    /// The bytes are not a valid encoding of a set in the given universe.
    DecompressionFailed(String),
}

/// `before`, the decimal digits of `x`, `between`, the decimal digits of `y`.
fn describe(before: &str, x: u64, between: &str, y: u64) -> String {
    let mut message = String::from_str(before);
    message.append(x.to_string().as_str());
    message.append(between);
    message.append(y.to_string().as_str());
    message
}

impl CompressionError {
    /// An identifier that is not above the one before it.
    pub(crate) fn out_of_order(id: u32, previous: u32) -> (r: Self)
        ensures
            r is InvalidInput,
    {
        CompressionError::InvalidInput(
            describe("IDs must be sorted and unique, found ", id as u64, " <= ", previous as u64),
        )
    }

    /// An identifier handed to the compressor that is not below the universe size.
    pub(crate) fn id_outside_universe(id: u32, universe_size: u32) -> (r: Self)
        ensures
            r is InvalidInput,
    {
        CompressionError::InvalidInput(
            describe("ID ", id as u64, " exceeds universe size ", universe_size as u64),
        )
    }

    /// A decoded identifier that is not below the universe size.
    pub(crate) fn decoded_outside_universe(id: u64, universe_size: u32) -> (r: Self)
        ensures
            r is DecompressionFailed,
    {
        CompressionError::DecompressionFailed(
            describe("ID ", id, " exceeds universe size ", universe_size as u64),
        )
    }

    /// A decoding failure with a fixed message.
    pub(crate) fn malformed(message: &str) -> (r: Self)
        ensures
            r is DecompressionFailed,
    {
        CompressionError::DecompressionFailed(String::from_str(message))
    }

    /// Bytes left over after the declared number of identifiers.
    pub(crate) fn trailing_bytes(count: usize) -> (r: Self)
        ensures
            r is DecompressionFailed,
    {
        let mut message = String::from_str("Extra data after decompression: ");
        message.append(count.to_string().as_str());
        message.append(" bytes");
        CompressionError::DecompressionFailed(message)
    }
}

} // verus!
