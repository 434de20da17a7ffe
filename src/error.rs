//! The errors of the library.
use vstd::prelude::*;

verus! {

/// Why building a context, or generating or compressing a table, failed.
#[derive(Clone, Copy, Debug, PartialEq, Eq, Structural)]
pub enum CugparckError {
    /// A stored table does not decode: bad framing, lengths or values.
    Corrupt,
    /// Not enough memory, or room in a bit-vector, to hold the chains.
    OutOfMemory,
    /// The search space holds more than 2^64 passwords; counting them takes
    /// this many bits (128 standing for 128 or more).
    Space(u8),
    /// The maximum password length is above the given limit.
    MaxPasswordLengthExceeded(u8),
    /// The chain length is below 2, or the table number is 0.
    InvalidParameter,
    /// The charset is not a set of 2 to 126 distinct ASCII characters.
    Charset,
}

} // verus!
