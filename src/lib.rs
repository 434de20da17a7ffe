//! Rainbow tables: generation, compressed storage and search of hash preimages
//! over a bounded password space.

pub mod bits;
pub mod chain_map;
pub mod codec;
pub mod compressed;
pub mod ctx;
pub mod error;
pub mod hash;
pub mod kernel;
pub mod sam;
pub mod scheduling;
pub mod search;
pub mod table;

use vstd::prelude::*;

verus! {

/// A password encoded as its counter in the search space of a context.
pub type CompressedPassword = u64;

/// The longest password a context may describe (NTLM doubles it, and the
/// result must fit in one MD4 block).
pub const MAX_PASSWORD_LENGTH_ALLOWED: u8 = 27;

} // verus!
