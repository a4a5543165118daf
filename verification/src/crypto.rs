//! The cryptographic values that the election carries along.
//!
//! Keys, digests and signatures are opaque to the election: it compares keys and moves the
//! rest. A 32-byte value is held as its two big-endian halves, a 64-byte signature as its
//! two 32-byte components.
use vstd::prelude::*;

verus! {

/// The public key of a replica, by which it is known.
#[derive(Clone, Copy, Debug, PartialEq, Eq, Hash, Structural)]
pub struct PublicKey {
    pub high: u128,
    pub low: u128,
}

/// The digest of a block.
#[derive(Clone, Copy, Debug, PartialEq, Eq, Hash, Structural)]
pub struct Digest {
    pub high: u128,
    pub low: u128,
}

/// A signature.
#[derive(Clone, Copy, Debug, PartialEq, Eq, Hash, Structural)]
pub struct Signature {
    pub r_high: u128,
    pub r_low: u128,
    pub s_high: u128,
    pub s_low: u128,
}

} // verus!
