//! The two supported wire versions of the stream framing.

use vstd::prelude::*;

use crate::endian::be32;
use crate::endian::put_u32_be;
use crate::error::Error;

verus! {

/// Denotes different stream versions.
#[derive(Copy, Clone, PartialEq, Eq, Structural, Debug)]
pub enum Version {
    /// Permits the final chunk to be exactly one full chunk.
    One,
    /// Forbids a full final chunk: when the plaintext is an exact multiple
    /// of the chunk size, an empty terminal chunk is appended.
    Two,
}

impl Version {
    /// The numeric value transmitted on the wire.
    pub open spec fn wire_value(self) -> u32 {
        match self {
            Version::One => 1u32,
            Version::Two => 2u32,
        }
    }

    /// Returns the numeric wire value.
    pub fn to_u32(self) -> (r: u32)
        ensures
            r == self.wire_value(),
    {
        match self {
            Version::One => 1u32,
            Version::Two => 2u32,
        }
    }

    /// Converts the version to its big-endian representation.
    pub fn to_bytes(self) -> (r: Vec<u8>)
        ensures
            r@ == be32(self.wire_value()),
            r@.len() == 4,
    {
        put_u32_be(self.to_u32())
    }

    /// Parses a numeric wire value, rejecting anything but the two
    /// supported versions.
    pub fn try_from(v: u32) -> (r: Result<Version, Error>)
        ensures
            v == 1 ==> r == Ok::<Version, Error>(Version::One),
            v == 2 ==> r == Ok::<Version, Error>(Version::Two),
            v != 1 && v != 2 ==> r == Err::<Version, Error>(Error::InvalidVersion(v)),
    {
        if v == 1 {
            Ok(Version::One)
        } else if v == 2 {
            Ok(Version::Two)
        } else {
            Err(Error::InvalidVersion(v))
        }
    }
}

} // verus!
