//! The error type returned by this crate.

use vstd::prelude::*;

verus! {

/// An arbitrary error carried by [`Error::Other`], described by a message.
#[derive(Debug, Clone)]
pub struct OtherError {
    msg: String,
}

impl OtherError {
    /// Wraps an arbitrary error message.
    pub fn new(msg: String) -> (r: OtherError)
        ensures
            r.message_spec() == msg@,
    {
        OtherError { msg }
    }

    /// The wrapped message.
    pub closed spec fn message_spec(&self) -> Seq<char> {
        self.msg@
    }

    /// Returns the wrapped message.
    pub fn message(&self) -> (r: &String)
        ensures
            r@ == self.message_spec(),
    {
        &self.msg
    }
}

/// Error is the error type returned by this crate.
#[derive(Debug, Clone)]
pub enum Error {
    /// The version in the stream's header is invalid.
    InvalidVersion(u32),
    /// The requested key size is larger than HKDF's upper bound.
    InvalidKeySize,
    /// The ciphertext could not be authenticated.
    Authentication,
    /// The AEAD refused to encrypt (the chunk is too long).
    Encryption,
    /// The CSPRNG failed.
    Rand,
    /// Too many chunks were written and the counter would wrap.
    CounterOverflow,
    /// The entire buffer could not be written; holds the number of bytes
    /// that were written.
    ShortWrite(usize),
    /// Unexpected EOF while reading; holds the number of bytes read.
    UnexpectedEof(usize),
    /// Some other error occurred.
    Other(OtherError),
}

} // verus!
