//! Online authenticated encryption of byte streams (OAE2 STREAM).
//!
//! A stream is encrypted in one left-to-right pass, chunk by chunk. Each
//! chunk is sealed with XChaCha20-Poly1305 under a per-stream key derived
//! via HKDF-SHA256, with a nonce made of a random per-stream prefix, a
//! big-endian chunk counter, and an end-of-stream flag byte. The explicit
//! end-of-stream signal resists truncation; the counter resists
//! reordering and duplication.

use vstd::prelude::*;

pub mod buf;
pub mod crypto;
pub mod endian;
pub mod error;
pub mod io;
pub mod reader;
pub mod version;
pub mod wire;
pub mod writer;

pub use error::Error;
pub use error::OtherError;
pub use io::Read;
pub use io::Write;
pub use reader::decrypt_to_vec;
pub use reader::Reader;
pub use reader::ReaderOpts;
pub use version::Version;
pub use writer::encrypt_to_vec;
pub use writer::size;
pub use writer::Writer;
pub use writer::WriterOpts;

verus! {

/// The default chunk size used by the reader and the writer.
pub const DEFAULT_CHUNK_SIZE: usize = 65536;

} // verus!
