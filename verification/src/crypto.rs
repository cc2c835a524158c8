//! Trusted bindings to the cryptographic primitives.
//!
//! The AEAD is XChaCha20-Poly1305 and the key derivation is HKDF-SHA256.
//! Both are deterministic functions of their inputs, far too large to
//! state; their outputs are therefore given names, one byte at a time, and
//! the wrappers below relate each call to those names. The CSPRNG is bound
//! as a function about whose output nothing is assumed but its length.

use vstd::prelude::*;

use crate::error::Error;
use chacha20poly1305::aead::AeadInPlace;
use chacha20poly1305::Key;
use chacha20poly1305::KeyInit;
use chacha20poly1305::Tag;
use chacha20poly1305::XChaCha20Poly1305;
use chacha20poly1305::XNonce;
use hkdf::Hkdf;
use rand_core::OsRng;
use rand_core::RngCore;
use sha2::Sha256;

verus! {

/// The AEAD's key size in bytes.
pub const KEY_SIZE: usize = 32;

/// The AEAD's nonce size in bytes.
pub const NONCE_SIZE: usize = 24;

/// The AEAD's tag size in bytes.
pub const TAG_SIZE: usize = 16;

/// Byte `i` of the XChaCha20 ciphertext of `pt` under `key` and `nonce`.
pub uninterp spec fn ct_byte(key: Seq<u8>, nonce: Seq<u8>, pt: Seq<u8>, i: int) -> u8;

/// Byte `i` of the Poly1305 tag over associated data `ad` and ciphertext
/// `ct` under `key` and `nonce`.
pub uninterp spec fn tag_byte(key: Seq<u8>, nonce: Seq<u8>, ad: Seq<u8>, ct: Seq<u8>, i: int) -> u8;

/// Byte `i` of the XChaCha20 decryption of `ct` under `key` and `nonce`.
pub uninterp spec fn pt_byte(key: Seq<u8>, nonce: Seq<u8>, ct: Seq<u8>, i: int) -> u8;

/// Byte `i` of the HKDF-SHA256 output for `(ikm, salt, info)`.
pub uninterp spec fn kdf_byte(ikm: Seq<u8>, salt: Seq<u8>, info: Seq<u8>, i: int) -> u8;

/// The XChaCha20 ciphertext of `pt` under `key` and `nonce`: as long as
/// the plaintext, since the cipher XORs a keystream over it.
pub open spec fn ct_of(key: Seq<u8>, nonce: Seq<u8>, pt: Seq<u8>) -> Seq<u8> {
    Seq::new(pt.len(), |i: int| ct_byte(key, nonce, pt, i))
}

/// The 16-byte Poly1305 tag over `ad` and `ct` under `key` and `nonce`.
pub open spec fn tag_of(key: Seq<u8>, nonce: Seq<u8>, ad: Seq<u8>, ct: Seq<u8>) -> Seq<u8> {
    Seq::new(TAG_SIZE as nat, |i: int| tag_byte(key, nonce, ad, ct, i))
}

/// The XChaCha20 decryption of `ct` under `key` and `nonce`: as long as
/// the ciphertext.
pub open spec fn pt_of(key: Seq<u8>, nonce: Seq<u8>, ct: Seq<u8>) -> Seq<u8> {
    Seq::new(ct.len(), |i: int| pt_byte(key, nonce, ct, i))
}

/// The 32-byte per-stream key HKDF-SHA256 derives from `(ikm, salt,
/// info)`.
pub open spec fn derived_key(ikm: Seq<u8>, salt: Seq<u8>, info: Seq<u8>) -> Seq<u8> {
    Seq::new(KEY_SIZE as nat, |i: int| kdf_byte(ikm, salt, info, i))
}

/// Whether a buffer of `n` bytes is within the cipher's length bound.
/// The 32-bit block counter starts at one — block zero keys the MAC — so
/// the `ceil(n / 64)` keystream blocks a buffer needs must fit in the
/// remaining `2^32 - 2`; past that the cipher stops rather than reuse a
/// block.
pub open spec fn aead_len_ok(n: nat) -> bool {
    (n + 63) / 64 < 0xffffffff
}

/// Relies on `hkdf::Hkdf::<Sha256>::new` and `Hkdf::expand`: the output
/// key is a deterministic function of `(ikm, salt, info)`, and expanding
/// to 32 bytes is within HKDF's `255 * 32` byte bound, so it cannot fail.
#[verifier::external_body]
pub(crate) fn hkdf_derive(ikm: &[u8], salt: &[u8], info: &[u8]) -> (r: Vec<u8>)
    ensures
        r@ == derived_key(ikm@, salt@, info@),
        forall|i: int| 0 <= i < r@.len() ==> r@[i] == kdf_byte(ikm@, salt@, info@, i),
{
    let kdf = Hkdf::<Sha256>::new(Some(salt), ikm);
    let mut okm = [0u8; 32];
    let _ = kdf.expand(info, &mut okm);
    okm.to_vec()
}

/// Relies on `XChaCha20Poly1305::new` and
/// `AeadInPlace::encrypt_in_place_detached`: within the cipher's length
/// bound — which the caller must stay inside, since beyond it the
/// keystream either is refused or panics rather than wrap — encryption
/// succeeds, the ciphertext is the keystream XOR of the plaintext (same
/// length), and the detached tag is Poly1305 over the associated data
/// and the ciphertext.
#[verifier::external_body]
pub(crate) fn aead_seal(key: &[u8], nonce: &[u8], ad: &[u8], pt: Vec<u8>) -> (r: Result<
    (Vec<u8>, Vec<u8>),
    Error,
>)
    requires
        key@.len() == KEY_SIZE,
        nonce@.len() == NONCE_SIZE,
        aead_len_ok(pt@.len()),
    ensures
        r is Ok,
        r matches Ok((ct, tag)) ==> {
            &&& ct@ == ct_of(key@, nonce@, pt@)
            &&& tag@ == tag_of(key@, nonce@, ad@, ct@)
            &&& forall|i: int| 0 <= i < ct@.len() ==> ct@[i] == ct_byte(key@, nonce@, pt@, i)
            &&& forall|i: int|
                0 <= i < tag@.len() ==> tag@[i] == tag_byte(key@, nonce@, ad@, ct@, i)
        },
        r matches Err(e) ==> e is Encryption,
{
    let cipher = XChaCha20Poly1305::new(Key::from_slice(key));
    let mut buf = pt;
    match cipher.encrypt_in_place_detached(XNonce::from_slice(nonce), ad, &mut buf) {
        Ok(tag) => Ok((buf, tag.to_vec())),
        Err(_) => Err(Error::Encryption),
    }
}

/// Relies on `XChaCha20Poly1305::new` and
/// `AeadInPlace::decrypt_in_place_detached`: within the cipher's length
/// bound — which the caller must stay inside, since past it a verified
/// buffer's keystream application panics rather than wrap — decryption
/// succeeds exactly when the offered tag is Poly1305 over the associated
/// data and the ciphertext; the plaintext it then returns is the
/// keystream XOR of the ciphertext, which inverts encryption under the
/// same key and nonce.
#[verifier::external_body]
pub(crate) fn aead_open(key: &[u8], nonce: &[u8], ad: &[u8], ct: Vec<u8>, tag: &[u8]) -> (r: Result<
    Vec<u8>,
    Error,
>)
    requires
        key@.len() == KEY_SIZE,
        nonce@.len() == NONCE_SIZE,
        tag@.len() == TAG_SIZE,
        aead_len_ok(ct@.len()),
    ensures
        r is Ok <==> tag@ == tag_of(key@, nonce@, ad@, ct@),
        r matches Ok(pt) ==> {
            &&& tag@ == tag_of(key@, nonce@, ad@, ct@)
            &&& pt@ == pt_of(key@, nonce@, ct@)
            &&& forall|i: int| 0 <= i < pt@.len() ==> pt@[i] == pt_byte(key@, nonce@, ct@, i)
            &&& forall|p: Seq<u8>| pt_of(key@, nonce@, #[trigger] ct_of(key@, nonce@, p)) == p
        },
        r matches Err(e) ==> e is Authentication,
{
    let cipher = XChaCha20Poly1305::new(Key::from_slice(key));
    let mut buf = ct;
    match cipher.decrypt_in_place_detached(
        XNonce::from_slice(nonce),
        ad,
        &mut buf,
        Tag::from_slice(tag),
    ) {
        Ok(()) => Ok(buf),
        Err(_) => Err(Error::Authentication),
    }
}

/// Relies on `rand_core::OsRng::try_fill_bytes`: on success the buffer is
/// filled with bytes from the operating system's CSPRNG; nothing is
/// assumed about their values.
#[verifier::external_body]
pub(crate) fn fill_random(n: usize) -> (r: Result<Vec<u8>, Error>)
    ensures
        r matches Ok(v) ==> v@.len() == n,
        r matches Err(e) ==> e is Rand,
{
    let mut v = vec![0u8; n];
    match OsRng.try_fill_bytes(&mut v) {
        Ok(()) => Ok(v),
        Err(_) => Err(Error::Rand),
    }
}

} // verus!
