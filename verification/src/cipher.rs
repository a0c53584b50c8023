//! Authenticated encryption, ChaCha20-Poly1305 without associated data.
use chacha20poly1305::aead::{Aead, KeyInit};
use vstd::prelude::*;

verus! {

broadcast use vstd::array::group_array_axioms;

/// What ChaCha20-Poly1305 of `chacha20poly1305` encrypts a plaintext to: the ciphertext followed
/// by the tag.
pub uninterp spec fn aead_sealed(key: Seq<u8>, nonce: Seq<u8>, plaintext: Seq<u8>) -> Seq<u8>;

/// What ChaCha20-Poly1305 of `chacha20poly1305` decrypts a ciphertext with its tag to.
pub uninterp spec fn aead_opened(key: Seq<u8>, nonce: Seq<u8>, ciphertext: Seq<u8>) -> Option<Seq<u8>>;

/// `ChaCha20Poly1305::encrypt` of `chacha20poly1305`. The tag takes 16 bytes, and decrypting
/// under the same key and nonce gives the plaintext back. Encryption fails only for messages of
/// about 256 GiB.
#[verifier::external_body]
pub(crate) fn aead_seal(key: &[u8; 32], nonce: &[u8; 12], plaintext: &[u8]) -> (r: Vec<u8>)
    requires
        plaintext@.len() <= 0x1_0000,
    ensures
        r@ == aead_sealed(key@, nonce@, plaintext@),
        r@.len() == plaintext@.len() + 16,
        aead_opened(key@, nonce@, r@) == Some(plaintext@),
{
    let cipher = chacha20poly1305::ChaCha20Poly1305::new(key.into());
    cipher.encrypt(nonce.into(), plaintext).unwrap()
}

/// `ChaCha20Poly1305::decrypt` of `chacha20poly1305`: `None` if the tag does not match. The
/// plaintext is 16 bytes shorter than the ciphertext with its tag.
#[verifier::external_body]
pub(crate) fn aead_open(key: &[u8; 32], nonce: &[u8; 12], ciphertext: &[u8]) -> (r: Option<Vec<u8>>)
    requires
        ciphertext@.len() <= 0x1_0000,
    ensures
        r is None ==> aead_opened(key@, nonce@, ciphertext@) is None,
        r matches Some(p) ==> aead_opened(key@, nonce@, ciphertext@) == Some(p@),
        r matches Some(p) ==> p@.len() + 16 == ciphertext@.len(),
{
    let cipher = chacha20poly1305::ChaCha20Poly1305::new(key.into());
    cipher.decrypt(nonce.into(), ciphertext).ok()
}

} // verus!
