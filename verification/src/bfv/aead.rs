//! The authenticated cipher of the hybrid mode, and the bits of its key.
//!
//! The cipher is ChaCha20-Poly1305. The library does not look into it:
//! what it seals and opens has a name, and the hybrid mode is stated over
//! those names.

use vstd::arithmetic::power2::pow2;
use vstd::prelude::*;

verus! {

/// What ChaCha20-Poly1305 makes of a message under a key and a nonce:
/// the sealed bytes, or nothing where the cipher refuses the message.
pub uninterp spec fn aead_seal(key: Seq<u8>, nonce: Seq<u8>, message: Seq<u8>) -> Option<Seq<u8>>;

/// What ChaCha20-Poly1305 makes of sealed bytes under a key and a nonce:
/// the message, or nothing where the bytes are not authentic.
pub uninterp spec fn aead_open(key: Seq<u8>, nonce: Seq<u8>, sealed: Seq<u8>) -> Option<Seq<u8>>;

/// A fresh key for the cipher.
///
/// Calls `KeyInit::generate_key` of `ChaCha20Poly1305`, which fills 32
/// bytes from the generator. Nothing is claimed of the bytes.
#[verifier::external_body]
pub(crate) fn generate_key(rng: &mut rand_chacha::ChaCha12Rng) -> (key: [u8; 32]) {
    let key = <chacha20poly1305::ChaCha20Poly1305 as chacha20poly1305::KeyInit>::generate_key(rng);
    key.into()
}

/// A fresh nonce for the cipher.
///
/// Calls `AeadCore::generate_nonce` of `ChaCha20Poly1305`, which fills 12
/// bytes from the generator. Nothing is claimed of the bytes.
#[verifier::external_body]
pub(crate) fn generate_nonce(rng: &mut rand_chacha::ChaCha12Rng) -> (nonce: [u8; 12]) {
    let nonce =
        <chacha20poly1305::ChaCha20Poly1305 as chacha20poly1305::AeadCore>::generate_nonce(rng);
    nonce.into()
}

/// Seals a message.
///
/// Calls `Aead::encrypt` of `ChaCha20Poly1305` with the key and the
/// nonce. The contract gives the result its name; the cipher fails only
/// where the message is longer than it can take. It also claims the law
/// of the cipher: what was sealed under a key and a nonce is opened
/// under them, since `Aead::decrypt` computes the same tag over the
/// sealed bytes and takes the same key stream off them.
#[verifier::external_body]
pub(crate) fn seal(key: &[u8; 32], nonce: &[u8; 12], message: &[u8]) -> (sealed: Option<Vec<u8>>)
    ensures
        match sealed {
            Some(bytes) => aead_seal(key@, nonce@, message@) == Some(bytes@) && aead_open(
                key@,
                nonce@,
                bytes@,
            ) == Some(message@),
            None => aead_seal(key@, nonce@, message@) is None,
        },
{
    let cipher = <chacha20poly1305::ChaCha20Poly1305 as chacha20poly1305::KeyInit>::new(key.into());
    match chacha20poly1305::aead::Aead::encrypt(&cipher, nonce.into(), message) {
        Ok(bytes) => Some(bytes),
        Err(_) => None,
    }
}

/// Opens sealed bytes.
///
/// Calls `Aead::decrypt` of `ChaCha20Poly1305` with the key and the
/// nonce. The contract gives the result its name; the cipher fails where
/// the bytes are not authentic under the key and the nonce.
#[verifier::external_body]
pub(crate) fn open(key: &[u8; 32], nonce: &[u8; 12], sealed: &[u8]) -> (message: Option<Vec<u8>>)
    ensures
        match message {
            Some(bytes) => aead_open(key@, nonce@, sealed@) == Some(bytes@),
            None => aead_open(key@, nonce@, sealed@) is None,
        },
{
    let cipher = <chacha20poly1305::ChaCha20Poly1305 as chacha20poly1305::KeyInit>::new(key.into());
    match chacha20poly1305::aead::Aead::decrypt(&cipher, nonce.into(), sealed) {
        Ok(bytes) => Some(bytes),
        Err(_) => None,
    }
}

/// The bits of a key, byte by byte, the least significant bit of a byte first.
///
/// Calls `IntoBitIterator::into_lsb0_vec` of `itybity` on the bytes. The
/// contract claims what its source shows: the bits of the bytes in turn,
/// the bit `i` of a byte being `byte & (1 << i) != 0`.
#[verifier::external_body]
pub(crate) fn key_bits(key: &[u8; 32]) -> (bits: Vec<bool>)
    ensures
        bits@.len() == 256,
        forall|k: int|
            0 <= k < 256 ==> #[trigger] bits@[k] == ((key@[k / 8] as nat / pow2((k % 8) as nat)) % 2
                == 1),
{
    itybity::IntoBitIterator::into_lsb0_vec(*key)
}

} // verus!
