//! The cryptographic primitives of the mesh, computed by outside crates on plain bytes.
//!
//! What each primitive returns is a function of its arguments and has a name here; beside the
//! names stand the facts that the protocol relies on.

use base64::prelude::BASE64_STANDARD;
use base64::Engine;
use chacha20poly1305::aead::OsRng;
use chacha20poly1305::{AeadInPlace, ChaCha20Poly1305, Key, KeyInit, Nonce};
use ed25519_dalek::{Signature, Signer, SigningKey, Verifier, VerifyingKey};
use vstd::prelude::*;
use x25519_dalek::{PublicKey, StaticSecret};

verus! {

/// How many bytes a sealed message is longer than its plain text.
pub const TAG_LEN: usize = 16;

/// Whether a message of `len` bytes has few enough blocks to be sealed or opened.
pub open spec fn sealable(len: nat) -> bool {
    len / 64 < 0xffff_ffff
}

/// Whether the key stream is long enough for a message of `len` bytes. The key stream ends one
/// block before messages are refused for their size.
pub open spec fn within_key_stream(len: nat) -> bool {
    len <= 64 * 0xffff_fffe
}

/// What ChaCha20-Poly1305 makes of `plain` under a key, a nonce and associated data.
pub uninterp spec fn chacha20poly1305_sealed(
    key: Seq<u8>,
    nonce: Seq<u8>,
    associated: Seq<u8>,
    plain: Seq<u8>,
) -> Seq<u8>;

/// What ChaCha20-Poly1305 opens of `sealed` under a key, a nonce and associated data; `None` where
/// the message is not authentic.
pub uninterp spec fn chacha20poly1305_opened(
    key: Seq<u8>,
    nonce: Seq<u8>,
    associated: Seq<u8>,
    sealed: Seq<u8>,
) -> Option<Seq<u8>>;

/// Seals a message with `chacha20poly1305::AeadInPlace::encrypt_in_place`.
///
/// The result is a function of the arguments and is longer than the message by the tag. Only a
/// message with too many blocks is refused.
#[verifier::external_body]
pub(crate) fn seal(key: &[u8; 32], nonce: &[u8; 12], associated: &[u8], plain: &[u8]) -> (r: Option<
    Vec<u8>,
>)
    requires
        within_key_stream(plain@.len()) || !sealable(plain@.len()),
    ensures
        r is Some <==> sealable(plain@.len()),
        r matches Some(sealed) ==> sealed@ == chacha20poly1305_sealed(
            key@,
            nonce@,
            associated@,
            plain@,
        ) && sealed@.len() == plain@.len() + TAG_LEN,
{
    let mut buffer = plain.to_vec();
    let cipher = ChaCha20Poly1305::new(Key::from_slice(key));
    match cipher.encrypt_in_place(Nonce::from_slice(nonce), associated, &mut buffer) {
        Ok(()) => Some(buffer),
        Err(_) => None,
    }
}

/// Opens a message with `chacha20poly1305::AeadInPlace::decrypt_in_place`.
///
/// The result is a function of the arguments and is shorter than the sealed message by the tag.
/// What was sealed under the same key, nonce and associated data is opened again.
#[verifier::external_body]
pub(crate) fn unseal(key: &[u8; 32], nonce: &[u8; 12], associated: &[u8], sealed: &[u8]) -> (r: Option<
    Vec<u8>,
>)
    requires
        sealed@.len() >= TAG_LEN,
        within_key_stream((sealed@.len() - TAG_LEN) as nat) || !sealable(
            (sealed@.len() - TAG_LEN) as nat,
        ),
    ensures
        r matches Some(plain) ==> chacha20poly1305_opened(key@, nonce@, associated@, sealed@)
            == Some(plain@) && plain@.len() + TAG_LEN == sealed@.len(),
        r is None ==> chacha20poly1305_opened(key@, nonce@, associated@, sealed@) is None,
        forall|plain: Seq<u8>|
            within_key_stream(plain.len()) && sealed@ == #[trigger] chacha20poly1305_sealed(
                key@,
                nonce@,
                associated@,
                plain,
            ) ==> r is Some && r.unwrap()@ == plain,
{
    let mut buffer = sealed.to_vec();
    let cipher = ChaCha20Poly1305::new(Key::from_slice(key));
    match cipher.decrypt_in_place(Nonce::from_slice(nonce), associated, &mut buffer) {
        Ok(()) => Some(buffer),
        Err(_) => None,
    }
}

/// The X25519 public key of a secret.
pub uninterp spec fn x25519_public(secret: Seq<u8>) -> Seq<u8>;

/// The X25519 secret that the owner of `secret` shares with the owner of a public key.
pub uninterp spec fn x25519_shared(secret: Seq<u8>, public: Seq<u8>) -> Seq<u8>;

/// Draws a secret with `x25519_dalek::StaticSecret::random_from_rng` from the generator of the
/// operating system; nothing is claimed of it.
#[verifier::external_body]
pub(crate) fn random_secret() -> (secret: [u8; 32]) {
    StaticSecret::random_from_rng(OsRng).to_bytes()
}

/// Computes a public key with `x25519_dalek::PublicKey::from`; it is a function of the secret.
#[verifier::external_body]
pub(crate) fn x25519_public_key(secret: &[u8; 32]) -> (public: [u8; 32])
    ensures
        public@ == x25519_public(secret@),
{
    PublicKey::from(&StaticSecret::from(*secret)).to_bytes()
}

/// Computes a shared secret with `x25519_dalek::StaticSecret::diffie_hellman`.
///
/// The result is a function of the arguments. The owner of the public key computes the same from
/// the public key of this secret.
#[verifier::external_body]
pub(crate) fn x25519_shared_secret(secret: &[u8; 32], public: &[u8; 32]) -> (shared: [u8; 32])
    ensures
        shared@ == x25519_shared(secret@, public@),
        forall|theirs: Seq<u8>|
            theirs.len() == 32 && public@ == #[trigger] x25519_public(theirs) ==> shared@
                == x25519_shared(theirs, x25519_public(secret@)),
{
    StaticSecret::from(*secret).diffie_hellman(&PublicKey::from(*public)).to_bytes()
}

/// The Ed25519 public key of a secret.
pub uninterp spec fn ed25519_public(secret: Seq<u8>) -> Seq<u8>;

/// Whether the bytes are an Ed25519 public key, or why not.
pub uninterp spec fn ed25519_decoded(bytes: Seq<u8>) -> Result<(), Seq<char>>;

/// The Ed25519 signature of a message under a secret.
pub uninterp spec fn ed25519_signature(secret: Seq<u8>, message: Seq<u8>) -> Seq<u8>;

/// Whether `public` is an Ed25519 public key and the signature of the message is valid under it.
pub uninterp spec fn ed25519_valid(
    public: Seq<u8>,
    message: Seq<u8>,
    signature: Seq<u8>,
) -> bool;

/// Success, or the words of an error.
pub open spec fn unit_or_words(r: Result<(), String>) -> Result<(), Seq<char>> {
    match r {
        Ok(_) => Ok(()),
        Err(error) => Err(error@),
    }
}

/// Computes a public key with `ed25519_dalek::SigningKey::verifying_key`; it is a function of the
/// secret and decodes.
#[verifier::external_body]
pub(crate) fn ed25519_public_key(secret: &[u8; 32]) -> (public: [u8; 32])
    ensures
        public@ == ed25519_public(secret@),
        ed25519_decoded(public@) is Ok,
{
    SigningKey::from_bytes(secret).verifying_key().to_bytes()
}

/// Decodes a public key with `ed25519_dalek::VerifyingKey::from_bytes`; whether that succeeds, and
/// the words of the error, are a function of the bytes.
#[verifier::external_body]
pub(crate) fn ed25519_decode(bytes: &[u8; 32]) -> (r: Result<(), String>)
    ensures
        ed25519_decoded(bytes@) == unit_or_words(r),
{
    match VerifyingKey::from_bytes(bytes) {
        Ok(_) => Ok(()),
        Err(error) => Err(error.to_string()),
    }
}

/// Signs a message with `ed25519_dalek::Signer::sign`; the signature is a function of the secret
/// and the message.
#[verifier::external_body]
pub(crate) fn ed25519_sign(secret: &[u8; 32], message: &[u8]) -> (signature: [u8; 64])
    ensures
        signature@ == ed25519_signature(secret@, message@),
{
    SigningKey::from_bytes(secret).sign(message).to_bytes()
}

/// Checks a signature with `ed25519_dalek::Verifier::verify`, under the key that
/// `ed25519_dalek::VerifyingKey::from_bytes` makes of the bytes.
///
/// The result is a function of the arguments; bytes that are no key verify nothing. A signature that was made with the secret of the
/// public key is valid.
#[verifier::external_body]
pub(crate) fn ed25519_verify(public: &[u8; 32], message: &[u8], signature: &[u8; 64]) -> (r: bool)
    ensures
        r == ed25519_valid(public@, message@, signature@),
        ed25519_decoded(public@) is Err ==> !r,
        forall|secret: Seq<u8>|
            secret.len() == 32 && public@ == ed25519_public(secret) && signature@
                == #[trigger] ed25519_signature(secret, message@) ==> r,
{
    match VerifyingKey::from_bytes(public) {
        Ok(key) => key.verify(message, &Signature::from_bytes(signature)).is_ok(),
        Err(_) => false,
    }
}

/// The standard base64 text of the bytes, with padding.
pub uninterp spec fn base64_text(bytes: Seq<u8>) -> Seq<char>;

/// The bytes that a standard base64 text stands for, or why it stands for none.
pub uninterp spec fn base64_bytes(text: Seq<char>) -> Result<Seq<u8>, Seq<char>>;

/// Bytes, or the words of an error.
pub open spec fn bytes_or_words(r: Result<Vec<u8>, String>) -> Result<Seq<u8>, Seq<char>> {
    match r {
        Ok(bytes) => Ok(bytes@),
        Err(error) => Err(error@),
    }
}

/// Encodes bytes with `base64::Engine::encode` of the standard engine; the text is a function of
/// the bytes.
#[verifier::external_body]
pub(crate) fn base64_encode(bytes: &[u8; 32]) -> (text: String)
    ensures
        text@ == base64_text(bytes@),
{
    BASE64_STANDARD.encode(bytes)
}

/// Decodes a text with `base64::Engine::decode` of the standard engine.
///
/// The bytes, or the words of the error, are a function of the text. What was encoded is decoded
/// again.
#[verifier::external_body]
pub(crate) fn base64_decode(text: &str) -> (r: Result<Vec<u8>, String>)
    ensures
        base64_bytes(text@) == bytes_or_words(r),
        forall|bytes: Seq<u8>|
            bytes.len() == 32 && text@ == #[trigger] base64_text(bytes) ==> r is Ok && r.unwrap()@
                == bytes,
{
    match BASE64_STANDARD.decode(text) {
        Ok(bytes) => Ok(bytes),
        Err(error) => Err(error.to_string()),
    }
}

} // verus!
