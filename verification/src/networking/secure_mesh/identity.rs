//! The text form of the public keys of nodes.

use vstd::prelude::*;
use vstd::string::*;

use crate::networking::secure_mesh::crypto::{
    base64_bytes, base64_decode, base64_encode, base64_text, ed25519_decode, ed25519_decoded,
};

verus! {

/// How many bytes a public key has.
pub const PUBLIC_KEY_LENGTH: usize = 32;

/// Why a text is not a public key.
#[derive(Debug)]
pub enum KeyError {
    /// It is not base64.
    Encoding { reason: String },
    /// It does not stand for as many bytes as a public key has.
    Length,
    /// The bytes are not a public key.
    Point { reason: String },
}

impl KeyError {
    /// The error in words.
    pub open spec fn words(&self) -> Seq<char> {
        match self {
            KeyError::Encoding { reason } => reason@,
            KeyError::Length => "Invalid key length"@,
            KeyError::Point { reason } => reason@,
        }
    }

    /// The error in words.
    pub fn message(&self) -> (text: String)
        ensures
            text@ == self.words(),
    {
        match self {
            KeyError::Encoding { reason } => reason.clone(),
            KeyError::Length => "Invalid key length".to_owned(),
            KeyError::Point { reason } => reason.clone(),
        }
    }
}

/// The text of a public key.
pub fn serialize(key: &[u8; 32]) -> (text: String)
    ensures
        text@ == base64_text(key@),
{
    base64_encode(key)
}

/// The outcome of an attempt to make a public key of bytes.
pub open spec fn key_of(bytes: Seq<u8>, r: Result<[u8; 32], KeyError>) -> bool {
    match r {
        Ok(key) => {
            &&& bytes.len() == PUBLIC_KEY_LENGTH
            &&& key@ == bytes
            &&& ed25519_decoded(bytes) is Ok
        },
        Err(KeyError::Length) => bytes.len() != PUBLIC_KEY_LENGTH,
        Err(KeyError::Point { reason }) => {
            &&& bytes.len() == PUBLIC_KEY_LENGTH
            &&& ed25519_decoded(bytes) == Err::<(), Seq<char>>(reason@)
        },
        Err(KeyError::Encoding { .. }) => false,
    }
}

/// Makes a public key of bytes.
pub fn key_from_bytes(bytes: &[u8]) -> (r: Result<[u8; 32], KeyError>)
    ensures
        key_of(bytes@, r),
{
    if bytes.len() != PUBLIC_KEY_LENGTH {
        return Err(KeyError::Length);
    }
    let mut key: [u8; 32] = [0; 32];
    let mut i: usize = 0;
    while i < 32
        invariant
            i <= 32,
            bytes@.len() == 32,
            forall|j: int| 0 <= j < i ==> #[trigger] key@[j] == bytes@[j],
        decreases 32 - i,
    {
        key[i] = bytes[i];
        i = i + 1;
    }
    assert(key@ =~= bytes@);
    let decoded = ed25519_decode(&key);
    checked_key(key, decoded)
}

/// The key, if it could be decoded.
pub fn checked_key(key: [u8; 32], decoded: Result<(), String>) -> (r: Result<[u8; 32], KeyError>)
    ensures
        match decoded {
            Ok(_) => r == Ok::<[u8; 32], KeyError>(key),
            Err(reason) => r == Err::<[u8; 32], KeyError>(KeyError::Point { reason }),
        },
{
    match decoded {
        Ok(_) => Ok(key),
        Err(reason) => Err(KeyError::Point { reason }),
    }
}

/// The public key of the bytes of a text, if it stood for any.
pub fn decoded_key(bytes: Result<Vec<u8>, String>) -> (r: Result<[u8; 32], KeyError>)
    ensures
        match bytes {
            Ok(bytes) => key_of(bytes@, r),
            Err(reason) => r == Err::<[u8; 32], KeyError>(KeyError::Encoding { reason }),
        },
{
    match bytes {
        Ok(bytes) => key_from_bytes(&bytes),
        Err(reason) => Err(KeyError::Encoding { reason }),
    }
}

/// The public key that a text stands for.
///
/// The text of a public key stands for this key.
pub fn deserialize(text: &str) -> (r: Result<[u8; 32], KeyError>)
    ensures
        match base64_bytes(text@) {
            Ok(bytes) => key_of(bytes, r),
            Err(words) => r is Err && r->Err_0 is Encoding && r->Err_0->Encoding_reason@ == words,
        },
        forall|key: Seq<u8>|
            key.len() == PUBLIC_KEY_LENGTH && text@ == #[trigger] base64_text(key)
                && ed25519_decoded(key) is Ok ==> r is Ok && r.unwrap()@ == key,
{
    decoded_key(base64_decode(text))
}

} // verus!
