use vstd::prelude::*;

verus! {

/// The error kinds a vault operation can raise. Every kind is terminal for
/// the operation that raised it; a missing secret on a lookup is a normal
/// empty result, never an error.
#[derive(Debug, Clone)]
pub enum VaultError {
    /// A key buffer whose length is not the required key size.
    InvalidKeySize { expected: usize, found: usize },
    /// Authenticated encryption refused the plaintext.
    EncryptionFailed(String),
    /// Authentication failed: wrong key, corrupted data, or a truncated tag.
    /// The payload does not distinguish which, to avoid oracle behaviour.
    DecryptionFailed(String),
    /// Stored bytes that do not have the expected shape.
    InvalidDataFormat(String),
    /// A failure of the backing store.
    Io(String),
    /// A failure while encoding or decoding the persisted document.
    Serialization(String),
    /// A secret name that is empty, too long, or holds a NUL byte.
    InvalidSecretKey(String),
    /// A lookup that the caller required to succeed found nothing.
    SecretNotFound(String),
    /// Key material that could not be loaded or decoded.
    KeyLoadError(String),
}

} // verus!
