use vstd::prelude::*;
use vstd::slice::{slice_index_get, slice_subrange};

use crate::error::VaultError;

use aes_gcm::aead::{Aead, KeyInit};
use aes_gcm::{Aes256Gcm, Key, Nonce};
use rand::rngs::OsRng;
use rand::RngCore;

verus! {

/// Length in bytes of a master key.
pub const KEY_SIZE: usize = 32;

/// Length in bytes of the nonce that leads every envelope.
pub const NONCE_SIZE: usize = 12;

/// Length in bytes of the authentication tag that ends every envelope.
pub const TAG_SIZE: usize = 16;

/// The longest plaintext AES-256-GCM will seal: 2^36 bytes.
pub const MAX_PLAINTEXT_LEN: u64 = 0x1000000000;

/// What AES-256-GCM sealing returns for a key, nonce and plaintext: the
/// ciphertext with the authentication tag appended.
pub uninterp spec fn aead_sealed(key: Seq<u8>, nonce: Seq<u8>, plaintext: Seq<u8>) -> Seq<u8>;

/// What AES-256-GCM opening returns for a key, nonce and ciphertext:
/// the plaintext, or `None` when authentication fails.
pub uninterp spec fn aead_opened(key: Seq<u8>, nonce: Seq<u8>, data: Seq<u8>) -> Option<Seq<u8>>;

/// What an envelope — a nonce followed by the ciphertext and tag — opens to
/// under a key: `None` when the envelope is too short to hold a nonce, or
/// when authentication fails.
pub open spec fn open_envelope(key: Seq<u8>, env: Seq<u8>) -> Option<Seq<u8>> {
    if env.len() >= NONCE_SIZE {
        aead_opened(
            key,
            env.subrange(0, NONCE_SIZE as int),
            env.subrange(NONCE_SIZE as int, env.len() as int),
        )
    } else {
        None
    }
}

/// Relies on `aes_gcm::Aes256Gcm` through `aead::Aead::encrypt`: sealing is a
/// deterministic function of key, nonce and plaintext; the output is the
/// ciphertext with a 16-byte tag appended; the call fails exactly when the
/// plaintext is longer than 2^36 bytes; and opening the output with the same
/// key and nonce yields the plaintext back.
#[verifier::external_body]
fn aead_seal(key: &[u8], nonce: &[u8], plaintext: &[u8]) -> (r: Option<Vec<u8>>)
    requires
        key@.len() == KEY_SIZE,
        nonce@.len() == NONCE_SIZE,
    ensures
        r is Some <==> plaintext@.len() <= MAX_PLAINTEXT_LEN,
        r is Some ==> r.unwrap()@ == aead_sealed(key@, nonce@, plaintext@),
        r is Some ==> r.unwrap()@.len() == plaintext@.len() + TAG_SIZE,
        r is Some ==> aead_opened(key@, nonce@, r.unwrap()@) == Some(plaintext@),
{
    let cipher = Aes256Gcm::new(Key::<Aes256Gcm>::from_slice(key));
    cipher.encrypt(Nonce::from_slice(nonce), plaintext).ok()
}

/// Relies on `aes_gcm::Aes256Gcm` through `aead::Aead::decrypt`: opening is a
/// deterministic function of key, nonce and ciphertext; on success the
/// plaintext is 16 bytes shorter than the input; the call fails when the
/// input is too short to hold a tag or the authentication tag does not
/// verify.
#[verifier::external_body]
fn aead_open(key: &[u8], nonce: &[u8], data: &[u8]) -> (r: Option<Vec<u8>>)
    requires
        key@.len() == KEY_SIZE,
        nonce@.len() == NONCE_SIZE,
    ensures
        r is Some <==> aead_opened(key@, nonce@, data@) is Some,
        r is Some ==> Some(r.unwrap()@) == aead_opened(key@, nonce@, data@),
        r is Some ==> r.unwrap()@.len() + TAG_SIZE == data@.len(),
{
    let cipher = Aes256Gcm::new(Key::<Aes256Gcm>::from_slice(key));
    cipher.decrypt(Nonce::from_slice(nonce), data).ok()
}

/// Relies on `rand::rngs::OsRng` through `RngCore::fill_bytes`: fills the
/// buffer from the operating system's cryptographically secure random
/// source. Nothing is promised of the values.
#[verifier::external_body]
fn random_nonce() -> (r: Vec<u8>)
    ensures
        r@.len() == NONCE_SIZE,
{
    let mut nonce = vec![0u8; NONCE_SIZE];
    OsRng.fill_bytes(&mut nonce);
    nonce
}

/// The concatenation of two byte slices.
fn concat_bytes(a: &[u8], b: &[u8]) -> (r: Vec<u8>)
    ensures
        r@ == a@ + b@,
{
    let mut out: Vec<u8> = Vec::new();
    let mut i: usize = 0;
    while i < a.len()
        invariant
            i <= a@.len(),
            out@ == a@.subrange(0, i as int),
        decreases a@.len() - i,
    {
        out.push(*slice_index_get(a, i));
        i = i + 1;
        proof {
            assert(out@ =~= a@.subrange(0, i as int));
        }
    }
    let mut j: usize = 0;
    while j < b.len()
        invariant
            j <= b@.len(),
            out@ == a@.subrange(0, a@.len() as int) + b@.subrange(0, j as int),
        decreases b@.len() - j,
    {
        out.push(*slice_index_get(b, j));
        j = j + 1;
        proof {
            assert(out@ =~= a@.subrange(0, a@.len() as int) + b@.subrange(0, j as int));
        }
    }
    proof {
        assert(out@ =~= a@ + b@);
    }
    out
}

/// Encrypts a payload under a 32-byte key: draws a fresh random nonce,
/// seals the plaintext, and returns the envelope `nonce || ciphertext+tag`.
/// The envelope opens back to the plaintext under the same key.
pub fn encrypt(key: &[u8], plaintext: &[u8]) -> (r: Result<Vec<u8>, VaultError>)
    ensures
        r is Ok <==> (key@.len() == KEY_SIZE && plaintext@.len() <= MAX_PLAINTEXT_LEN),
        r is Ok ==> r.unwrap()@.len() == NONCE_SIZE + plaintext@.len() + TAG_SIZE,
        r is Ok ==> open_envelope(key@, r.unwrap()@) == Some(plaintext@),
        r is Ok ==> exists|nonce: Seq<u8>|
            nonce.len() == NONCE_SIZE && r.unwrap()@ == nonce + aead_sealed(
                key@,
                nonce,
                plaintext@,
            ),
        key@.len() != KEY_SIZE ==> (r matches Err(VaultError::InvalidKeySize { expected, found })
            && expected == KEY_SIZE && found == key@.len()),
        (key@.len() == KEY_SIZE && plaintext@.len() > MAX_PLAINTEXT_LEN) ==> r matches Err(
            VaultError::EncryptionFailed(_),
        ),
{
    if key.len() != KEY_SIZE {
        return Err(VaultError::InvalidKeySize { expected: KEY_SIZE, found: key.len() });
    }
    let nonce = random_nonce();
    match aead_seal(key, nonce.as_slice(), plaintext) {
        Some(sealed) => {
            let out = concat_bytes(nonce.as_slice(), sealed.as_slice());
            proof {
                assert(out@.subrange(0, NONCE_SIZE as int) =~= nonce@);
                assert(out@.subrange(NONCE_SIZE as int, out@.len() as int) =~= sealed@);
            }
            Ok(out)
        },
        None => Err(VaultError::EncryptionFailed("plaintext is too long to seal".to_owned())),
    }
}

/// Decrypts an envelope under a 32-byte key: splits off the leading nonce
/// and opens the remainder, failing when the envelope is too short to hold
/// a nonce or when authentication fails.
pub fn decrypt(key: &[u8], encrypted_data: &[u8]) -> (r: Result<Vec<u8>, VaultError>)
    ensures
        r is Ok <==> (key@.len() == KEY_SIZE && open_envelope(key@, encrypted_data@) is Some),
        r is Ok ==> Some(r.unwrap()@) == open_envelope(key@, encrypted_data@),
        key@.len() != KEY_SIZE ==> (r matches Err(VaultError::InvalidKeySize { expected, found })
            && expected == KEY_SIZE && found == key@.len()),
        (key@.len() == KEY_SIZE && encrypted_data@.len() < NONCE_SIZE) ==> r matches Err(
            VaultError::InvalidDataFormat(_),
        ),
        (key@.len() == KEY_SIZE && encrypted_data@.len() >= NONCE_SIZE && open_envelope(
            key@,
            encrypted_data@,
        ) is None) ==> r matches Err(VaultError::DecryptionFailed(_)),
{
    if key.len() != KEY_SIZE {
        return Err(VaultError::InvalidKeySize { expected: KEY_SIZE, found: key.len() });
    }
    if encrypted_data.len() < NONCE_SIZE {
        return Err(VaultError::InvalidDataFormat("envelope is shorter than a nonce".to_owned()));
    }
    let nonce = slice_subrange(encrypted_data, 0, NONCE_SIZE);
    let body = slice_subrange(encrypted_data, NONCE_SIZE, encrypted_data.len());
    match aead_open(key, nonce, body) {
        Some(plaintext) => Ok(plaintext),
        None => Err(VaultError::DecryptionFailed("authentication failed".to_owned())),
    }
}

} // verus!
