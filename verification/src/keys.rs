use vstd::prelude::*;

use crate::encryption::KEY_SIZE;
use crate::error::VaultError;

verus! {

/// Relies on `zeroize::Zeroize` for `Vec<u8>`: overwrites the buffer's bytes
/// and spare capacity with zeros, then clears the vector.
#[verifier::external_body]
fn zeroize_bytes(buf: &mut Vec<u8>)
    ensures
        final(buf)@ == Seq::<u8>::empty(),
{
    zeroize::Zeroize::zeroize(buf);
}

/// What base64 decoding with the standard alphabet returns for a text:
/// `None` when the text is not valid base64.
pub uninterp spec fn base64_decoded(text: Seq<char>) -> Option<Seq<u8>>;

/// Relies on `base64::engine::general_purpose::STANDARD` through
/// `Engine::decode`: a deterministic function of the input text that fails
/// exactly on text that is not standard base64.
#[verifier::external_body]
fn base64_decode(text: &str) -> (r: Option<Vec<u8>>)
    ensures
        r is Some <==> base64_decoded(text@) is Some,
        r is Some ==> Some(r.unwrap()@) == base64_decoded(text@),
{
    base64::Engine::decode(&base64::engine::general_purpose::STANDARD, text).ok()
}

/// The master encryption key: exactly 32 bytes, exclusively owned, and
/// overwritten in place when released through [`MasterKey::wipe`].
pub struct MasterKey {
    bytes: Vec<u8>,
}

impl View for MasterKey {
    type V = Seq<u8>;

    closed spec fn view(&self) -> Seq<u8> {
        self.bytes@
    }
}

impl MasterKey {
    /// Wraps raw key bytes, refusing any buffer that is not exactly 32 bytes.
    pub fn new(key: Vec<u8>) -> (r: Result<Self, VaultError>)
        ensures
            r is Ok <==> key@.len() == KEY_SIZE,
            r is Ok ==> r.unwrap()@ == key@,
            key@.len() != KEY_SIZE ==> (r matches Err(
                VaultError::InvalidKeySize { expected, found },
            ) && expected == KEY_SIZE && found == key@.len()),
    {
        if key.len() != KEY_SIZE {
            return Err(VaultError::InvalidKeySize { expected: KEY_SIZE, found: key.len() });
        }
        Ok(MasterKey { bytes: key })
    }

    /// A read-only view of the key bytes.
    pub fn as_bytes(&self) -> (r: &[u8])
        ensures
            r@ == self@,
    {
        self.bytes.as_slice()
    }

    /// Overwrites the key buffer with zeros and empties it. A wiped key no
    /// longer has the 32 bytes a vault requires.
    pub fn wipe(&mut self)
        ensures
            final(self)@ == Seq::<u8>::empty(),
    {
        zeroize_bytes(&mut self.bytes);
    }
}

/// Where master key material comes from. Resolving the environment or file
/// sources needs the process environment and the file system, which callers
/// own; the decoding of the material they yield is [`decode_master_key`].
pub enum KeySource {
    /// A named environment variable holding the key, base64 encoded.
    Env(String),
    /// A file path whose content is the key, base64 encoded.
    File(String),
    /// Raw key bytes used directly.
    Bytes(Vec<u8>),
}

/// Decodes base64 key material into a master key: fails with `KeyLoadError`
/// on text that is not base64, and with `InvalidKeySize` when the decoded
/// bytes are not exactly 32.
pub fn decode_master_key(text: &str) -> (r: Result<MasterKey, VaultError>)
    ensures
        r is Ok <==> (base64_decoded(text@) is Some && base64_decoded(text@).unwrap().len()
            == KEY_SIZE),
        r is Ok ==> r.unwrap()@ == base64_decoded(text@).unwrap(),
        base64_decoded(text@) is None ==> r matches Err(VaultError::KeyLoadError(_)),
        (base64_decoded(text@) is Some && base64_decoded(text@).unwrap().len() != KEY_SIZE)
            ==> r matches Err(VaultError::InvalidKeySize { .. }),
{
    match base64_decode(text) {
        Some(bytes) => MasterKey::new(bytes),
        None => Err(VaultError::KeyLoadError("key material is not valid base64".to_owned())),
    }
}

} // verus!
