//! A local secrets store: named secrets are encrypted at rest under a single
//! 256-bit master key, every write appends a new numbered version, and the
//! master key can be rotated by re-encrypting every stored version under a
//! new key, committing only when the whole pass has succeeded.

pub mod encryption;
pub mod error;
pub mod keys;
pub mod vault;
