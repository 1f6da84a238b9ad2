//! The ways a decryption request can be turned down.

use vstd::prelude::*;

verus! {

/// The length of an AES-256 key, in bytes.
pub const KEY_SIZE: usize = 32;

/// The length of a counter block, in bytes.
pub const IV_SIZE: usize = 16;

/// The length of a cipher block, in bytes.
pub const BLOCK_SIZE: usize = 16;

/// The chunk size used when the caller names none: 2 MiB.
pub const DEFAULT_CHUNK_SIZE: usize = 2097152;

/// Why a request was refused. Every refusal is decided by the lengths of the
/// inputs alone, before any cipher work.
#[derive(Debug, Clone, Copy, PartialEq, Eq, Structural)]
pub enum DecryptError {
    /// The key is not `expected` (32) bytes long but `actual`.
    InvalidKeySize { expected: usize, actual: usize },
    /// The counter block is not `expected` (16) bytes long but `actual`.
    InvalidIvSize { expected: usize, actual: usize },
    /// The chunk size is zero or not a multiple of the cipher's block size.
    InvalidChunkSize { actual: usize },
    /// The cipher refused a key and counter block that had passed validation.
    /// No function of this library returns it: their contracts rule it out.
    CipherConstruction,
}

/// The error that a key of `key_len` bytes and a counter block of `iv_len`
/// bytes are refused with, if any. The key is looked at first.
pub open spec fn size_error(key_len: nat, iv_len: nat) -> Option<DecryptError> {
    if key_len != 32 {
        Some(DecryptError::InvalidKeySize { expected: 32, actual: key_len as usize })
    } else if iv_len != 16 {
        Some(DecryptError::InvalidIvSize { expected: 16, actual: iv_len as usize })
    } else {
        None
    }
}

/// Whether `chunk_size` can carry a chunked decryption: positive, and a whole
/// number of cipher blocks.
pub open spec fn chunk_size_ok(chunk_size: nat) -> bool {
    chunk_size > 0 && chunk_size % 16 == 0
}

/// The chunk size a request asks for: the one it names, or the default.
pub open spec fn effective_chunk_size(chunk_size: Option<usize>) -> usize {
    match chunk_size {
        Some(size) => size,
        None => DEFAULT_CHUNK_SIZE,
    }
}

/// The error that a chunked request is refused with, if any: first the key,
/// then the counter block, then the chunk size.
pub open spec fn chunked_request_error(key_len: nat, iv_len: nat, chunk_size: Option<usize>)
    -> Option<DecryptError> {
    match size_error(key_len, iv_len) {
        Some(error) => Some(error),
        None => if chunk_size_ok(effective_chunk_size(chunk_size) as nat) {
            None
        } else {
            Some(DecryptError::InvalidChunkSize { actual: effective_chunk_size(chunk_size) })
        },
    }
}

/// Checks the lengths of a key and a counter block.
pub fn validate_sizes(key: &[u8], iv: &[u8]) -> (verdict: Result<(), DecryptError>)
    ensures
        match size_error(key@.len(), iv@.len()) {
            Some(error) => verdict == Err::<(), DecryptError>(error),
            None => verdict == Ok::<(), DecryptError>(()),
        },
{
    if key.len() != KEY_SIZE {
        Err(DecryptError::InvalidKeySize { expected: KEY_SIZE, actual: key.len() })
    } else if iv.len() != IV_SIZE {
        Err(DecryptError::InvalidIvSize { expected: IV_SIZE, actual: iv.len() })
    } else {
        Ok(())
    }
}

/// Checks a chunk size: it must be positive and a multiple of 16.
pub fn validate_chunk_size(chunk_size: usize) -> (verdict: Result<(), DecryptError>)
    ensures
        verdict == (if chunk_size_ok(chunk_size as nat) {
            Ok::<(), DecryptError>(())
        } else {
            Err::<(), DecryptError>(DecryptError::InvalidChunkSize { actual: chunk_size })
        }),
{
    if chunk_size == 0 || chunk_size % BLOCK_SIZE != 0 {
        Err(DecryptError::InvalidChunkSize { actual: chunk_size })
    } else {
        Ok(())
    }
}

} // verus!
