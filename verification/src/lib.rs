//! AES-256-CTR decryption of in-memory buffers, whole or chunk by chunk.
//!
//! `decrypt_aes_ctr` decrypts a buffer in one go. `decrypt_aes_ctr_chunked`
//! decrypts it chunk by chunk, deriving each chunk's counter block from its
//! position, and reports progress; it is proved to return what the single
//! call returns. CTR mode carries no authentication: a tampered ciphertext
//! decrypts to other bytes without an error.

pub mod chunks;
pub mod counter;
pub mod decrypt;
pub mod error;
pub mod keystream;
pub mod liveness;
pub mod progress;

pub use counter::increment_counter;
pub use decrypt::{decrypt_aes_ctr, decrypt_aes_ctr_chunked};
pub use error::{DecryptError, BLOCK_SIZE, DEFAULT_CHUNK_SIZE, IV_SIZE, KEY_SIZE};
pub use liveness::test_wasm;
pub use progress::{NoProgress, ProgressLog, ProgressObserver, ProgressReporter};
