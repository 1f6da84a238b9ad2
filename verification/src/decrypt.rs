//! The two entry points: decryption of a buffer in one go, and chunk by chunk
//! with progress reports.

use crate::chunks::{
    chunk_count, chunk_end, chunk_plaintext, chunk_start, chunked_plaintext, chunks_plaintext,
    count_chunks, lemma_chunk_bounds, lemma_chunk_exists, lemma_chunked_equals_whole,
};
use crate::counter::{increment_counter, lemma_counter_add_value};
use crate::error::{
    chunked_request_error, effective_chunk_size, size_error, validate_chunk_size, validate_sizes,
    DecryptError, DEFAULT_CHUNK_SIZE,
};
use crate::keystream::{apply_keystream, ctr_xor};
use crate::progress::{progress_percent, progress_reports, ProgressObserver, ProgressReporter};
use vstd::prelude::*;
use vstd::slice::{slice_subrange, slice_to_vec};

verus! {

/// One fresh cipher over `data`: the keystream that starts at `iv`, applied
/// once. The lengths of key and counter block have been checked.
fn decrypt_with_counter(key: &[u8], iv: &[u8], data: &[u8]) -> (result: Result<
    Vec<u8>,
    DecryptError,
>)
    requires
        key@.len() == 32,
        iv@.len() == 16,
    ensures
        result is Ok,
        result->Ok_0@ == ctr_xor(key@, iv@, data@),
{
    match apply_keystream(key, iv, data) {
        Ok(bytes) => {
            assert(bytes@ =~= ctr_xor(key@, iv@, data@));
            Ok(bytes)
        },
        Err(_) => Err(DecryptError::CipherConstruction),
    }
}

/// Decrypts `encrypted_data` with AES-256 in CTR mode, under a 32-byte `key`
/// and starting from the 16-byte counter block `iv`.
///
/// A key or counter block of the wrong length is refused, the key first;
/// otherwise the result is the data with the keystream XORed onto it, of the
/// same length. Nothing tells a tampered ciphertext from a sound one: it
/// decrypts to other bytes, without an error.
pub fn decrypt_aes_ctr(key: &[u8], iv: &[u8], encrypted_data: &[u8]) -> (result: Result<
    Vec<u8>,
    DecryptError,
>)
    ensures
        match size_error(key@.len(), iv@.len()) {
            Some(error) => result == Err::<Vec<u8>, DecryptError>(error),
            None => result is Ok && result->Ok_0@ == ctr_xor(key@, iv@, encrypted_data@),
        },
        result is Ok ==> result->Ok_0@.len() == encrypted_data@.len(),
{
    match validate_sizes(key, iv) {
        Err(error) => Err(error),
        Ok(_) => decrypt_with_counter(key, iv, encrypted_data),
    }
}

/// Decrypts `encrypted_data` as `decrypt_aes_ctr` does, but in chunks of
/// `chunk_size` bytes (2 MiB where none is named), each with a fresh cipher
/// whose counter is derived from the chunk's position, and reports the
/// percentage reached after each chunk.
///
/// A key or counter block of the wrong length is refused, and so is a chunk
/// size that is zero or not a multiple of 16; nothing is reported then.
/// Otherwise the result is the chunks' plaintexts in order, which is exactly
/// what `decrypt_aes_ctr` returns for the same input, and the reports are one
/// per chunk: none for empty data, else rising to exactly 100.
pub fn decrypt_aes_ctr_chunked<O: ProgressObserver>(
    key: &[u8],
    iv: &[u8],
    encrypted_data: &[u8],
    chunk_size: Option<usize>,
    progress: &mut ProgressReporter<O>,
) -> (result: Result<Vec<u8>, DecryptError>)
    ensures
        match chunked_request_error(key@.len(), iv@.len(), chunk_size) {
            Some(error) => {
                &&& result == Err::<Vec<u8>, DecryptError>(error)
                &&& final(progress).delivered() == old(progress).delivered()
            },
            None => {
                &&& result is Ok
                &&& result->Ok_0@ == chunked_plaintext(
                    key@,
                    iv@,
                    encrypted_data@,
                    effective_chunk_size(chunk_size) as nat,
                )
                &&& result->Ok_0@ == ctr_xor(key@, iv@, encrypted_data@)
                &&& final(progress).delivered() == old(progress).delivered() + progress_reports(
                    chunk_count(encrypted_data@.len(), effective_chunk_size(chunk_size) as nat),
                )
            },
        },
        result is Ok ==> result->Ok_0@.len() == encrypted_data@.len(),
{
    match validate_sizes(key, iv) {
        Err(error) => {
            return Err(error);
        },
        Ok(_) => {},
    }
    let size: usize = match chunk_size {
        Some(size) => size,
        None => DEFAULT_CHUNK_SIZE,
    };
    match validate_chunk_size(size) {
        Err(error) => {
            return Err(error);
        },
        Ok(_) => {},
    }
    let len: usize = encrypted_data.len();
    let total: usize = count_chunks(len, size);
    let ghost reported_before = progress.delivered();
    let mut plaintext: Vec<u8> = Vec::with_capacity(len);
    let mut index: usize = 0;
    let mut start: usize = 0;
    proof {
        assert(chunk_start(0, size as nat) == 0) by (nonlinear_arith);
        assert(progress_reports(total as nat).subrange(0, 0) =~= Seq::<u32>::empty());
        assert(reported_before + Seq::<u32>::empty() =~= reported_before);
    }
    while index < total
        invariant
            key@.len() == 32,
            iv@.len() == 16,
            size > 0,
            size % 16 == 0,
            len == encrypted_data@.len(),
            total == chunk_count(len as nat, size as nat),
            index <= total,
            index < total ==> start == chunk_start(index as nat, size as nat),
            plaintext@ == chunks_plaintext(key@, iv@, encrypted_data@, size as nat, index as nat),
            progress.delivered() == reported_before + progress_reports(total as nat).subrange(
                0,
                index as int,
            ),
        decreases total - index,
    {
        proof {
            lemma_chunk_bounds(len as nat, size as nat, index as nat);
            lemma_chunk_exists(len as nat, size as nat, index as nat);
            assert((index + 1) * size == index * size + size) by (nonlinear_arith);
        }
        let end: usize = if len - start > size {
            start + size
        } else {
            len
        };
        assert(end == chunk_end(index as nat, size as nat, len as nat));
        let blocks: usize = start / 16;
        let mut chunk_iv: Vec<u8> = slice_to_vec(iv);
        increment_counter(chunk_iv.as_mut_slice(), blocks);
        proof {
            lemma_counter_add_value(iv@, blocks as nat);
        }
        let chunk = slice_subrange(encrypted_data, start, end);
        match decrypt_with_counter(key, chunk_iv.as_slice(), chunk) {
            Ok(bytes) => {
                assert(bytes@ == chunk_plaintext(
                    key@,
                    iv@,
                    encrypted_data@,
                    size as nat,
                    index as nat,
                ));
                plaintext.extend_from_slice(bytes.as_slice());
            },
            Err(error) => {
                return Err(error);
            },
        }
        index = index + 1;
        let percent: u32 = progress_percent(index, total);
        progress.report(percent);
        proof {
            let reports = progress_reports(total as nat);
            assert(reports.subrange(0, index as int) =~= reports.subrange(0, index - 1).push(
                percent,
            ));
            assert(reported_before + reports.subrange(0, index - 1).push(percent) =~= (
            reported_before + reports.subrange(0, index - 1)).push(percent));
        }
        start = end;
    }
    proof {
        lemma_chunked_equals_whole(key@, iv@, encrypted_data@, size as nat);
        let reports = progress_reports(total as nat);
        assert(reports.subrange(0, total as int) =~= reports);
    }
    Ok(plaintext)
}

} // verus!
