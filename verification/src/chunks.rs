//! How a buffer falls into chunks, what decrypting it chunk by chunk yields,
//! and why that is the plaintext of the buffer decrypted in one go.

use crate::counter::counter_add;
use crate::keystream::{ctr_xor, lemma_ctr_xor_window};
use vstd::arithmetic::div_mod::{lemma_fundamental_div_mod, lemma_mod_bound};
use vstd::arithmetic::mul::lemma_mul_inequality;
use vstd::prelude::*;

verus! {

/// The number of chunks that `len` bytes fall into: `len / chunk_size`,
/// rounded up. No bytes, no chunks.
pub open spec fn chunk_count(len: nat, chunk_size: nat) -> nat {
    if chunk_size == 0 {
        0
    } else {
        ((len + chunk_size - 1) / (chunk_size as int)) as nat
    }
}

/// Where chunk `index` begins.
pub open spec fn chunk_start(index: nat, chunk_size: nat) -> nat {
    index * chunk_size
}

/// Where chunk `index` ends: a full chunk further on, or at the end of the
/// data, whichever comes first.
pub open spec fn chunk_end(index: nat, chunk_size: nat, len: nat) -> nat {
    if (index + 1) * chunk_size < len {
        (index + 1) * chunk_size
    } else {
        len
    }
}

/// The counter block that chunk `index` is decrypted with: the base counter
/// advanced by the number of whole cipher blocks in the chunks before it.
pub open spec fn chunk_counter(iv: Seq<u8>, index: nat, chunk_size: nat) -> Seq<u8> {
    counter_add(iv, (chunk_start(index, chunk_size) / 16) as nat)
}

/// What decrypting chunk `index` on its own yields: a fresh keystream from
/// the chunk's counter, applied to the chunk's bytes.
pub open spec fn chunk_plaintext(
    key: Seq<u8>,
    iv: Seq<u8>,
    data: Seq<u8>,
    chunk_size: nat,
    index: nat,
) -> Seq<u8> {
    ctr_xor(
        key,
        chunk_counter(iv, index, chunk_size),
        data.subrange(
            chunk_start(index, chunk_size) as int,
            chunk_end(index, chunk_size, data.len()) as int,
        ),
    )
}

/// The first `count` decrypted chunks, one after the other.
pub open spec fn chunks_plaintext(
    key: Seq<u8>,
    iv: Seq<u8>,
    data: Seq<u8>,
    chunk_size: nat,
    count: nat,
) -> Seq<u8>
    decreases count,
{
    if count == 0 {
        Seq::empty()
    } else {
        chunks_plaintext(key, iv, data, chunk_size, (count - 1) as nat) + chunk_plaintext(
            key,
            iv,
            data,
            chunk_size,
            (count - 1) as nat,
        )
    }
}

/// What chunked decryption yields: every chunk decrypted on its own, put
/// together in order.
pub open spec fn chunked_plaintext(key: Seq<u8>, iv: Seq<u8>, data: Seq<u8>, chunk_size: nat)
    -> Seq<u8> {
    chunks_plaintext(key, iv, data, chunk_size, chunk_count(data.len(), chunk_size))
}

/// A chunk exists exactly when it begins inside the data.
pub proof fn lemma_chunk_exists(len: nat, chunk_size: nat, index: nat)
    requires
        chunk_size > 0,
    ensures
        index < chunk_count(len, chunk_size) <==> chunk_start(index, chunk_size) < len,
{
    let size = chunk_size as int;
    let padded = len + chunk_size - 1;
    let count = padded / size;
    lemma_fundamental_div_mod(padded, size);
    lemma_mod_bound(padded, size);
    // padded == size * count + r with 0 <= r < size, so
    // size * (count - 1) < len <= size * count.
    assert(size * count == count * size) by (nonlinear_arith);
    if (index as int) < count {
        lemma_mul_inequality(index as int, count - 1, size);
        assert((count - 1) * size == count * size - size) by (nonlinear_arith);
    } else {
        lemma_mul_inequality(count, index as int, size);
    }
}

/// Chunks lie inside the data, one after the other, and the last one ends
/// where the data ends.
pub proof fn lemma_chunk_bounds(len: nat, chunk_size: nat, index: nat)
    requires
        chunk_size > 0,
        index < chunk_count(len, chunk_size),
    ensures
        chunk_start(index, chunk_size) < chunk_end(index, chunk_size, len) <= len,
        chunk_end(index, chunk_size, len) - chunk_start(index, chunk_size) <= chunk_size,
        chunk_end(index, chunk_size, len) == (if index + 1 < chunk_count(len, chunk_size) {
            chunk_start(index + 1, chunk_size)
        } else {
            len
        }),
{
    lemma_chunk_exists(len, chunk_size, index);
    lemma_chunk_exists(len, chunk_size, index + 1);
    assert((index + 1) * chunk_size == index * chunk_size + chunk_size) by (nonlinear_arith);
}

/// With a chunk size that is a whole number of cipher blocks, every chunk
/// begins on a block boundary.
pub proof fn lemma_chunk_start_aligned(index: nat, chunk_size: nat)
    requires
        chunk_size % 16 == 0,
    ensures
        chunk_start(index, chunk_size) % 16 == 0,
{
    let blocks = chunk_size / 16;
    assert(chunk_size == 16 * blocks);
    assert(index * chunk_size == 16 * (index * blocks)) by (nonlinear_arith)
        requires
            chunk_size == 16 * blocks,
    ;
}

/// The first `count` decrypted chunks are the plaintext of the whole, up to
/// where those chunks end.
pub proof fn lemma_chunks_are_prefix(
    key: Seq<u8>,
    iv: Seq<u8>,
    data: Seq<u8>,
    chunk_size: nat,
    count: nat,
)
    requires
        chunk_size > 0,
        chunk_size % 16 == 0,
        count <= chunk_count(data.len(), chunk_size),
    ensures
        chunks_plaintext(key, iv, data, chunk_size, count) == ctr_xor(key, iv, data).subrange(
            0,
            if count == 0 {
                0
            } else {
                chunk_end((count - 1) as nat, chunk_size, data.len()) as int
            },
        ),
    decreases count,
{
    let whole = ctr_xor(key, iv, data);
    if count == 0 {
        assert(whole.subrange(0, 0) =~= Seq::<u8>::empty());
    } else {
        let last = (count - 1) as nat;
        let start = chunk_start(last, chunk_size) as int;
        let end = chunk_end(last, chunk_size, data.len()) as int;
        lemma_chunks_are_prefix(key, iv, data, chunk_size, last);
        lemma_chunk_bounds(data.len(), chunk_size, last);
        lemma_chunk_start_aligned(last, chunk_size);
        lemma_ctr_xor_window(key, iv, data, start, end);
        if last > 0 {
            lemma_chunk_bounds(data.len(), chunk_size, (last - 1) as nat);
        } else {
            assert(start == 0) by (nonlinear_arith)
                requires
                    start == 0 * chunk_size,
            ;
        }
        assert(whole.subrange(0, start) + whole.subrange(start, end) =~= whole.subrange(0, end));
    }
}

/// Chunked decryption and single-shot decryption agree: for every key,
/// counter block and data, and every chunk size that is a positive multiple
/// of 16, the chunks decrypted one by one with their derived counters, put
/// together, are byte for byte the data decrypted in one go.
pub proof fn lemma_chunked_equals_whole(
    key: Seq<u8>,
    iv: Seq<u8>,
    data: Seq<u8>,
    chunk_size: nat,
)
    requires
        chunk_size > 0,
        chunk_size % 16 == 0,
    ensures
        chunked_plaintext(key, iv, data, chunk_size) == ctr_xor(key, iv, data),
        chunked_plaintext(key, iv, data, chunk_size).len() == data.len(),
{
    let count = chunk_count(data.len(), chunk_size);
    let whole = ctr_xor(key, iv, data);
    lemma_chunks_are_prefix(key, iv, data, chunk_size, count);
    if count == 0 {
        lemma_chunk_exists(data.len(), chunk_size, 0);
        assert(chunk_start(0, chunk_size) == 0) by (nonlinear_arith);
        assert(whole.subrange(0, 0) =~= whole);
    } else {
        lemma_chunk_bounds(data.len(), chunk_size, (count - 1) as nat);
        assert(whole.subrange(0, data.len() as int) =~= whole);
    }
}

/// Counts the chunks that `len` bytes fall into.
pub fn count_chunks(len: usize, chunk_size: usize) -> (count: usize)
    requires
        chunk_size > 0,
    ensures
        count == chunk_count(len as nat, chunk_size as nat),
{
    if len == 0 {
        proof {
            lemma_chunk_exists(0, chunk_size as nat, 0);
            assert(chunk_start(0, chunk_size as nat) == 0) by (nonlinear_arith);
        }
        0
    } else {
        let full: usize = (len - 1) / chunk_size;
        proof {
            // (len - 1) == chunk_size * full + r with 0 <= r < chunk_size, so chunk `full`
            // begins inside the data and chunk `full + 1` does not.
            let size = chunk_size as int;
            lemma_fundamental_div_mod(len - 1, size);
            lemma_mod_bound(len - 1, size);
            assert(size * (full as int) == (full as int) * size) by (nonlinear_arith);
            assert((full + 1) * size == full * size + size) by (nonlinear_arith);
            lemma_chunk_exists(len as nat, chunk_size as nat, full as nat);
            lemma_chunk_exists(len as nat, chunk_size as nat, (full + 1) as nat);
            assert(full <= len - 1) by (nonlinear_arith)
                requires
                    full * size <= len - 1,
                    size >= 1,
                    full >= 0,
            ;
        }
        full + 1
    }
}

} // verus!
