//! The AES-256-CTR keystream: what it is, how the cipher is reached, and the
//! facts about it that chunked decryption rests on.

use crate::counter::{counter_add, lemma_counter_add_twice};
use aes::Aes256;
use ctr::cipher::{InvalidLength, KeyIvInit, StreamCipher};
use ctr::Ctr128BE;
use vstd::prelude::*;

verus! {

/// The error of `cipher::KeyIvInit::new_from_slices`: a key or a counter
/// block of the wrong length. It carries nothing.
#[verifier::external_type_specification]
#[verifier::external_body]
pub struct ExInvalidLength(InvalidLength);

/// The 16 bytes that AES-256 under `key` turns the 16-byte `block` into
/// (`aes::Aes256`, a block encryption). Nothing is stated of them here but
/// that they depend on the key and the block alone.
pub uninterp spec fn aes256_encrypt_block(key: Seq<u8>, block: Seq<u8>) -> Seq<u8>;

/// The keystream byte at `position` of a stream that starts at counter block
/// `iv`: block `position / 16` of the stream is the encryption of the counter
/// advanced that many times, and the byte is number `position % 16` in it.
pub open spec fn keystream_byte(key: Seq<u8>, iv: Seq<u8>, position: int) -> u8 {
    aes256_encrypt_block(key, counter_add(iv, (position / 16) as nat))[position % 16]
}

/// `data` with the keystream that starts at `iv` XORed onto it, byte by byte.
/// This is both CTR encryption and CTR decryption.
pub open spec fn ctr_xor(key: Seq<u8>, iv: Seq<u8>, data: Seq<u8>) -> Seq<u8> {
    Seq::new(data.len(), |i: int| data[i] ^ keystream_byte(key, iv, i))
}

/// Builds a fresh `ctr::Ctr128BE<aes::Aes256>` with `new_from_slices` and runs
/// `apply_keystream` once, over a copy of `data`.
///
/// Trusted, from the sources of `cipher` and `ctr`: construction fails exactly
/// when the key is not 32 bytes or the counter block not 16; a fresh cipher
/// starts at stream position 0; its keystream block number `j` is the AES-256
/// encryption of the counter block read as a 128-bit big-endian number plus
/// `j`, wrapping at `2^128`; `apply_keystream` XORs that stream onto the
/// buffer and, on a fresh 128-bit counter, never runs out of keystream.
#[verifier::external_body]
pub(crate) fn apply_keystream(key: &[u8], iv: &[u8], data: &[u8]) -> (result: Result<Vec<u8>, InvalidLength>)
    ensures
        result.is_ok() == (key@.len() == 32 && iv@.len() == 16),
        result.is_ok() ==> (result->Ok_0)@.len() == data@.len(),
        forall|i: int|
            result.is_ok() && 0 <= i < data@.len() ==> #[trigger] (result->Ok_0)@[i] == data@[i]
                ^ aes256_encrypt_block(key@, counter_add(iv@, (i / 16) as nat))[i % 16],
{
    let mut cipher = Ctr128BE::<Aes256>::new_from_slices(key, iv)?;
    let mut bytes = data.to_vec();
    cipher.apply_keystream(&mut bytes);
    Ok(bytes)
}

/// A stream that starts `blocks` counter steps later is the same stream read
/// from `16 * blocks` bytes further on.
pub proof fn lemma_keystream_shift(key: Seq<u8>, iv: Seq<u8>, blocks: nat, position: int)
    requires
        0 <= position,
    ensures
        keystream_byte(key, counter_add(iv, blocks), position) == keystream_byte(
            key,
            iv,
            16 * blocks + position,
        ),
{
    lemma_counter_add_twice(iv, blocks, (position / 16) as nat);
    assert((16 * blocks + position) / 16 == blocks + position / 16);
    assert((16 * blocks + position) % 16 == position % 16);
}

/// Decrypting a window of the data that starts on a block boundary, with the
/// counter advanced to that block, gives the same window of the plaintext of
/// the whole.
pub proof fn lemma_ctr_xor_window(key: Seq<u8>, iv: Seq<u8>, data: Seq<u8>, start: int, end: int)
    requires
        0 <= start <= end <= data.len(),
        start % 16 == 0,
    ensures
        ctr_xor(key, counter_add(iv, (start / 16) as nat), data.subrange(start, end)) == ctr_xor(
            key,
            iv,
            data,
        ).subrange(start, end),
{
    let blocks = (start / 16) as nat;
    let window = ctr_xor(key, counter_add(iv, blocks), data.subrange(start, end));
    let whole = ctr_xor(key, iv, data);
    assert forall|i: int| 0 <= i < end - start implies window[i] == whole[start + i] by {
        lemma_keystream_shift(key, iv, blocks, i);
    }
    assert(window =~= whole.subrange(start, end));
}

/// Applying the keystream twice gives the data back: CTR decryption undoes
/// CTR encryption under the same key and counter block, and the other way
/// round.
pub proof fn lemma_ctr_xor_involution(key: Seq<u8>, iv: Seq<u8>, data: Seq<u8>)
    ensures
        ctr_xor(key, iv, ctr_xor(key, iv, data)) == data,
{
    let once = ctr_xor(key, iv, data);
    let twice = ctr_xor(key, iv, once);
    assert forall|i: int| 0 <= i < data.len() implies twice[i] == data[i] by {
        let d = data[i];
        let k = keystream_byte(key, iv, i);
        assert((d ^ k) ^ k == d) by (bit_vector);
    }
    assert(twice =~= data);
}

} // verus!
