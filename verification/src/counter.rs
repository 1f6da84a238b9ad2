//! Counter blocks: byte strings read as big-endian unsigned integers, and
//! addition on them that wraps at the width of the block.

use vstd::arithmetic::div_mod::{
    lemma_add_mod_noop, lemma_fundamental_div_mod, lemma_fundamental_div_mod_converse,
    lemma_mod_bound, lemma_small_mod,
};
use vstd::arithmetic::power::{lemma_pow0, lemma_pow1, lemma_pow_adds, lemma_pow_positive, pow};
use vstd::prelude::*;

verus! {

/// The number of distinct values of a counter block of `len` bytes: `256^len`.
pub open spec fn counter_modulus(len: nat) -> nat {
    pow(256, len) as nat
}

/// The unsigned integer that `bytes` spells out, most significant byte first.
pub open spec fn be_value(bytes: Seq<u8>) -> nat
    decreases bytes.len(),
{
    if bytes.len() == 0 {
        0
    } else {
        be_value(bytes.drop_last()) * 256 + bytes.last() as nat
    }
}

/// The `len` low-order base-256 digits of `value`, most significant first.
pub open spec fn be_bytes(value: nat, len: nat) -> Seq<u8>
    decreases len,
{
    if len == 0 {
        Seq::empty()
    } else {
        be_bytes(value / 256, (len - 1) as nat).push((value % 256) as u8)
    }
}

/// The counter block that stands `blocks` steps after `counter`: the same
/// number of bytes, holding `(value + blocks) mod 256^len`. For a 16-byte
/// block this is addition modulo `2^128`.
pub open spec fn counter_add(counter: Seq<u8>, blocks: nat) -> Seq<u8> {
    be_bytes((be_value(counter) + blocks) % counter_modulus(counter.len()), counter.len())
}

/// `256^len` is positive, and grows by a factor of 256 with each byte.
pub proof fn lemma_counter_modulus(len: nat)
    ensures
        counter_modulus(len) > 0,
        counter_modulus(0) == 1,
        counter_modulus(len + 1) == 256 * counter_modulus(len),
{
    lemma_pow_positive(256, len);
    lemma_pow_positive(256, len + 1);
    lemma_pow0(256);
    lemma_pow1(256);
    lemma_pow_adds(256, 1, len);
}

/// `256^(a + b) == 256^a * 256^b`.
pub proof fn lemma_counter_modulus_adds(a: nat, b: nat)
    ensures
        counter_modulus(a + b) == counter_modulus(a) * counter_modulus(b),
{
    lemma_pow_adds(256, a, b);
    lemma_pow_positive(256, a);
    lemma_pow_positive(256, b);
    lemma_pow_positive(256, a + b);
}

/// A 16-byte counter block counts modulo `2^128`.
pub proof fn lemma_counter_modulus_of_block()
    ensures
        counter_modulus(16) == 0x1_0000_0000_0000_0000_0000_0000_0000_0000,
{
    lemma_counter_modulus(0);
    lemma_counter_modulus_adds(1, 1);
    lemma_counter_modulus_adds(2, 2);
    lemma_counter_modulus_adds(4, 4);
    lemma_counter_modulus_adds(8, 8);
    let m1 = counter_modulus(1);
    let m2 = counter_modulus(2);
    let m4 = counter_modulus(4);
    let m8 = counter_modulus(8);
    assert(m1 == 0x100);
    assert(m1 * m1 == 0x1_0000) by (nonlinear_arith)
        requires
            m1 == 0x100,
    ;
    assert(m2 * m2 == 0x1_0000_0000) by (nonlinear_arith)
        requires
            m2 == 0x1_0000,
    ;
    assert(m4 * m4 == 0x1_0000_0000_0000_0000) by (nonlinear_arith)
        requires
            m4 == 0x1_0000_0000,
    ;
    assert(m8 * m8 == 0x1_0000_0000_0000_0000_0000_0000_0000_0000) by (nonlinear_arith)
        requires
            m8 == 0x1_0000_0000_0000_0000,
    ;
}

/// A block of `n` bytes spells a number below `256^n`.
pub proof fn lemma_be_value_bound(bytes: Seq<u8>)
    ensures
        be_value(bytes) < counter_modulus(bytes.len()),
    decreases bytes.len(),
{
    if bytes.len() == 0 {
        lemma_counter_modulus(0);
    } else {
        let head = bytes.drop_last();
        lemma_be_value_bound(head);
        lemma_counter_modulus(head.len());
        assert(bytes.len() == head.len() + 1);
    }
}

/// Reading two strings in a row: the first is shifted left by the width of
/// the second.
pub proof fn lemma_be_value_concat(high: Seq<u8>, low: Seq<u8>)
    ensures
        be_value(high + low) == be_value(high) * counter_modulus(low.len()) + be_value(low),
    decreases low.len(),
{
    let hv = be_value(high) as int;
    if low.len() == 0 {
        assert(high + low =~= high);
        lemma_counter_modulus(0);
        assert(hv * 1 == hv);
    } else {
        let low_head = low.drop_last();
        let whole = high + low;
        assert(whole.drop_last() =~= high + low_head);
        assert(whole.last() == low.last());
        lemma_be_value_concat(high, low_head);
        lemma_counter_modulus(low_head.len());
        assert(low.len() == low_head.len() + 1);
        let m = counter_modulus(low_head.len()) as int;
        let lv = be_value(low_head) as int;
        assert((hv * m + lv) * 256 == hv * (256 * m) + lv * 256) by (nonlinear_arith);
    }
}

/// `be_bytes` yields exactly as many bytes as it is asked for.
pub proof fn lemma_be_bytes_len(value: nat, len: nat)
    ensures
        be_bytes(value, len).len() == len,
    decreases len,
{
    if len > 0 {
        lemma_be_bytes_len(value / 256, (len - 1) as nat);
    }
}

/// Writing a number in `len` bytes and reading it back loses what does not
/// fit: the result is the number modulo `256^len`.
pub proof fn lemma_be_value_of_be_bytes(value: nat, len: nat)
    ensures
        be_value(be_bytes(value, len)) == value % counter_modulus(len),
    decreases len,
{
    if len == 0 {
        lemma_counter_modulus(0);
    } else {
        let shorter = (len - 1) as nat;
        let digits = be_bytes(value, len);
        let head = be_bytes(value / 256, shorter);
        lemma_be_bytes_len(value / 256, shorter);
        assert(digits.drop_last() =~= head);
        assert(digits.last() == (value % 256) as u8);
        lemma_be_value_of_be_bytes(value / 256, shorter);
        lemma_counter_modulus(shorter);
        let m = counter_modulus(shorter) as int;
        let q = (value / 256) as int;
        let r = (value % 256) as int;
        // value = 256 * q + r and q = m * (q / m) + q % m, so
        // value = (256 * m) * (q / m) + (256 * (q % m) + r), with the last term below 256 * m.
        lemma_fundamental_div_mod(q, m);
        lemma_mod_bound(q, m);
        let qq = q / m;
        let qr = q % m;
        assert(value as int == qq * (256 * m) + (256 * qr + r)) by (nonlinear_arith)
            requires
                value as int == 256 * q + r,
                q == m * qq + qr,
        ;
        assert(0 <= 256 * qr + r < 256 * m);
        lemma_fundamental_div_mod_converse(value as int, 256 * m, qq, 256 * qr + r);
        assert(len == shorter + 1);
    }
}

/// Reading a block and writing the number back in the same width gives the
/// block again.
pub proof fn lemma_be_bytes_of_be_value(bytes: Seq<u8>)
    ensures
        be_bytes(be_value(bytes), bytes.len()) == bytes,
    decreases bytes.len(),
{
    if bytes.len() == 0 {
        assert(be_bytes(be_value(bytes), 0) =~= bytes);
    } else {
        let head = bytes.drop_last();
        let v = be_value(bytes);
        lemma_be_bytes_of_be_value(head);
        assert(v / 256 == be_value(head));
        assert(v % 256 == bytes.last() as nat);
        assert(be_bytes(v, bytes.len()) =~= bytes);
    }
}

/// Stepping a counter keeps its width, and its value is the old value plus
/// the steps, reduced modulo `256^len`.
pub proof fn lemma_counter_add_value(counter: Seq<u8>, blocks: nat)
    ensures
        counter_add(counter, blocks).len() == counter.len(),
        be_value(counter_add(counter, blocks)) == (be_value(counter) + blocks) % counter_modulus(
            counter.len(),
        ),
{
    let m = counter_modulus(counter.len());
    let sum = be_value(counter) + blocks;
    lemma_counter_modulus(counter.len());
    lemma_be_bytes_len(sum % m, counter.len());
    lemma_be_value_of_be_bytes(sum % m, counter.len());
    lemma_mod_bound(sum as int, m as int);
    lemma_small_mod(sum % m, m);
}

/// Stepping by zero blocks leaves the counter as it is.
pub proof fn lemma_counter_add_zero(counter: Seq<u8>)
    ensures
        counter_add(counter, 0) == counter,
{
    lemma_be_value_bound(counter);
    lemma_small_mod(be_value(counter), counter_modulus(counter.len()));
    lemma_be_bytes_of_be_value(counter);
}

/// Stepping twice is stepping once by the sum, wraparound included.
pub proof fn lemma_counter_add_twice(counter: Seq<u8>, first: nat, second: nat)
    ensures
        counter_add(counter_add(counter, first), second) == counter_add(counter, first + second),
{
    let len = counter.len();
    let m = counter_modulus(len);
    let v = be_value(counter);
    lemma_counter_modulus(len);
    lemma_counter_add_value(counter, first);
    // ((v + first) % m + second) % m == (v + first + second) % m
    lemma_add_mod_noop((v + first) as int, second as int, m as int);
    lemma_mod_bound((v + first) as int, m as int);
    lemma_small_mod((v + first) % m, m);
    lemma_mod_bound(second as int, m as int);
    assert((((v + first) % m) + second) % m == (v + first + second) % m) by {
        lemma_add_mod_noop(((v + first) % m) as int, second as int, m as int);
    }
}

/// A single byte spells its own value.
proof fn lemma_be_value_single(byte: u8)
    ensures
        be_value(seq![byte]) == byte as nat,
{
    let one = seq![byte];
    assert(one.drop_last() =~= Seq::<u8>::empty());
    assert(be_value(one.drop_last()) == 0);
}

/// One step of the byte-wise addition: what the byte and the pending carry
/// amount to before the step equals what the new digit and the new carry
/// amount to after it.
proof fn lemma_increment_step(
    byte: int,
    carry: int,
    next_carry: int,
    digit: int,
    m: int,
    old_tail: int,
    new_tail: int,
    blocks: int,
)
    by (nonlinear_arith)
    requires
        0 <= byte < 256,
        0 <= carry,
        digit == (byte + carry % 256) % 256,
        next_carry == carry / 256 + (byte + carry % 256) / 256,
        old_tail + blocks == carry * m + new_tail,
    ensures
        byte * m + old_tail + blocks == next_carry * (256 * m) + (digit * m + new_tail),
{
    let sum = byte + carry % 256;
    assert(sum == 256 * (sum / 256) + sum % 256);
    assert(carry == 256 * (carry / 256) + carry % 256);
    assert(next_carry * 256 + digit == carry + byte);
    assert(next_carry * (256 * m) + digit * m == (next_carry * 256 + digit) * m);
}

/// Once the carry is spent, or every byte has been visited, the bytes hold
/// the wrapped sum.
proof fn lemma_increment_done(before: Seq<u8>, after: Seq<u8>, i: nat, carry: nat, blocks: nat)
    requires
        i <= before.len(),
        after.len() == before.len(),
        forall|j: int| 0 <= j < i ==> after[j] == before[j],
        be_value(before.subrange(i as int, before.len() as int)) + blocks == carry
            * counter_modulus((before.len() - i) as nat) + be_value(
            after.subrange(i as int, after.len() as int),
        ),
        i == 0 || carry == 0,
    ensures
        after == counter_add(before, blocks),
{
    let len = before.len();
    let m = counter_modulus(len);
    let total = be_value(before) + blocks;
    lemma_counter_modulus(len);
    lemma_be_value_bound(after);
    if carry == 0 {
        let head = before.subrange(0, i as int);
        let old_tail = before.subrange(i as int, len as int);
        let new_tail = after.subrange(i as int, len as int);
        assert(before =~= head + old_tail);
        assert(after =~= head + new_tail);
        lemma_be_value_concat(head, old_tail);
        lemma_be_value_concat(head, new_tail);
        assert(carry * counter_modulus((len - i) as nat) == 0) by (nonlinear_arith)
            requires
                carry == 0,
        ;
        assert(be_value(after) == total);
        lemma_small_mod(total, m);
    } else {
        assert(before.subrange(0, len as int) =~= before);
        assert(after.subrange(0, len as int) =~= after);
        lemma_fundamental_div_mod_converse(
            total as int,
            m as int,
            carry as int,
            be_value(after) as int,
        );
    }
    assert(total % m == be_value(after));
    lemma_be_bytes_of_be_value(after);
}

/// Adds `blocks` to the big-endian number held in `counter`, in place. The
/// width is kept, and what overflows the most significant byte is dropped.
///
/// The bytes are visited from the least significant one. Each takes the low
/// eight bits of the pending carry, keeps the low eight bits of the sum and
/// hands the rest on. The walk ends early once nothing is left to carry.
pub fn increment_counter(counter: &mut [u8], blocks: usize)
    ensures
        final(counter)@ == counter_add(old(counter)@, blocks as nat),
{
    let ghost before = counter@;
    let len = counter.len();
    let mut carry: usize = blocks;
    let mut i: usize = len;
    proof {
        assert(before.subrange(len as int, len as int) =~= Seq::<u8>::empty());
        lemma_counter_modulus(0);
        assert(carry * 1 == carry);
    }
    while i > 0 && carry != 0
        invariant
            i <= len,
            len == before.len(),
            counter@.len() == len,
            forall|j: int| 0 <= j < i ==> counter@[j] == before[j],
            be_value(before.subrange(i as int, len as int)) + blocks == carry * counter_modulus(
                (len - i) as nat,
            ) + be_value(counter@.subrange(i as int, len as int)),
        decreases i,
    {
        let ghost prev = counter@;
        let ghost width = (len - i) as nat;
        let ghost pending = carry;
        i = i - 1;
        let byte: u8 = counter[i];
        let low: usize = carry & 0xFF;
        let rest: usize = carry >> 8;
        assert(low == carry % 256 && rest == carry / 256) by (bit_vector)
            requires
                low == carry & 0xFF,
                rest == carry >> 8,
        ;
        let sum: usize = byte as usize + low;
        let digit: usize = sum & 0xFF;
        let over: usize = sum >> 8;
        assert(digit == sum % 256 && over == sum / 256) by (bit_vector)
            requires
                digit == sum & 0xFF,
                over == sum >> 8,
        ;
        counter[i] = digit as u8;
        carry = rest + over;
        proof {
            let m = counter_modulus(width);
            let old_tail = before.subrange(i as int + 1, len as int);
            let new_tail = prev.subrange(i as int + 1, len as int);
            lemma_counter_modulus(width);
            assert(byte == before[i as int]);
            assert(before.subrange(i as int, len as int) =~= seq![byte] + old_tail);
            assert(counter@.subrange(i as int, len as int) =~= seq![digit as u8] + new_tail);
            assert(counter@.subrange(i as int + 1, len as int) =~= new_tail);
            lemma_be_value_concat(seq![byte], old_tail);
            lemma_be_value_concat(seq![digit as u8], new_tail);
            lemma_be_value_single(byte);
            lemma_be_value_single(digit as u8);
            lemma_increment_step(
                byte as int,
                pending as int,
                carry as int,
                digit as int,
                m as int,
                be_value(old_tail) as int,
                be_value(new_tail) as int,
                blocks as int,
            );
            assert((len - i) as nat == width + 1);
        }
    }
    proof {
        lemma_increment_done(before, counter@, i as nat, carry as nat, blocks as nat);
    }
}

} // verus!
