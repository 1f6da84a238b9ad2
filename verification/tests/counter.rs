use wasm_crypto::counter::increment_counter;

fn stepped(block: [u8; 16], blocks: usize) -> [u8; 16] {
    let mut counter = block;
    increment_counter(&mut counter, blocks);
    counter
}

fn wrapped_sum(block: [u8; 16], blocks: usize) -> [u8; 16] {
    u128::from_be_bytes(block).wrapping_add(blocks as u128).to_be_bytes()
}

#[test]
fn all_ones_plus_one_rolls_over_to_zero() {
    assert_eq!(stepped([0xFF; 16], 1), [0x00; 16]);
}

#[test]
fn carry_moves_into_the_next_byte() {
    let mut block = [0u8; 16];
    block[15] = 0xFF;
    let mut expected = [0u8; 16];
    expected[14] = 0x01;
    expected[15] = 0x00;
    assert_eq!(stepped(block, 1), expected);
}

#[test]
fn zero_blocks_leave_the_counter_unchanged() {
    let block: [u8; 16] = [
        0xF0, 0xF1, 0xF2, 0xF3, 0xF4, 0xF5, 0xF6, 0xF7, 0xF8, 0xF9, 0xFA, 0xFB, 0xFC, 0xFD, 0xFE,
        0xFF,
    ];
    assert_eq!(stepped(block, 0), block);
    assert_eq!(stepped([0xFF; 16], 0), [0xFF; 16]);
}

#[test]
fn carry_runs_through_several_bytes() {
    let mut block = [0u8; 16];
    block[12] = 0x07;
    block[13] = 0xFF;
    block[14] = 0xFF;
    block[15] = 0xFF;
    let mut expected = [0u8; 16];
    expected[12] = 0x08;
    assert_eq!(stepped(block, 1), expected);
}

#[test]
fn multi_byte_amounts_are_spread_over_the_low_bytes() {
    let mut expected = [0u8; 16];
    expected[13] = 0x01;
    expected[14] = 0x02;
    expected[15] = 0x03;
    assert_eq!(stepped([0u8; 16], 0x010203), expected);
}

#[test]
fn byte_sum_and_amount_carry_together() {
    // 0x..01FF + 0x01FF = 0x..03FE
    let mut block = [0u8; 16];
    block[14] = 0x01;
    block[15] = 0xFF;
    let mut expected = [0u8; 16];
    expected[14] = 0x03;
    expected[15] = 0xFE;
    assert_eq!(stepped(block, 0x01FF), expected);
}

#[test]
fn largest_amount_on_all_ones_wraps() {
    assert_eq!(stepped([0xFF; 16], usize::MAX), wrapped_sum([0xFF; 16], usize::MAX));
    assert_eq!(stepped([0x00; 16], usize::MAX), wrapped_sum([0x00; 16], usize::MAX));
}

#[test]
fn agrees_with_wrapping_addition_on_128_bits() {
    let blocks_list: [usize; 9] = [0, 1, 2, 15, 16, 255, 256, 65_535, 131_072];
    let mut seed: u128 = 0x0123_4567_89AB_CDEF_FEDC_BA98_7654_3210;
    let mut round: usize = 0;
    while round < 200 {
        seed = seed.wrapping_mul(0x2545_F491_4F6C_DD1D_0000_0000_0000_0001).wrapping_add(0x9E37_79B9);
        let block = if round % 5 == 0 { (seed | 0xFFFF_FFFF_FFFF).to_be_bytes() } else { seed.to_be_bytes() };
        for blocks in blocks_list {
            assert_eq!(stepped(block, blocks), wrapped_sum(block, blocks));
        }
        assert_eq!(stepped(block, seed as usize), wrapped_sum(block, seed as usize));
        round += 1;
    }
}

#[test]
fn stepping_twice_is_stepping_by_the_sum() {
    let block: [u8; 16] = [0xFF; 16];
    let mut twice = block;
    increment_counter(&mut twice, 1000);
    increment_counter(&mut twice, 24);
    assert_eq!(twice, stepped(block, 1024));
}

#[test]
fn other_widths_wrap_at_their_own_width() {
    let mut two = [0xFFu8, 0xFF];
    increment_counter(&mut two, 1);
    assert_eq!(two, [0x00, 0x00]);

    let mut three = [0x00u8, 0x00, 0x01];
    increment_counter(&mut three, 0x0100_0000);
    assert_eq!(three, [0x00, 0x00, 0x01]);

    let mut none: [u8; 0] = [];
    increment_counter(&mut none, 7);
    assert_eq!(none.len(), 0);
}
