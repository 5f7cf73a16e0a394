use mistralrs::config::HqqBits;

#[test]
fn bitpack_four_bits_pairs_bands() {
    let wq: Vec<u8> = vec![1, 2, 3, 4, 5, 6, 7, 8];
    assert_eq!(HqqBits::Four.bitpack(&wq, 4, 2), vec![(1 << 4) | 5, (2 << 4) | 6, (3 << 4) | 7, (4 << 4) | 8]);
}

#[test]
fn bitpack_one_bit_fills_a_byte() {
    let wq: Vec<u8> = vec![1, 0, 1, 0, 0, 0, 0, 1];
    assert_eq!(HqqBits::One.bitpack(&wq, 8, 1), vec![0b1010_0001]);
}

#[test]
fn bitpack_three_bits_pads_to_ten_rows() {
    let wq: Vec<u8> = vec![1, 2, 3];
    assert_eq!(HqqBits::Three.bitpack(&wq, 3, 1), vec![(1 << 27) | (2 << 24) | (3 << 21)]);
}

#[test]
fn bitpack_two_bits_drops_leftover_rows_and_eight_is_identity() {
    let wq: Vec<u8> = vec![3, 2, 1, 0, 3];
    assert_eq!(HqqBits::Two.bitpack(&wq, 5, 1), vec![(3 << 6) | (2 << 4) | (1 << 2)]);
    assert_eq!(HqqBits::Eight.bitpack(&vec![9, 200], 2, 1), vec![9, 200]);
}
