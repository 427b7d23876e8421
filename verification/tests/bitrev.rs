use rufft::{bit_reverse, reverse_bit_order, Sample};

fn tagged(tag: u64) -> Sample {
    Sample { re_bits: tag, im_bits: 1000 + tag }
}

#[test]
fn reverse_bit_order_three_bits() {
    assert_eq!(reverse_bit_order(0, 3), 0);
    assert_eq!(reverse_bit_order(1, 3), 4);
    assert_eq!(reverse_bit_order(2, 3), 2);
    assert_eq!(reverse_bit_order(3, 3), 6);
    assert_eq!(reverse_bit_order(4, 3), 1);
    assert_eq!(reverse_bit_order(5, 3), 5);
    assert_eq!(reverse_bit_order(6, 3), 3);
    assert_eq!(reverse_bit_order(7, 3), 7);
}

#[test]
fn reverse_bit_order_zero_bits_is_zero() {
    assert_eq!(reverse_bit_order(0, 0), 0);
    assert_eq!(reverse_bit_order(5, 0), 0);
}

#[test]
fn reverse_bit_order_ignores_high_bits() {
    // Only the low `bits` bits take part: 9 = 0b1001 read as 3 bits is 0b001.
    assert_eq!(reverse_bit_order(9, 3), 4);
}

#[test]
fn bit_reverse_length_eight_tagged() {
    // Distinct tagged values at each index; after one application the
    // 3-bit reversal mapping must hold: 1 -> 4, 3 -> 6, 5 -> 2, and the
    // fixed points 0 and 7 stay put.
    let mut data: Vec<Sample> = (0..8).map(tagged).collect();
    bit_reverse(&mut data);
    assert_eq!(data[0], tagged(0));
    assert_eq!(data[4], tagged(1));
    assert_eq!(data[2], tagged(2));
    assert_eq!(data[6], tagged(3));
    assert_eq!(data[1], tagged(4));
    assert_eq!(data[5], tagged(5));
    assert_eq!(data[3], tagged(6));
    assert_eq!(data[7], tagged(7));
}

#[test]
fn bit_reverse_twice_is_identity() {
    let original: Vec<Sample> = (0..16).map(tagged).collect();
    let mut data = original.clone();
    bit_reverse(&mut data);
    bit_reverse(&mut data);
    assert_eq!(data, original);
}

#[test]
fn bit_reverse_single_element_is_identity() {
    let mut data = vec![tagged(42)];
    bit_reverse(&mut data);
    assert_eq!(data, vec![tagged(42)]);
}
