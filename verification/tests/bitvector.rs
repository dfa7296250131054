use felics::bitvector::{bitmask_segment, BitVector};

fn collect_bits(bitvector: &BitVector) -> Vec<bool> {
    let mut out = Vec::new();
    let mut iter = bitvector.iter();
    while let Some(bit) = iter.next() {
        out.push(bit);
    }
    out
}

#[test]
fn test_push_three_bits() {
    let mut bitvector = BitVector::new();
    assert!(bitvector.len() == 0);
    assert!(bitvector.is_empty());
    bitvector.push(true);
    bitvector.push(false);
    bitvector.push(true);
    assert!(bitvector.len() == 3);
    assert!(!bitvector.is_empty());

    let bits: Vec<bool> = collect_bits(&bitvector);
    assert_eq!(bits, vec![true, false, true]);
}

#[test]
fn test_push_multiple_bytes() {
    let mut bitvector = BitVector::new();

    let bits = vec![
        true, true, false, true, true, true, false, false, true, false, true, true, false, false,
        false, true, true, true, false, false,
    ];
    bits.iter().for_each(|x| bitvector.push(*x));

    let contained: Vec<bool> = collect_bits(&bitvector);
    assert_eq!(bits, contained);
}

#[test]
fn test_clear() {
    let mut bitvector = BitVector::new();
    let bits = vec![
        true, true, false, true, true, true, false, false, true, false, true, true, false, false,
        false, true, true, true, false, false,
    ];
    bits.iter().for_each(|x| bitvector.push(*x));
    bitvector.clear();

    assert_eq!(bitvector.len(), 0);
    let contained: Vec<bool> = collect_bits(&bitvector);
    assert!(contained.is_empty());
}

#[test]
fn test_to_string() {
    let mut bitvector = BitVector::new();
    bitvector.push(true);
    bitvector.push(false);
    bitvector.push(false);
    bitvector.push(true);
    bitvector.push(false);
    bitvector.push(false);
    assert_eq!(bitvector.to_string(), "100100");
}

#[test]
fn test_pushn() {
    let mut bitvector = BitVector::new();
    bitvector.push(true);
    bitvector.push(false);
    bitvector.push(false);
    bitvector.push(true);
    bitvector.push(false);
    bitvector.pushn(12, 0b110100100110);
    assert_eq!(bitvector.to_string(), "10010011001001011");
    bitvector.clear();

    bitvector.push(false);
    bitvector.push(true);
    bitvector.push(false);
    bitvector.pushn(32, u32::MAX);
    assert_eq!(bitvector.to_string(), "01011111111111111111111111111111111");
    bitvector.clear();

    bitvector.pushn(0, 100);
    assert!(bitvector.is_empty());

    bitvector.pushn(1, 123);
    assert_eq!(bitvector.to_string(), "1");
    bitvector.clear();

    bitvector.pushn(8, 0b10100110);
    assert_eq!(bitvector.to_string(), "01100101");
    bitvector.pushn(7, 0b0100101);
    assert_eq!(bitvector.to_string(), "011001011010010");
    bitvector.pushn(16, 0b1101011110111010);
    assert_eq!(bitvector.to_string(), "0110010110100100101110111101011");
}

#[test]
fn test_bitmask_segment() {
    assert_eq!(bitmask_segment(0, 3), 0b00001111);
    assert_eq!(bitmask_segment(1, 3), 0b00001110);
    assert_eq!(bitmask_segment(1, 7), 0b11111110);
    assert_eq!(bitmask_segment(2, 7), 0b11111100);
    assert_eq!(bitmask_segment(3, 7), 0b11111000);
    assert_eq!(bitmask_segment(3, 6), 0b01111000);
    assert_eq!(bitmask_segment(3, 5), 0b00111000);
    assert_eq!(bitmask_segment(3, 4), 0b00011000);
    assert_eq!(bitmask_segment(3, 3), 0b00001000);
    assert_eq!(bitmask_segment(7, 7), 0b10000000);
    assert_eq!(bitmask_segment(0, 7), 0b11111111);
}

#[test]
fn test_read_nextn() {
    let mut bitvector = BitVector::new();
    bitvector.pushn(11, 0b11000101001);
    bitvector.pushn(29, 0b01110110110111010011101111010);
    bitvector.pushn(1, 0b0);

    let mut i = bitvector.iter();
    assert_eq!(Some(0b101001), i.nextn(6));
    assert_eq!(Some(0b11000), i.nextn(5));
    assert_eq!(Some(0b011101111010), i.nextn(12));
    assert_eq!(Some(0b01110110110111010), i.nextn(17));
    assert_eq!(Some(0b0), i.nextn(1));
    assert_eq!(Some(0), i.nextn(0));
    assert_eq!(None, i.nextn(1));
    bitvector.clear();

    bitvector.pushn(17, 0b001);
    let mut i = bitvector.iter();
    assert_eq!(Some(0b001), i.nextn(3));
    assert_eq!(Some(0b000000000000), i.nextn(12));
    assert_eq!(None, i.nextn(3));
    assert_eq!(Some(0b00), i.nextn(2));

    bitvector.clear();
    let mut i = bitvector.iter();
    assert_eq!(Some(0), i.nextn(0));
}

#[test]
fn test_pushn_toggled() {
    let mut bitvector = BitVector::new();
    bitvector.pushn_toggled(3);
    assert_eq!(bitvector.len(), 3);
    assert_eq!(bitvector.as_raw_bytes(), &vec![7]);

    bitvector.pushn_toggled(6);
    assert_eq!(bitvector.len(), 9);
    assert_eq!(bitvector.as_raw_bytes(), &vec![255, 1]);

    bitvector.pushn_toggled(7);
    assert_eq!(bitvector.len(), 16);
    assert_eq!(bitvector.as_raw_bytes(), &vec![255, 255]);

    bitvector.clear();
    bitvector.pushn_toggled(45);
    assert_eq!(bitvector.len(), 45);
    assert_eq!(bitvector.as_raw_bytes(), &vec![255, 255, 255, 255, 255, 31]);

    bitvector.pushn_toggled(2);
    assert_eq!(bitvector.as_raw_bytes(), &vec![255, 255, 255, 255, 255, 127]);
    assert_eq!(bitvector.len(), 47);

    bitvector.pushn_toggled(1);
    assert_eq!(bitvector.as_raw_bytes(), &vec![255, 255, 255, 255, 255, 255]);
    assert_eq!(bitvector.len(), 48);

    bitvector.pushn_toggled(0);
    assert_eq!(bitvector.as_raw_bytes(), &vec![255, 255, 255, 255, 255, 255]);
    assert_eq!(bitvector.len(), 48);
}
