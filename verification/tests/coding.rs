use felics::bitio::{BitReader, BitSink, BitWriter, BitWriterMock};
use felics::bitvector::BitVector;
use felics::encoding::{encode_rice, encode_unary};
use felics::phase_in_coding::PhaseInCoder;
use felics::rice_coding::RiceCoder;

fn collect_bits(bitvector: &BitVector) -> Vec<u32> {
    let mut out = Vec::new();
    let mut iter = bitvector.iter();
    while let Some(bit) = iter.next() {
        out.push(bit as u32);
    }
    out
}

#[test]
fn test_unary_encoding() {
    let mut bitvec = BitVector::new();

    encode_unary(&mut bitvec, 7);
    let contained: Vec<u32> = collect_bits(&bitvec);
    assert_eq!(contained, vec![1, 1, 1, 1, 1, 1, 1, 0]);

    bitvec.clear();

    encode_unary(&mut bitvec, 0);
    let contained: Vec<u32> = collect_bits(&bitvec);
    assert_eq!(contained, vec![0]);
}

// The free encoder writes the remainder most significant bit first.
#[test]
fn test_rice_encoding() {
    let mut bitvec = BitVector::new();

    encode_rice(&mut bitvec, 7, 4);
    let contained: Vec<u32> = collect_bits(&bitvec);
    assert_eq!(contained, vec![0, 0, 1, 1, 1]);

    bitvec.clear();

    encode_rice(&mut bitvec, 12, 0);
    let contained: Vec<u32> = collect_bits(&bitvec);
    assert_eq!(contained, vec![1, 1, 1, 1, 1, 1, 1, 1, 1, 1, 1, 1, 0]);

    bitvec.clear();

    encode_rice(&mut bitvec, 10, 3);
    let contained: Vec<u32> = collect_bits(&bitvec);
    assert_eq!(contained, vec![1, 0, 0, 1, 0]);
}

// The coder's bitvector method writes the remainder least significant bit
// first.
#[test]
fn mod_test_rice_encoding() {
    let mut bitvec = BitVector::new();

    RiceCoder::new(4).encode_rice(&mut bitvec, 7);
    let contained: Vec<u32> = collect_bits(&bitvec);
    assert_eq!(contained, vec![0, 1, 1, 1, 0]);

    bitvec.clear();

    RiceCoder::new(0).encode_rice(&mut bitvec, 12);
    let contained: Vec<u32> = collect_bits(&bitvec);
    assert_eq!(contained, vec![1, 1, 1, 1, 1, 1, 1, 1, 1, 1, 1, 1, 0]);

    bitvec.clear();

    RiceCoder::new(3).encode_rice(&mut bitvec, 10);
    let contained: Vec<u32> = collect_bits(&bitvec);
    assert_eq!(contained, vec![1, 0, 0, 1, 0]);
}

#[test]
fn mod_test_rice_decoding() {
    let mut bitvec = BitVector::new();

    let (a, b, c) = (RiceCoder::new(4), RiceCoder::new(0), RiceCoder::new(3));

    a.encode_rice(&mut bitvec, 7);
    b.encode_rice(&mut bitvec, 12);
    c.encode_rice(&mut bitvec, 10);

    let mut iter = bitvec.iter();

    assert_eq!(a.decode_rice(&mut iter), Some(7));
    assert_eq!(b.decode_rice(&mut iter), Some(12));
    assert_eq!(c.decode_rice(&mut iter), Some(10));
    assert_eq!(b.decode_rice(&mut iter), None);
}

// Encode some numbers using multiple k values and check
// if the length of the encoding matches the fast
// code length method.
#[test]
fn mod_test_rice_code_length() {
    for number in 0..3000 {
        for k in 0..32 {
            let coder = RiceCoder::new(k);
            let mut bitvec = BitVector::new();
            coder.encode_rice(&mut bitvec, number);
            assert_eq!(bitvec.len(), coder.code_length(number) as usize);
        }
    }
}

#[test]
fn rice_coding_test_rice_encoding() {
    let mut bitwriter = BitWriterMock::new();
    RiceCoder::new(4).encode(&mut bitwriter, 7);
    assert_eq!(bitwriter.content(), "01110");

    let mut bitwriter = BitWriterMock::new();
    RiceCoder::new(0).encode(&mut bitwriter, 12);
    assert_eq!(bitwriter.content(), "1111111111110");

    let mut bitwriter = BitWriterMock::new();
    RiceCoder::new(3).encode(&mut bitwriter, 10);
    assert_eq!(bitwriter.content(), "10010");
}

#[test]
fn rice_coding_test_rice_decoding() {
    let mut bitwriter = BitWriter::new();

    let (a, b, c) = (RiceCoder::new(4), RiceCoder::new(0), RiceCoder::new(3));

    a.encode(&mut bitwriter, 7);
    b.encode(&mut bitwriter, 12);
    c.encode(&mut bitwriter, 10);
    bitwriter.byte_align();
    let bytes = bitwriter.into_bytes();

    let mut from = BitReader::from_bytes(&bytes);

    assert_eq!(a.decode(&mut from).unwrap(), 7);
    assert_eq!(b.decode(&mut from).unwrap(), 12);
    assert_eq!(c.decode(&mut from).unwrap(), 10);
}

// Encode some numbers using multiple k values and check
// if the length of the encoding matches the fast
// code length method.
#[test]
fn rice_coding_test_rice_code_length() {
    for number in 0..3000 {
        for k in 0..32 {
            let coder = RiceCoder::new(k);
            let mut bitwriter = BitWriter::new();

            coder.encode(&mut bitwriter, number);
            assert_eq!(bitwriter.len() as u32, coder.code_length(number));
        }
    }
}

// Taken from the dummy chapter in the phase-in coding article.
#[test]
fn test_new_coder() {
    let coder = PhaseInCoder::new(1);
    assert_eq!(coder.n(), 1);
    assert_eq!(coder.m(), 0);
    assert_eq!(coder.left_p(), 0);
    assert_eq!(coder.right_p(), 1);

    let coder = PhaseInCoder::new(7);
    assert_eq!(coder.n(), 7);
    assert_eq!(coder.m(), 2);
    assert_eq!(coder.left_p(), 3);
    assert_eq!(coder.right_p(), 1);

    let coder = PhaseInCoder::new(15);
    assert_eq!(coder.n(), 15);
    assert_eq!(coder.m(), 3);
    assert_eq!(coder.left_p(), 7);
    assert_eq!(coder.right_p(), 1);

    let coder = PhaseInCoder::new(32);
    assert_eq!(coder.n(), 32);
    assert_eq!(coder.m(), 5);
    assert_eq!(coder.left_p(), 0);
    assert_eq!(coder.right_p(), 32);
}

// Utility function to compute the phase in codes of the set [0, n-1]
fn get_phase_in_codes(n: u32) -> Vec<String> {
    let coder = PhaseInCoder::new(n);
    let mut codes = Vec::new();

    for number in 0..n {
        let mut bitwriter = BitWriterMock::new();
        coder.encode(&mut bitwriter, number);
        codes.push(bitwriter.content());
    }
    codes
}

#[test]
fn test_phase_in_encoding() {
    assert_eq!(
        get_phase_in_codes(7),
        vec!["011", "110", "111", "00", "100", "101", "010"]
    );

    assert_eq!(
        get_phase_in_codes(8),
        vec!["000", "100", "010", "110", "001", "101", "011", "111"]
    );

    assert_eq!(
        get_phase_in_codes(9),
        vec!["1111", "000", "100", "010", "110", "001", "101", "011", "1110"]
    );

    assert_eq!(
        get_phase_in_codes(15),
        vec![
            "0011", "1010", "1011", "0110", "0111", "1110", "1111", "000", "1000", "1001", "0100",
            "0101", "1100", "1101", "0010"
        ]
    );

    assert_eq!(
        get_phase_in_codes(16),
        vec![
            "0000", "1000", "0100", "1100", "0010", "1010", "0110", "1110", "0001", "1001", "0101",
            "1101", "0011", "1011", "0111", "1111"
        ]
    );

    assert_eq!(
        get_phase_in_codes(17),
        vec![
            "11111", "0000", "1000", "0100", "1100", "0010", "1010", "0110", "1110", "0001",
            "1001", "0101", "1101", "0011", "1011", "0111", "11110"
        ]
    );
}

// Exactly `right_p` values get the short, m-bit code words; the remaining
// `2 * left_p` values get one bit more.
#[test]
fn test_phase_in_code_counts() {
    for n in 1..200u32 {
        let coder = PhaseInCoder::new(n);
        let m = coder.m() as usize;
        let mut shorts = 0;
        let mut longs = 0;
        for number in 0..n {
            let mut bitwriter = BitWriterMock::new();
            coder.encode(&mut bitwriter, number);
            let len = bitwriter.content().len();
            if len == m {
                shorts += 1;
            } else {
                assert_eq!(len, m + 1);
                longs += 1;
            }
        }
        assert_eq!(shorts, coder.right_p());
        assert_eq!(longs, 2 * coder.left_p());
    }
}

// Round trips of phased-in codes over whole small ranges, through the real
// bit stream.
#[test]
fn test_phase_in_round_trips() {
    for n in 1..128u32 {
        let coder = PhaseInCoder::new(n);
        let mut bitwriter = BitWriter::new();
        for value in 0..n {
            coder.encode(&mut bitwriter, value);
        }
        bitwriter.byte_align();
        let bytes = bitwriter.into_bytes();
        let mut bitreader = BitReader::from_bytes(&bytes);
        for value in 0..n {
            assert_eq!(coder.decode(&mut bitreader).unwrap(), value);
        }
    }
}

// Round trips of Rice codes over a spread of values and parameters, through
// the real bit stream.
#[test]
fn test_rice_round_trips() {
    let mut bitwriter = BitWriter::new();
    for number in 0..600u32 {
        for k in 0..32 {
            let coder = RiceCoder::new(k);
            coder.encode(&mut bitwriter, number * 37);
        }
    }
    bitwriter.byte_align();
    let bytes = bitwriter.into_bytes();
    let mut bitreader = BitReader::from_bytes(&bytes);
    for number in 0..600u32 {
        for k in 0..32 {
            let coder = RiceCoder::new(k);
            assert_eq!(coder.decode(&mut bitreader).unwrap(), number * 37);
        }
    }
}
