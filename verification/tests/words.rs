use stl_indexer::words::{pack_words, parse_vec, VEC_SIZE, WORD_SIZE};

#[test]
fn sizes() {
    assert_eq!(WORD_SIZE, 4);
    assert_eq!(VEC_SIZE, 12);
}

#[test]
fn parse_vec_reads_three_little_endian_words() {
    let bytes = [
        0x01, 0x02, 0x03, 0x04, 0xFF, 0xFF, 0xFF, 0xFF, 0x00, 0x00, 0x80, 0x3F,
    ];
    assert_eq!(parse_vec(&bytes), Some([0x0403_0201, 0xFFFF_FFFF, 0x3F80_0000]));
    assert_eq!(f32::from_bits(parse_vec(&bytes).unwrap()[2]), 1.0);
}

#[test]
fn parse_vec_reads_the_front_only() {
    let mut bytes = vec![0u8; 20];
    bytes[0] = 7;
    bytes[4] = 8;
    bytes[8] = 9;
    bytes[12] = 10;
    assert_eq!(parse_vec(&bytes), Some([7, 8, 9]));
}

#[test]
fn parse_vec_needs_twelve_bytes() {
    for n in 0..12 {
        assert_eq!(parse_vec(&vec![1u8; n]), None, "{} bytes", n);
    }
    assert_eq!(parse_vec(&[1u8; 12]), Some([0x0101_0101; 3]));
}

#[test]
fn parse_vec_matches_the_numbers() {
    let mut bytes = Vec::new();
    for x in [1.5f32, -2.0, 3.25] {
        bytes.extend_from_slice(&x.to_le_bytes());
    }
    let words = parse_vec(&bytes).unwrap();
    assert_eq!(words, [1.5f32.to_bits(), (-2.0f32).to_bits(), 3.25f32.to_bits()]);
}

#[test]
fn pack_words_puts_each_word_in_its_place() {
    assert_eq!(pack_words(&[0, 0, 0]), 0);
    assert_eq!(pack_words(&[1, 0, 0]), 1);
    assert_eq!(pack_words(&[0, 1, 0]), 1u128 << 32);
    assert_eq!(pack_words(&[0, 0, 1]), 1u128 << 64);
    assert_eq!(
        pack_words(&[0x0403_0201, 0x0807_0605, 0x0C0B_0A09]),
        0x0C0B_0A09_0807_0605_0403_0201
    );
    assert_eq!(pack_words(&[u32::MAX; 3]), (1u128 << 96) - 1);
}
