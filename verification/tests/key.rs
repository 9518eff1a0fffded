use stl_indexer::key::{LoadError, VertexKey};

#[test]
fn a_key_stands_for_twelve_bytes() {
    let buffer: Vec<u8> = (0u8..40).collect();
    let key = VertexKey::new(&buffer, 5);
    assert_eq!(key.offset(), 5);
    assert_eq!(key.get_slice(), &buffer[5..17]);
    assert_eq!(key.words(), [0x0807_0605, 0x0C0B_0A09, 0x100F_0E0D]);
    assert_eq!(key.content(), 0x100F_0E0D_0C0B_0A09_0807_0605);
    let last = VertexKey::new(&buffer, 28);
    assert_eq!(last.get_slice(), &buffer[28..40]);
}

#[test]
fn keys_are_equal_when_their_bytes_are() {
    let mut buffer = vec![0u8; 36];
    buffer[0] = 1;
    buffer[12] = 2;
    buffer[24] = 1;
    let a = VertexKey::new(&buffer, 0);
    let b = VertexKey::new(&buffer, 12);
    let c = VertexKey::new(&buffer, 24);
    assert!(a == c);
    assert!(c == a);
    assert!(a != b);
    assert!(a == a);
    assert_eq!(a.content(), c.content());
    assert_ne!(a.content(), b.content());
    let other = buffer.clone();
    assert!(a == VertexKey::new(&other, 24));
}

#[test]
fn equal_numbers_with_different_bits_are_different_keys() {
    let mut buffer = Vec::new();
    for x in [0.0f32, 1.0, 2.0, -0.0, 1.0, 2.0] {
        buffer.extend_from_slice(&x.to_le_bytes());
    }
    let plus = VertexKey::new(&buffer, 0);
    let minus = VertexKey::new(&buffer, 12);
    assert!(plus != minus);
    assert_ne!(plus.content(), minus.content());
}

#[test]
fn errors_compare() {
    assert_eq!(LoadError::TruncatedInput, LoadError::TruncatedInput);
    assert_ne!(LoadError::TruncatedInput, LoadError::TooManyVertices);
}
