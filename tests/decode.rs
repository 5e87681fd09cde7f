use dti_field::decode::{decode_words, DecodeError};

#[test]
fn decode_big_endian() {
    let bytes = [0x3f, 0x80, 0x00, 0x00, 0x01, 0x02, 0x03, 0x04];
    let w = decode_words(&bytes, 2, false).unwrap();
    assert_eq!(w, vec![0x3f80_0000, 0x0102_0304]);
    assert_eq!(f32::from_bits(w[0]), 1.0);
}

#[test]
fn decode_little_endian() {
    let bytes = [0x00, 0x00, 0x80, 0x3f, 0x01, 0x02, 0x03, 0x04];
    let w = decode_words(&bytes, 2, true).unwrap();
    assert_eq!(w, vec![0x3f80_0000, 0x0403_0201]);
}

#[test]
fn decode_ignores_trailing_bytes() {
    let bytes = [1, 2, 3, 4, 5, 6, 7];
    assert_eq!(decode_words(&bytes, 1, false), Ok(vec![0x0102_0304]));
    assert_eq!(decode_words(&bytes, 0, false), Ok(vec![]));
}

#[test]
fn decode_rejects_short_buffer() {
    let bytes = [1, 2, 3, 4, 5, 6, 7];
    assert_eq!(decode_words(&bytes, 2, true), Err(DecodeError::Truncated { wanted: 2, available: 1 }));
    assert_eq!(decode_words(&[], 1, false), Err(DecodeError::Truncated { wanted: 1, available: 0 }));
}
