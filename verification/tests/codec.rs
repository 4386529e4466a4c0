use hash_hack_dbms::codec::{decimal_ascii, UInt};
use hash_hack_dbms::error::Error;

#[test]
fn decode_four_bytes_is_u32() {
    assert_eq!(UInt::from_slice(&[0x78, 0x56, 0x34, 0x12]), Ok(UInt::U32(0x1234_5678)));
}

#[test]
fn decode_eight_bytes_is_u64() {
    assert_eq!(
        UInt::from_slice(&[0xEF, 0xCD, 0xAB, 0x89, 0x67, 0x45, 0x23, 0x01]),
        Ok(UInt::U64(0x0123_4567_89AB_CDEF))
    );
}

#[test]
fn decode_other_lengths_is_unsupported_width() {
    assert_eq!(UInt::from_slice(&[]), Err(Error::UnsupportedWidth));
    assert_eq!(UInt::from_slice(&[1, 2, 3]), Err(Error::UnsupportedWidth));
    assert_eq!(UInt::from_slice(&[1, 2, 3, 4, 5]), Err(Error::UnsupportedWidth));
    assert_eq!(UInt::from_slice(&[0; 16]), Err(Error::UnsupportedWidth));
}

#[test]
fn narrowing_keeps_u32_and_refuses_u64() {
    assert_eq!(UInt::U32(7).into_u32(), Ok(7));
    assert_eq!(UInt::U32(u32::MAX).into_u32(), Ok(u32::MAX));
    assert_eq!(UInt::U64(7).into_u32(), Err(Error::KindMismatch));
}

#[test]
fn len_is_the_width() {
    assert_eq!(UInt::U32(0).len(), 4);
    assert_eq!(UInt::U64(0).len(), 8);
}

#[test]
fn encode_is_little_endian() {
    assert_eq!(UInt::U32(0x1234_5678).to_le_bytes(), vec![0x78, 0x56, 0x34, 0x12]);
    assert_eq!(
        UInt::U64(0x0123_4567_89AB_CDEF).to_le_bytes(),
        vec![0xEF, 0xCD, 0xAB, 0x89, 0x67, 0x45, 0x23, 0x01]
    );
}

#[test]
fn decode_of_encode_is_identity() {
    for x in [0u32, 1, 255, 256, 0x83DC_EFB7, u32::MAX] {
        let bytes = UInt::U32(x).to_le_bytes();
        assert_eq!(UInt::from_slice(&bytes), Ok(UInt::U32(x)));
    }
    for x in [0u64, 1, 1 << 32, 102_400_000, u64::MAX] {
        let bytes = UInt::U64(x).to_le_bytes();
        assert_eq!(UInt::from_slice(&bytes), Ok(UInt::U64(x)));
    }
}

#[test]
fn tagged_integers_order_by_tag_then_value() {
    assert!(UInt::U32(5) < UInt::U32(6));
    assert!(UInt::U32(u32::MAX) < UInt::U64(0));
    assert_eq!(UInt::U64(3), UInt::U64(3));
}

#[test]
fn decimal_text_of_ids() {
    assert_eq!(decimal_ascii(0), b"0".to_vec());
    assert_eq!(decimal_ascii(7), b"7".to_vec());
    assert_eq!(decimal_ascii(10), b"10".to_vec());
    assert_eq!(decimal_ascii(6_487_381), b"6487381".to_vec());
    assert_eq!(decimal_ascii(u32::MAX), b"4294967295".to_vec());
}
