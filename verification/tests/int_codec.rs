use hpack_codec::decode_int;
use hpack_codec::encode_int;
use hpack_codec::never_indexed;
use hpack_codec::new_indexed;
use hpack_codec::new_literal;
use hpack_codec::not_indexed;
use hpack_codec::HpackError;

#[test]
fn test_encode_fits_in_prefix() {
    let int = encode_int(5, 10, Vec::new());

    assert_eq!(vec![10_u8], int);
}

#[test]
fn test_encode_larger_then_prefix() {
    let int = encode_int(5, 1337, Vec::new());

    assert_eq!(vec![31_u8, 154_u8, 10_u8], int);
}

#[test]
fn test_new_indexed() {
    let int = new_indexed(1234).unwrap();

    assert_eq!(vec![255_u8, 211_u8, 8_u8], int);
}

#[test]
fn test_new_indexed_zero() {
    let int = new_indexed(0).unwrap_err();

    assert_eq!(HpackError::InvalidIndex, int);
}

#[test]
fn test_new_literal_string() {
    let literal = new_literal(b"This is 10", 1, None, false).unwrap();

    assert_eq!(
        vec![65_u8, 10_u8, 0x54, 0x68, 0x69, 0x73, 0x20, 0x69, 0x73, 0x20, 0x31, 0x30],
        literal
    )
}

#[test]
fn test_new_literal_string_zero_index() {
    let literal = new_literal(b"This is 10", 0, None, false).unwrap_err();

    assert_eq!(HpackError::InvalidIndex, literal);
}

#[test]
fn test_new_literal_with_name() {
    let literal = new_literal(b"This is 10", 0, Some(b"Name"), false).unwrap();

    assert_eq!(
        vec![
            64_u8, 4_u8, 0x4E, 0x61, 0x6D, 0x65, 10_u8, 0x54, 0x68, 0x69, 0x73, 0x20, 0x69, 0x73,
            0x20, 0x31, 0x30
        ],
        literal
    )
}

#[test]
fn test_decode_fits_in_prefix() {
    let decoded = decode_int(vec![10_u8], 4).unwrap();

    assert_eq!((10, Vec::new()), decoded);
}

#[test]
fn test_decode_larger_then_prefix() {
    let decoded = decode_int(vec![31_u8, 154_u8, 10_u8], 5).unwrap();

    assert_eq!((1337, Vec::new()), decoded);
}

#[test]
fn test_decode_larger_then_prefix_with_remaining_bytes() {
    let decoded = decode_int(
        vec![65_u8, 10_u8, 0x54, 0x68, 0x69, 0x73, 0x20, 0x69, 0x73, 0x20, 0x31, 0x30],
        6,
    )
    .unwrap();

    assert_eq!(
        (
            1,
            vec![10_u8, 0x54, 0x68, 0x69, 0x73, 0x20, 0x69, 0x73, 0x20, 0x31, 0x30]
        ),
        decoded
    );
}

#[test]
fn test_new_literal_string_not_indexed() {
    let literal = not_indexed(new_literal(b"This is 10", 1, None, false).unwrap());

    assert_eq!(
        vec![1_u8, 10_u8, 0x54, 0x68, 0x69, 0x73, 0x20, 0x69, 0x73, 0x20, 0x31, 0x30],
        literal
    )
}

#[test]
fn test_new_literal_string_never_indexed() {
    let literal = never_indexed(new_literal(b"This is 10", 1, None, false).unwrap());

    assert_eq!(
        vec![17_u8, 10_u8, 0x54, 0x68, 0x69, 0x73, 0x20, 0x69, 0x73, 0x20, 0x31, 0x30],
        literal
    )
}

#[test]
fn test_integer_round_trip_samples() {
    for &n in &[1_u32, 2, 3, 4, 5, 6, 7, 8] {
        for &i in &[0_u32, 1, 9, 127, 128, 254, 255, 1337, 65_535, 2_147_483_647] {
            let encoded = encode_int(n, i, Vec::new());
            let (decoded, rest) = decode_int(encoded, n).unwrap();
            assert_eq!(i, decoded);
            assert!(rest.is_empty());
        }
    }
}

#[test]
fn test_decode_int_truncated_continuation() {
    let err = decode_int(vec![31_u8, 154_u8], 5).unwrap_err();

    assert_eq!(HpackError::Truncated, err);
}

#[test]
fn test_decode_int_empty_input() {
    let err = decode_int(Vec::new(), 5).unwrap_err();

    assert_eq!(HpackError::Truncated, err);
}

#[test]
fn test_decode_int_overflow() {
    let err = decode_int(vec![255_u8, 255, 255, 255, 255, 255, 127], 8).unwrap_err();

    assert_eq!(HpackError::IntegerOverflow, err);
}

#[test]
fn test_huffman_flag_sets_length_bit() {
    let literal = new_literal(b"abc", 0, Some(b"nm"), true).unwrap();

    assert_eq!(
        vec![64_u8, 130_u8, 0x6E, 0x6D, 131_u8, 0x61, 0x62, 0x63],
        literal
    );
}
