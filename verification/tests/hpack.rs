use hpack_codec::hpack::Directive;
use hpack_codec::hpack::Header;
use hpack_codec::hpack::Hpack;
use hpack_codec::HpackError;

fn header(name: &str, value: &str, directive: Directive) -> Header {
    Header {
        name: name.as_bytes().to_vec(),
        value: value.as_bytes().to_vec(),
        directive,
    }
}

#[test]
fn test_read_headers_static_indexed() {
    let mut hpack = Hpack::new(128);

    let stream = vec![130_u8, 132_u8];

    let expected = vec![
        header(":method", "GET", Directive::Indexed),
        header(":path", "/", Directive::Indexed),
    ];

    assert_eq!(expected, hpack.read_headers(stream).unwrap())
}

#[test]
fn test_read_headers_literal_indexed() {
    let mut hpack = Hpack::new(128);

    let stream = vec![66_u8, 3_u8, 0x47, 0x45, 0x54, 79_u8, 3_u8, 0x73, 0x65, 0x74];

    let header_1 = header(":method", "GET", Directive::Indexed);
    let header_2 = header("accept-charset", "set", Directive::Indexed);

    let expected = vec![header_1.clone(), header_2.clone()];

    assert_eq!(expected, hpack.read_headers(stream).unwrap());
}

#[test]
fn test_read_headers_literal_named() {
    let mut hpack = Hpack::new(128);

    let stream = vec![
        64_u8, 7_u8, 0x3a, 0x6d, 0x65, 0x74, 0x68, 0x6f, 0x64, 3_u8, 0x47, 0x45, 0x54, 64_u8,
        14_u8, 0x61, 0x63, 0x63, 0x65, 0x70, 0x74, 0x2d, 0x63, 0x68, 0x61, 0x72, 0x73, 0x65, 0x74,
        3_u8, 0x73, 0x65, 0x74,
    ];

    let header_1 = header(":method", "GET", Directive::Indexed);
    let header_2 = header("accept-charset", "set", Directive::Indexed);

    let expected = vec![header_1.clone(), header_2.clone()];

    assert_eq!(expected, hpack.read_headers(stream).unwrap());
}

#[test]
fn test_read_headers_dynamic_literial_indexed() {
    let mut hpack = Hpack::new(128);

    let stream = vec![66_u8, 3_u8, 0x47, 0x45, 0x54, 79_u8, 3_u8, 0x73, 0x65, 0x74];

    let header_1 = header(":method", "GET", Directive::Indexed);

    hpack.read_headers(stream).unwrap();

    let stream = vec![192_u8];
    let expected = vec![header_1.clone()];

    assert_eq!(expected, hpack.read_headers(stream).unwrap());
}

#[test]
fn test_read_headers_dynamic_literial_named() {
    let mut hpack = Hpack::new(128);

    let stream = vec![
        64_u8, 7_u8, 0x3a, 0x6d, 0x65, 0x74, 0x68, 0x6f, 0x64, 3_u8, 0x47, 0x45, 0x54, 64_u8,
        14_u8, 0x61, 0x63, 0x63, 0x65, 0x70, 0x74, 0x2d, 0x63, 0x68, 0x61, 0x72, 0x73, 0x65, 0x74,
        3_u8, 0x73, 0x65, 0x74,
    ];

    let header_1 = header(":method", "GET", Directive::Indexed);
    let header_2 = header("accept-charset", "set", Directive::Indexed);

    hpack.read_headers(stream).unwrap();

    let stream = vec![192_u8, 191_u8];
    let expected = vec![header_1.clone(), header_2.clone()];

    assert_eq!(expected, hpack.read_headers(stream).unwrap());
}

#[test]
fn test_read_headers_literial_not_indexed_indexed() {
    let mut hpack = Hpack::new(128);
    let stream = vec![2_u8, 3_u8, 0x47, 0x45, 0x54];
    let header_1 = header(":method", "GET", Directive::NotIndexed);
    let expected = vec![header_1.clone()];

    assert_eq!(expected, hpack.read_headers(stream).unwrap());
}

#[test]
fn test_read_headers_literial_not_indexed_named() {
    let mut hpack = Hpack::new(128);

    let stream = vec![
        0_u8, 7_u8, 0x3a, 0x6d, 0x65, 0x74, 0x68, 0x6f, 0x64, 3_u8, 0x47, 0x45, 0x54,
    ];

    let header_1 = header(":method", "GET", Directive::NotIndexed);

    let expected = vec![header_1.clone()];

    assert_eq!(expected, hpack.read_headers(stream).unwrap());
}

#[test]
fn test_read_headers_literial_not_indexed_dosent_get_indexed() {
    let mut hpack = Hpack::new(128);
    let stream = vec![2_u8, 3_u8, 0x47, 0x45, 0x54];
    hpack.read_headers(stream).unwrap();

    let stream = vec![192_u8];

    assert_eq!(
        HpackError::InvalidIndex,
        hpack.read_headers(stream).unwrap_err()
    );
}

#[test]
fn test_read_headers_literial_not_indexed_dosent_get_indexed_with_name() {
    let mut hpack = Hpack::new(128);
    let stream = vec![
        0_u8, 7_u8, 0x3a, 0x6d, 0x65, 0x74, 0x68, 0x6f, 0x64, 3_u8, 0x47, 0x45, 0x54,
    ];
    hpack.read_headers(stream).unwrap();

    let stream = vec![192_u8];

    assert_eq!(
        HpackError::InvalidIndex,
        hpack.read_headers(stream).unwrap_err()
    );
}

#[test]
fn test_read_headers_literial_never_indexed_indexed() {
    let mut hpack = Hpack::new(128);
    let stream = vec![18_u8, 3_u8, 0x47, 0x45, 0x54];
    let header_1 = header(":method", "GET", Directive::NeverIndexed);
    let expected = vec![header_1.clone()];

    assert_eq!(expected, hpack.read_headers(stream).unwrap());
    assert_eq!(0, hpack.dynamic_table().len());
}

#[test]
fn test_read_headers_literial_never_indexed_named() {
    let mut hpack = Hpack::new(128);

    let stream = vec![
        16_u8, 7_u8, 0x3a, 0x6d, 0x65, 0x74, 0x68, 0x6f, 0x64, 3_u8, 0x47, 0x45, 0x54,
    ];

    let header_1 = header(":method", "GET", Directive::NeverIndexed);

    let expected = vec![header_1.clone()];

    assert_eq!(expected, hpack.read_headers(stream).unwrap());
}

#[test]
fn test_read_headers_literial_never_indexed_dosent_get_indexed() {
    let mut hpack = Hpack::new(128);
    let stream = vec![18_u8, 3_u8, 0x47, 0x45, 0x54];
    hpack.read_headers(stream).unwrap();

    let stream = vec![192_u8];

    assert_eq!(
        HpackError::InvalidIndex,
        hpack.read_headers(stream).unwrap_err()
    );
}

#[test]
fn test_read_headers_literial_never_indexed_dosent_get_indexed_with_name() {
    let mut hpack = Hpack::new(128);
    let stream = vec![
        16_u8, 7_u8, 0x3a, 0x6d, 0x65, 0x74, 0x68, 0x6f, 0x64, 3_u8, 0x47, 0x45, 0x54,
    ];
    hpack.read_headers(stream).unwrap();

    let stream = vec![192_u8];

    assert_eq!(
        HpackError::InvalidIndex,
        hpack.read_headers(stream).unwrap_err()
    );
}

#[test]
fn test_change_table_size() {
    let mut hpack = Hpack::new(128);
    let stream = vec![63_u8, 154_u8, 10_u8, 2_u8, 3_u8, 0x47, 0x45, 0x54];
    let header_1 = header(":method", "GET", Directive::NotIndexed);
    let expected = vec![header_1.clone()];

    assert_eq!(expected, hpack.read_headers(stream).unwrap());
}

#[test]
fn test_size_update_sets_capacity() {
    let mut hpack = Hpack::new(128);
    let stream = vec![0x3F, 0x9A, 0x0A, 0x02, 0x03, 0x47, 0x45, 0x54];

    let decoded = hpack.read_headers(stream).unwrap();

    assert_eq!(1337, hpack.current_capacity());
    assert_eq!(1, decoded.len());
    assert_eq!(header(":method", "GET", Directive::NotIndexed), decoded[0]);
}

#[test]
fn test_dynamic_table_positions_after_literals() {
    let mut hpack = Hpack::new(128);
    let stream = vec![66_u8, 3_u8, 0x47, 0x45, 0x54, 79_u8, 3_u8, 0x73, 0x65, 0x74];

    hpack.read_headers(stream).unwrap();

    let table = hpack.dynamic_table();
    assert_eq!(2, table.len());
    assert_eq!(b"accept-charset".to_vec(), table.get(0).unwrap().name);
    assert_eq!(b"set".to_vec(), table.get(0).unwrap().value);
    assert_eq!(b":method".to_vec(), table.get(1).unwrap().name);
    assert_eq!(b"GET".to_vec(), table.get(1).unwrap().value);
}

#[test]
fn test_read_headers_truncated_string() {
    let mut hpack = Hpack::new(128);
    let stream = vec![66_u8, 3_u8, 0x47];

    assert_eq!(
        HpackError::Truncated,
        hpack.read_headers(stream).unwrap_err()
    );
}

#[test]
fn test_read_headers_truncated_literal() {
    let mut hpack = Hpack::new(128);
    let stream = vec![64_u8];

    assert_eq!(
        HpackError::Truncated,
        hpack.read_headers(stream).unwrap_err()
    );
}

#[test]
fn test_read_headers_huffman_flag_rejected() {
    let mut hpack = Hpack::new(128);
    let stream = vec![64_u8, 0x83, 0x41, 0x42, 0x43, 0x00];

    assert_eq!(
        HpackError::InvalidHuffman,
        hpack.read_headers(stream).unwrap_err()
    );
}

#[test]
fn test_read_headers_integer_overflow() {
    let mut hpack = Hpack::new(128);
    let stream = vec![0xFF, 0xFF, 0xFF, 0xFF, 0xFF, 0xFF, 0x7F];

    assert_eq!(
        HpackError::IntegerOverflow,
        hpack.read_headers(stream).unwrap_err()
    );
}

#[test]
fn test_size_update_after_body_rejected() {
    let mut hpack = Hpack::new(128);
    let stream = vec![0x82, 0x20];

    assert_eq!(
        HpackError::CompressionError,
        hpack.read_headers(stream).unwrap_err()
    );
}

#[test]
fn test_three_size_updates_rejected() {
    let mut hpack = Hpack::new(128);
    let stream = vec![0x20, 0x20, 0x20];

    assert_eq!(
        HpackError::CompressionError,
        hpack.read_headers(stream).unwrap_err()
    );
}

#[test]
fn test_size_update_above_max_capacity_rejected() {
    let mut hpack = Hpack::new(128);
    hpack.set_max_capacity(100);
    let stream = vec![0x3F, 0x9A, 0x0A];

    assert_eq!(
        HpackError::CompressionError,
        hpack.read_headers(stream).unwrap_err()
    );
}

#[test]
fn test_index_zero_rejected() {
    let mut hpack = Hpack::new(128);
    let stream = vec![0x80];

    assert_eq!(
        HpackError::InvalidIndex,
        hpack.read_headers(stream).unwrap_err()
    );
}

#[test]
fn test_index_sixty_two_rejected() {
    let mut hpack = Hpack::new(128);
    let stream = vec![66_u8, 3_u8, 0x47, 0x45, 0x54, 0xBE];

    assert_eq!(
        HpackError::InvalidIndex,
        hpack.read_headers(stream).unwrap_err()
    );
}

#[test]
fn test_encode_block_round_trip() {
    let mut decoder = Hpack::new(128);
    let stream = vec![66_u8, 3_u8, 0x47, 0x45, 0x54, 18_u8, 3_u8, 0x73, 0x65, 0x74];
    let decoded = decoder.read_headers(stream).unwrap();

    let mut encoder = Hpack::new(128);
    let bytes = encoder.encode_block(&decoded);

    let mut fresh = Hpack::new(128);
    let again = fresh.read_headers(bytes).unwrap();

    assert_eq!(decoded, again);
}

#[test]
fn test_encode_block_wire_form() {
    let mut encoder = Hpack::new(128);
    let headers = vec![
        header("nm", "val", Directive::Indexed),
        header("nm", "val", Directive::NotIndexed),
        header("nm", "val", Directive::NeverIndexed),
    ];

    let bytes = encoder.encode_block(&headers);

    let one = |flag: u8| vec![flag, 2, b'n', b'm', 3, b'v', b'a', b'l'];
    let mut expected = one(0x40);
    expected.extend(one(0x00));
    expected.extend(one(0x10));
    assert_eq!(expected, bytes);
    assert_eq!(1, encoder.dynamic_table().len());
    assert_eq!(2 + 3 + 32, encoder.occupancy());
}
