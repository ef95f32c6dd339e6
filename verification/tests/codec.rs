use ethabi::{decode, encode, short_signature, Error, ParamType, Token, Writer};

fn unhex(text: &str) -> Vec<u8> {
    let digits: Vec<u8> = text
        .bytes()
        .map(|b| match b {
            b'0'..=b'9' => b - b'0',
            b'a'..=b'f' => b - b'a' + 10,
            _ => panic!("not a hex digit"),
        })
        .collect();
    assert_eq!(digits.len() % 2, 0);
    digits.chunks(2).map(|pair| pair[0] * 16 + pair[1]).collect()
}

fn words(list: &[&str]) -> Vec<u8> {
    unhex(&list.concat())
}

fn num(value: u64) -> [u8; 32] {
    let mut out = [0u8; 32];
    out[24..].copy_from_slice(&value.to_be_bytes());
    out
}

fn uint(value: u64) -> Token {
    Token::Uint(num(value))
}

fn text(value: &str) -> Token {
    Token::String(value.to_owned())
}

fn array_of(kind: ParamType) -> ParamType {
    ParamType::Array(Box::new(kind))
}

fn fixed_array_of(kind: ParamType, len: usize) -> ParamType {
    ParamType::FixedArray(Box::new(kind), len)
}

fn round_trip(kinds: &[ParamType], tokens: &[Token]) {
    assert!(Token::types_check(tokens, kinds));
    let encoded = encode(tokens);
    assert_eq!(encoded.len() % 32, 0);
    assert_eq!(decode(kinds, &encoded), Ok(tokens.to_vec()));
}

#[test]
fn encode_nothing_is_empty() {
    assert_eq!(encode(&[]), Vec::<u8>::new());
    assert_eq!(decode(&[], &[]), Ok(vec![]));
}

#[test]
fn encode_bool() {
    assert_eq!(
        encode(&[Token::Bool(true)]),
        words(&["0000000000000000000000000000000000000000000000000000000000000001"])
    );
    assert_eq!(
        encode(&[Token::Bool(false)]),
        words(&["0000000000000000000000000000000000000000000000000000000000000000"])
    );
}

#[test]
fn encode_address_is_right_aligned() {
    let mut address = [0u8; 20];
    address.copy_from_slice(&unhex("ce397e30544d737195a341291675ec1ecaf19b13"));
    assert_eq!(
        encode(&[Token::Address(address)]),
        words(&["000000000000000000000000ce397e30544d737195a341291675ec1ecaf19b13"])
    );
}

#[test]
fn encode_int_keeps_its_sign_bytes() {
    let minus_one = [0xffu8; 32];
    assert_eq!(encode(&[Token::Int(minus_one)]), minus_one.to_vec());
    let mut minus_two = [0xffu8; 32];
    minus_two[31] = 0xfe;
    assert_eq!(encode(&[Token::Int(minus_two)]), minus_two.to_vec());
    assert_eq!(encode(&[Token::Int(num(5))]), num(5).to_vec());
}

#[test]
fn encode_fixed_bytes_is_left_aligned() {
    assert_eq!(
        encode(&[Token::FixedBytes(b"abc".to_vec())]),
        words(&["6162630000000000000000000000000000000000000000000000000000000000"])
    );
    assert_eq!(encode(&[Token::FixedBytes(vec![0x11; 32])]), vec![0x11; 32]);
    assert_eq!(encode(&[Token::FixedBytes(vec![])]), vec![0u8; 32]);
}

#[test]
fn encode_fixed_bytes_beyond_a_word_takes_whole_words() {
    let mut expected = vec![0x22u8; 33];
    expected.extend_from_slice(&[0u8; 31]);
    assert_eq!(encode(&[Token::FixedBytes(vec![0x22; 33])]), expected);
    assert_eq!(encode(&[Token::FixedBytes(vec![0x22; 64])]), vec![0x22u8; 64]);
}

#[test]
fn encode_bytes_pads_to_the_word() {
    assert_eq!(
        encode(&[Token::Bytes(b"dave".to_vec())]),
        words(&[
            "0000000000000000000000000000000000000000000000000000000000000020",
            "0000000000000000000000000000000000000000000000000000000000000004",
            "6461766500000000000000000000000000000000000000000000000000000000",
        ])
    );
    assert_eq!(
        encode(&[Token::Bytes(vec![])]),
        words(&[
            "0000000000000000000000000000000000000000000000000000000000000020",
            "0000000000000000000000000000000000000000000000000000000000000000",
        ])
    );
    assert_eq!(encode(&[Token::Bytes(vec![7; 32])]).len(), 32 + 32 + 32);
    assert_eq!(encode(&[Token::Bytes(vec![7; 33])]).len(), 32 + 32 + 64);
}

#[test]
fn encode_string_is_its_utf8_bytes() {
    assert_eq!(
        encode(&[text("Hello, world!")]),
        words(&[
            "0000000000000000000000000000000000000000000000000000000000000020",
            "000000000000000000000000000000000000000000000000000000000000000d",
            "48656c6c6f2c20776f726c642100000000000000000000000000000000000000",
        ])
    );
    assert_eq!(
        encode(&[text("\u{e9}")]),
        words(&[
            "0000000000000000000000000000000000000000000000000000000000000020",
            "0000000000000000000000000000000000000000000000000000000000000002",
            "c3a9000000000000000000000000000000000000000000000000000000000000",
        ])
    );
}

#[test]
fn encode_fixed_array_of_static_is_inline() {
    assert_eq!(
        encode(&[Token::FixedArray(vec![
            Token::FixedBytes(b"abc".to_vec()),
            Token::FixedBytes(b"def".to_vec()),
        ])]),
        words(&[
            "6162630000000000000000000000000000000000000000000000000000000000",
            "6465660000000000000000000000000000000000000000000000000000000000",
        ])
    );
}

#[test]
fn encode_static_tuple_is_inline() {
    assert_eq!(
        encode(&[Token::Tuple(vec![uint(1), Token::Bool(true)]), uint(2)]),
        words(&[
            "0000000000000000000000000000000000000000000000000000000000000001",
            "0000000000000000000000000000000000000000000000000000000000000001",
            "0000000000000000000000000000000000000000000000000000000000000002",
        ])
    );
}

#[test]
fn encode_bytes_bool_and_array() {
    assert_eq!(
        encode(&[
            Token::Bytes(b"dave".to_vec()),
            Token::Bool(true),
            Token::Array(vec![uint(1), uint(2), uint(3)]),
        ]),
        words(&[
            "0000000000000000000000000000000000000000000000000000000000000060",
            "0000000000000000000000000000000000000000000000000000000000000001",
            "00000000000000000000000000000000000000000000000000000000000000a0",
            "0000000000000000000000000000000000000000000000000000000000000004",
            "6461766500000000000000000000000000000000000000000000000000000000",
            "0000000000000000000000000000000000000000000000000000000000000003",
            "0000000000000000000000000000000000000000000000000000000000000001",
            "0000000000000000000000000000000000000000000000000000000000000002",
            "0000000000000000000000000000000000000000000000000000000000000003",
        ])
    );
}

#[test]
fn encode_mixed_static_and_dynamic() {
    assert_eq!(
        encode(&[
            uint(0x123),
            Token::Array(vec![uint(0x456), uint(0x789)]),
            Token::FixedBytes(b"1234567890".to_vec()),
            Token::Bytes(b"Hello, world!".to_vec()),
        ]),
        words(&[
            "0000000000000000000000000000000000000000000000000000000000000123",
            "0000000000000000000000000000000000000000000000000000000000000080",
            "3132333435363738393000000000000000000000000000000000000000000000",
            "00000000000000000000000000000000000000000000000000000000000000e0",
            "0000000000000000000000000000000000000000000000000000000000000002",
            "0000000000000000000000000000000000000000000000000000000000000456",
            "0000000000000000000000000000000000000000000000000000000000000789",
            "000000000000000000000000000000000000000000000000000000000000000d",
            "48656c6c6f2c20776f726c642100000000000000000000000000000000000000",
        ])
    );
}

fn nested_arrays() -> (Vec<ParamType>, Vec<Token>, Vec<u8>) {
    let kinds = vec![array_of(array_of(ParamType::Uint(256))), array_of(ParamType::String)];
    let tokens = vec![
        Token::Array(vec![Token::Array(vec![uint(1), uint(2)]), Token::Array(vec![uint(3)])]),
        Token::Array(vec![text("one"), text("two"), text("three")]),
    ];
    let bytes = words(&[
        "0000000000000000000000000000000000000000000000000000000000000040",
        "0000000000000000000000000000000000000000000000000000000000000140",
        "0000000000000000000000000000000000000000000000000000000000000002",
        "0000000000000000000000000000000000000000000000000000000000000040",
        "00000000000000000000000000000000000000000000000000000000000000a0",
        "0000000000000000000000000000000000000000000000000000000000000002",
        "0000000000000000000000000000000000000000000000000000000000000001",
        "0000000000000000000000000000000000000000000000000000000000000002",
        "0000000000000000000000000000000000000000000000000000000000000001",
        "0000000000000000000000000000000000000000000000000000000000000003",
        "0000000000000000000000000000000000000000000000000000000000000003",
        "0000000000000000000000000000000000000000000000000000000000000060",
        "00000000000000000000000000000000000000000000000000000000000000a0",
        "00000000000000000000000000000000000000000000000000000000000000e0",
        "0000000000000000000000000000000000000000000000000000000000000003",
        "6f6e650000000000000000000000000000000000000000000000000000000000",
        "0000000000000000000000000000000000000000000000000000000000000003",
        "74776f0000000000000000000000000000000000000000000000000000000000",
        "0000000000000000000000000000000000000000000000000000000000000005",
        "7468726565000000000000000000000000000000000000000000000000000000",
    ]);
    (kinds, tokens, bytes)
}

#[test]
fn encode_nested_dynamic_arrays() {
    let (_, tokens, bytes) = nested_arrays();
    assert_eq!(encode(&tokens), bytes);
}

#[test]
fn decode_nested_dynamic_arrays() {
    let (kinds, tokens, bytes) = nested_arrays();
    assert_eq!(decode(&kinds, &bytes), Ok(tokens));
}

#[test]
fn encode_dynamic_tuple_and_fixed_array() {
    assert_eq!(
        encode(&[
            Token::Tuple(vec![Token::Bool(true), Token::Bytes(vec![])]),
            Token::FixedArray(vec![text("a"), text("b")]),
        ]),
        words(&[
            "0000000000000000000000000000000000000000000000000000000000000040",
            "00000000000000000000000000000000000000000000000000000000000000a0",
            "0000000000000000000000000000000000000000000000000000000000000001",
            "0000000000000000000000000000000000000000000000000000000000000040",
            "0000000000000000000000000000000000000000000000000000000000000000",
            "0000000000000000000000000000000000000000000000000000000000000040",
            "0000000000000000000000000000000000000000000000000000000000000080",
            "0000000000000000000000000000000000000000000000000000000000000001",
            "6100000000000000000000000000000000000000000000000000000000000000",
            "0000000000000000000000000000000000000000000000000000000000000001",
            "6200000000000000000000000000000000000000000000000000000000000000",
        ])
    );
}

#[test]
fn decode_static_values() {
    let data = words(&[
        "0000000000000000000000000000000000000000000000000000000000000045",
        "0000000000000000000000000000000000000000000000000000000000000001",
        "000000000000000000000000ce397e30544d737195a341291675ec1ecaf19b13",
        "6162630000000000000000000000000000000000000000000000000000000000",
        "fffffffffffffffffffffffffffffffffffffffffffffffffffffffffffffffe",
    ]);
    let mut address = [0u8; 20];
    address.copy_from_slice(&unhex("ce397e30544d737195a341291675ec1ecaf19b13"));
    let mut minus_two = [0xffu8; 32];
    minus_two[31] = 0xfe;
    assert_eq!(
        decode(
            &[
                ParamType::Uint(32),
                ParamType::Bool,
                ParamType::Address,
                ParamType::FixedBytes(3),
                ParamType::Int(256),
            ],
            &data
        ),
        Ok(vec![
            uint(69),
            Token::Bool(true),
            Token::Address(address),
            Token::FixedBytes(b"abc".to_vec()),
            Token::Int(minus_two),
        ])
    );
}

#[test]
fn decode_ignores_bytes_after_the_values() {
    let mut data = encode(&[uint(7), Token::Bytes(b"xy".to_vec())]);
    data.extend_from_slice(&[0xee; 40]);
    assert_eq!(
        decode(&[ParamType::Uint(256), ParamType::Bytes], &data),
        Ok(vec![uint(7), Token::Bytes(b"xy".to_vec())])
    );
}

#[test]
fn decode_address_ignores_the_padding() {
    let data = vec![0xabu8; 32];
    assert_eq!(decode(&[ParamType::Address], &data), Ok(vec![Token::Address([0xab; 20])]));
}

#[test]
fn decode_rejects_a_boolean_that_is_neither_0_nor_1() {
    assert_eq!(decode(&[ParamType::Bool], &num(2)), Err(Error::MalformedEncoding));
    let mut high = [0u8; 32];
    high[0] = 1;
    assert_eq!(decode(&[ParamType::Bool], &high), Err(Error::MalformedEncoding));
    assert_eq!(decode(&[ParamType::Bool], &[0xff; 32]), Err(Error::MalformedEncoding));
    assert_eq!(decode(&[ParamType::Bool], &num(0)), Ok(vec![Token::Bool(false)]));
}

#[test]
fn decode_rejects_text_that_is_not_utf8() {
    let data = words(&[
        "0000000000000000000000000000000000000000000000000000000000000020",
        "0000000000000000000000000000000000000000000000000000000000000002",
        "c328000000000000000000000000000000000000000000000000000000000000",
    ]);
    assert_eq!(decode(&[ParamType::String], &data), Err(Error::MalformedEncoding));
    assert_eq!(decode(&[ParamType::Bytes], &data), Ok(vec![Token::Bytes(vec![0xc3, 0x28])]));
}

#[test]
fn decode_reads_text_from_its_utf8_bytes() {
    let data = words(&[
        "0000000000000000000000000000000000000000000000000000000000000020",
        "0000000000000000000000000000000000000000000000000000000000000005",
        "68c3a96c6c000000000000000000000000000000000000000000000000000000",
    ]);
    assert_eq!(decode(&[ParamType::String], &data), Ok(vec![text("h\u{e9}ll")]));
}

#[test]
fn decode_rejects_every_truncation_of_a_head() {
    let kinds = [ParamType::Uint(256), ParamType::Bool, fixed_array_of(ParamType::Address, 2)];
    let full = encode(&[
        uint(1),
        Token::Bool(true),
        Token::FixedArray(vec![Token::Address([1; 20]), Token::Address([2; 20])]),
    ]);
    assert_eq!(full.len(), 128);
    assert!(decode(&kinds, &full).is_ok());
    for len in 0..full.len() {
        assert_eq!(decode(&kinds, &full[..len]), Err(Error::MalformedEncoding));
    }
}

#[test]
fn decode_rejects_truncation_into_the_data() {
    let (kinds, _, bytes) = nested_arrays();
    let last_data_byte = bytes.len() - 32 + 5;
    for len in 0..last_data_byte {
        assert_eq!(decode(&kinds, &bytes[..len]), Err(Error::MalformedEncoding));
    }
}

#[test]
fn decode_rejects_an_offset_past_the_end() {
    let mut data = encode(&[Token::Bytes(b"dave".to_vec())]);
    data[31] = 0x60;
    assert_eq!(decode(&[ParamType::Bytes], &data), Err(Error::MalformedEncoding));
    data[31] = 0x41;
    assert_eq!(decode(&[ParamType::Bytes], &data), Err(Error::MalformedEncoding));
    data[0] = 0x80;
    data[31] = 0x20;
    assert_eq!(decode(&[ParamType::Bytes], &data), Err(Error::MalformedEncoding));
}

#[test]
fn decode_rejects_a_length_past_the_end() {
    let mut data = encode(&[Token::Bytes(b"dave".to_vec())]);
    data[63] = 33;
    assert_eq!(decode(&[ParamType::Bytes], &data), Err(Error::MalformedEncoding));
    data[63] = 32;
    assert!(decode(&[ParamType::Bytes], &data).is_ok());
    for byte in 32..56 {
        let mut huge = encode(&[Token::Bytes(b"dave".to_vec())]);
        huge[byte] = 0xff;
        assert_eq!(decode(&[ParamType::Bytes], &huge), Err(Error::MalformedEncoding));
    }
}

#[test]
fn decode_rejects_a_count_past_the_end() {
    let kinds = [array_of(ParamType::Uint(256))];
    let mut data = encode(&[Token::Array(vec![uint(1), uint(2)])]);
    assert!(decode(&kinds, &data).is_ok());
    data[63] = 3;
    assert_eq!(decode(&kinds, &data), Err(Error::MalformedEncoding));
    for byte in 32..64 {
        let mut huge = encode(&[Token::Array(vec![uint(1), uint(2)])]);
        huge[byte] = 0xff;
        assert_eq!(decode(&kinds, &huge), Err(Error::MalformedEncoding));
    }
}

#[test]
fn decode_never_fails_otherwise_than_malformed() {
    let (kinds, _, bytes) = nested_arrays();
    let mut seed: u32 = 0x2545_f491;
    for _ in 0..300 {
        let mut data = bytes.clone();
        for _ in 0..3 {
            seed ^= seed << 13;
            seed ^= seed >> 17;
            seed ^= seed << 5;
            let at = (seed as usize >> 8) % data.len();
            data[at] = seed as u8;
        }
        match decode(&kinds, &data) {
            Ok(tokens) => assert!(Token::types_check(&tokens, &kinds)),
            Err(error) => assert_eq!(error, Error::MalformedEncoding),
        }
    }
}

#[test]
fn round_trip_of_each_kind() {
    round_trip(&[ParamType::Bool], &[Token::Bool(true)]);
    round_trip(&[ParamType::Address], &[Token::Address([0x5a; 20])]);
    round_trip(&[ParamType::Uint(8)], &[Token::Uint([0xff; 32])]);
    round_trip(&[ParamType::Int(64)], &[Token::Int([0x80; 32])]);
    round_trip(&[ParamType::FixedBytes(5)], &[Token::FixedBytes(vec![1, 2, 3, 4, 5])]);
    round_trip(&[ParamType::FixedBytes(32)], &[Token::FixedBytes(vec![9; 32])]);
    round_trip(&[ParamType::Bytes], &[Token::Bytes(vec![])]);
    round_trip(&[ParamType::Bytes], &[Token::Bytes(vec![3; 100])]);
    round_trip(&[ParamType::String], &[text("")]);
    round_trip(&[ParamType::String], &[text("gr\u{fc}\u{df}e \u{4e16}\u{754c}")]);
    round_trip(&[array_of(ParamType::Bool)], &[Token::Array(vec![])]);
    round_trip(
        &[array_of(ParamType::Bytes)],
        &[Token::Array(vec![Token::Bytes(vec![1]), Token::Bytes(vec![])])],
    );
    round_trip(
        &[fixed_array_of(ParamType::Uint(256), 3)],
        &[Token::FixedArray(vec![uint(1), uint(2), uint(3)])],
    );
    round_trip(&[fixed_array_of(ParamType::Bool, 0)], &[Token::FixedArray(vec![])]);
    round_trip(
        &[fixed_array_of(ParamType::String, 2)],
        &[Token::FixedArray(vec![text("x"), text("yz")])],
    );
    round_trip(&[ParamType::Tuple(vec![])], &[Token::Tuple(vec![])]);
}

#[test]
fn round_trip_of_nested_values() {
    let pair = ParamType::Tuple(vec![ParamType::Bool, ParamType::Bytes]);
    round_trip(
        &[
            ParamType::Uint(256),
            array_of(pair.clone()),
            ParamType::Tuple(vec![ParamType::Uint(8), fixed_array_of(ParamType::Address, 2)]),
            fixed_array_of(array_of(pair), 2),
            ParamType::String,
        ],
        &[
            uint(42),
            Token::Array(vec![
                Token::Tuple(vec![Token::Bool(true), Token::Bytes(vec![1; 40])]),
                Token::Tuple(vec![Token::Bool(false), Token::Bytes(vec![])]),
            ]),
            Token::Tuple(vec![
                uint(9),
                Token::FixedArray(vec![Token::Address([1; 20]), Token::Address([2; 20])]),
            ]),
            Token::FixedArray(vec![
                Token::Array(vec![]),
                Token::Array(vec![Token::Tuple(vec![Token::Bool(true), Token::Bytes(vec![7])])]),
            ]),
            text("tail"),
        ],
    );
}

#[test]
fn short_fixed_bytes_come_back_at_full_length() {
    let kinds = [ParamType::FixedBytes(2)];
    let tokens = [Token::FixedBytes(vec![1])];
    assert!(Token::types_check(&tokens, &kinds));
    assert_eq!(decode(&kinds, &encode(&tokens)), Ok(vec![Token::FixedBytes(vec![1, 0])]));
}

#[test]
fn empty_fixed_array_of_dynamic_kind_has_no_offset_word() {
    let kinds = [fixed_array_of(ParamType::Bytes, 0)];
    let tokens = [Token::FixedArray(vec![])];
    assert!(Token::types_check(&tokens, &kinds));
    assert_eq!(encode(&tokens), Vec::<u8>::new());
    assert_eq!(decode(&kinds, &encode(&tokens)), Err(Error::MalformedEncoding));
}

#[test]
fn encodings_are_whole_words() {
    for len in 0..70 {
        let tokens = [
            Token::Bytes(vec![1; len]),
            Token::FixedBytes(vec![2; len]),
            text(&"x".repeat(len)),
            Token::Array(vec![Token::Bool(true); len]),
        ];
        assert_eq!(encode(&tokens).len() % 32, 0);
    }
}

#[test]
fn static_kinds_have_encodings_of_one_length() {
    let kinds = [
        ParamType::Uint(256),
        ParamType::Bool,
        ParamType::FixedBytes(8),
        fixed_array_of(ParamType::Tuple(vec![ParamType::Address, ParamType::Int(8)]), 2),
    ];
    let one = [
        uint(0),
        Token::Bool(false),
        Token::FixedBytes(vec![]),
        Token::FixedArray(vec![
            Token::Tuple(vec![Token::Address([0; 20]), Token::Int([0; 32])]),
            Token::Tuple(vec![Token::Address([0; 20]), Token::Int([0; 32])]),
        ]),
    ];
    let other = [
        Token::Uint([0xff; 32]),
        Token::Bool(true),
        Token::FixedBytes(vec![1; 8]),
        Token::FixedArray(vec![
            Token::Tuple(vec![Token::Address([9; 20]), Token::Int([0xff; 32])]),
            Token::Tuple(vec![Token::Address([8; 20]), Token::Int([0x7f; 32])]),
        ]),
    ];
    assert!(Token::types_check(&one, &kinds));
    assert!(Token::types_check(&other, &kinds));
    assert_eq!(encode(&one).len(), 7 * 32);
    assert_eq!(encode(&other).len(), 7 * 32);
}

#[test]
fn types_check_matches_shapes() {
    assert!(Token::types_check(&[], &[]));
    assert!(!Token::types_check(&[], &[ParamType::Bool]));
    assert!(!Token::types_check(&[Token::Bool(true)], &[]));
    assert!(Token::Bool(true).type_check(&ParamType::Bool));
    assert!(!Token::Bool(true).type_check(&ParamType::Uint(8)));
    assert!(uint(1).type_check(&ParamType::Uint(8)));
    assert!(!uint(1).type_check(&ParamType::Int(8)));
    assert!(Token::Int([0; 32]).type_check(&ParamType::Int(256)));
    assert!(Token::Bytes(vec![]).type_check(&ParamType::Bytes));
    assert!(!Token::Bytes(vec![]).type_check(&ParamType::String));
    assert!(!Token::Bytes(vec![1]).type_check(&ParamType::FixedBytes(1)));
    assert!(text("a").type_check(&ParamType::String));
    assert!(Token::Address([0; 20]).type_check(&ParamType::Address));
    assert!(Token::FixedBytes(vec![1, 2]).type_check(&ParamType::FixedBytes(2)));
    assert!(Token::FixedBytes(vec![1]).type_check(&ParamType::FixedBytes(2)));
    assert!(!Token::FixedBytes(vec![1, 2, 3]).type_check(&ParamType::FixedBytes(2)));
    assert!(Token::Array(vec![]).type_check(&array_of(ParamType::Bool)));
    assert!(!Token::Array(vec![]).type_check(&fixed_array_of(ParamType::Bool, 0)));
    assert!(!Token::FixedArray(vec![]).type_check(&array_of(ParamType::Bool)));
    assert!(Token::Array(vec![Token::Bool(true)]).type_check(&array_of(ParamType::Bool)));
    assert!(!Token::Array(vec![Token::Bool(true), uint(1)]).type_check(&array_of(ParamType::Bool)));
    assert!(Token::FixedArray(vec![uint(1)]).type_check(&fixed_array_of(ParamType::Uint(8), 1)));
    assert!(!Token::FixedArray(vec![uint(1)]).type_check(&fixed_array_of(ParamType::Uint(8), 2)));
    let pair = ParamType::Tuple(vec![ParamType::Bool, ParamType::Bytes]);
    assert!(Token::Tuple(vec![Token::Bool(true), Token::Bytes(vec![])]).type_check(&pair));
    assert!(!Token::Tuple(vec![Token::Bool(true)]).type_check(&pair));
    assert!(!Token::Tuple(vec![Token::Bool(true), Token::Bytes(vec![]), uint(1)]).type_check(&pair));
    assert!(!Token::Tuple(vec![Token::Bytes(vec![]), Token::Bool(true)]).type_check(&pair));
}

#[test]
fn dynamic_kinds_and_values() {
    assert!(!ParamType::Bool.is_dynamic());
    assert!(!ParamType::Address.is_dynamic());
    assert!(!ParamType::Uint(256).is_dynamic());
    assert!(!ParamType::Int(8).is_dynamic());
    assert!(!ParamType::FixedBytes(32).is_dynamic());
    assert!(ParamType::Bytes.is_dynamic());
    assert!(ParamType::String.is_dynamic());
    assert!(array_of(ParamType::Bool).is_dynamic());
    assert!(!fixed_array_of(ParamType::Bool, 2).is_dynamic());
    assert!(fixed_array_of(ParamType::Bytes, 2).is_dynamic());
    assert!(fixed_array_of(ParamType::Bytes, 0).is_dynamic());
    assert!(!ParamType::Tuple(vec![]).is_dynamic());
    assert!(!ParamType::Tuple(vec![ParamType::Bool, ParamType::Address]).is_dynamic());
    assert!(ParamType::Tuple(vec![ParamType::Bool, ParamType::String]).is_dynamic());
    assert!(!Token::FixedArray(vec![]).is_dynamic());
    assert!(Token::FixedArray(vec![text("a")]).is_dynamic());
    assert!(Token::Array(vec![]).is_dynamic());
    assert!(!Token::Tuple(vec![Token::Bool(true)]).is_dynamic());
    assert!(Token::Tuple(vec![Token::Bool(true), Token::Bytes(vec![])]).is_dynamic());
}

#[test]
fn valid_kinds() {
    assert!(ParamType::Uint(8).is_valid());
    assert!(ParamType::Uint(256).is_valid());
    assert!(!ParamType::Uint(0).is_valid());
    assert!(!ParamType::Uint(7).is_valid());
    assert!(!ParamType::Uint(264).is_valid());
    assert!(ParamType::Int(128).is_valid());
    assert!(!ParamType::Int(12).is_valid());
    assert!(ParamType::FixedBytes(1).is_valid());
    assert!(ParamType::FixedBytes(32).is_valid());
    assert!(!ParamType::FixedBytes(0).is_valid());
    assert!(!ParamType::FixedBytes(33).is_valid());
    assert!(array_of(ParamType::Uint(8)).is_valid());
    assert!(!array_of(ParamType::Uint(9)).is_valid());
    assert!(!fixed_array_of(ParamType::FixedBytes(40), 2).is_valid());
    assert!(ParamType::Tuple(vec![ParamType::Bool, ParamType::Bytes]).is_valid());
    assert!(!ParamType::Tuple(vec![ParamType::Bool, ParamType::Int(1)]).is_valid());
}

#[test]
fn canonical_names() {
    assert_eq!(Writer::write(&ParamType::Address), "address");
    assert_eq!(Writer::write(&ParamType::Bytes), "bytes");
    assert_eq!(Writer::write(&ParamType::FixedBytes(32)), "bytes32");
    assert_eq!(Writer::write(&ParamType::Uint(256)), "uint256");
    assert_eq!(Writer::write(&ParamType::Uint(8)), "uint8");
    assert_eq!(Writer::write(&ParamType::Int(64)), "int64");
    assert_eq!(Writer::write(&ParamType::Bool), "bool");
    assert_eq!(Writer::write(&ParamType::String), "string");
    assert_eq!(Writer::write(&array_of(ParamType::Bool)), "bool[]");
    assert_eq!(Writer::write(&fixed_array_of(ParamType::Uint(256), 3)), "uint256[3]");
    assert_eq!(Writer::write(&fixed_array_of(ParamType::String, 0)), "string[0]");
    assert_eq!(
        Writer::write(&array_of(fixed_array_of(array_of(ParamType::Bool), 1045))),
        "bool[][1045][]"
    );
    assert_eq!(Writer::write(&ParamType::Tuple(vec![])), "()");
    assert_eq!(Writer::write(&ParamType::Tuple(vec![ParamType::Bool])), "(bool)");
    assert_eq!(
        Writer::write(&ParamType::Tuple(vec![ParamType::Bool, ParamType::Bytes])),
        "(bool,bytes)"
    );
    assert_eq!(
        Writer::write(&array_of(ParamType::Tuple(vec![
            ParamType::Address,
            ParamType::Tuple(vec![ParamType::Uint(8), ParamType::String]),
        ]))),
        "(address,(uint8,string))[]"
    );
    assert_eq!(
        Writer::write_all(&[ParamType::Uint(32), ParamType::Bool, ParamType::Bytes]),
        "uint32,bool,bytes"
    );
    assert_eq!(Writer::write_all(&[]), "");
}

#[test]
fn selectors() {
    assert_eq!(
        short_signature("baz", &[ParamType::Uint(32), ParamType::Bool]),
        [0xcd, 0xcd, 0x77, 0xc0]
    );
    assert_eq!(
        short_signature("transfer", &[ParamType::Address, ParamType::Uint(256)]),
        [0xa9, 0x05, 0x9c, 0xbb]
    );
    assert_eq!(
        short_signature("bar", &[fixed_array_of(ParamType::FixedBytes(3), 2)]),
        [0xfc, 0xe3, 0x53, 0xf6]
    );
    assert_eq!(
        short_signature(
            "sam",
            &[ParamType::Bytes, ParamType::Bool, array_of(ParamType::Uint(256))]
        ),
        [0xa5, 0x64, 0x3b, 0xf2]
    );
    assert_eq!(
        short_signature(
            "hello",
            &[ParamType::Address, ParamType::Tuple(vec![ParamType::Bool, ParamType::Bytes])]
        ),
        [0x64, 0xcd, 0x14, 0x60]
    );
}

#[test]
fn selector_is_the_same_on_every_call() {
    let kinds = [ParamType::Uint(32), ParamType::Bool];
    let first = short_signature("baz", &kinds);
    let _ = short_signature("other", &[ParamType::Bytes]);
    assert_eq!(short_signature("baz", &kinds), first);
    assert_ne!(short_signature("baz", &[ParamType::Bool, ParamType::Uint(32)]), first);
    assert_ne!(short_signature("bay", &kinds), first);
}

#[test]
fn clones_are_equal() {
    let kind = array_of(ParamType::Tuple(vec![fixed_array_of(ParamType::Uint(8), 2)]));
    assert_eq!(kind.clone(), kind);
    let token = Token::Array(vec![Token::Tuple(vec![
        Token::FixedArray(vec![uint(1), uint(2)]),
        text("s"),
        Token::Bytes(vec![1, 2, 3]),
        Token::FixedBytes(vec![4]),
        Token::Address([6; 20]),
        Token::Int([7; 32]),
        Token::Bool(true),
    ])]);
    assert_eq!(token.clone(), token);
}

#[test]
fn a_buffer_cut_short_fails_or_decodes_alike() {
    let (kinds, tokens, bytes) = nested_arrays();
    let mut decoded = 0;
    for len in 0..=bytes.len() {
        match decode(&kinds, &bytes[..len]) {
            Ok(found) => {
                assert_eq!(found, tokens);
                decoded += 1;
            }
            Err(error) => assert_eq!(error, Error::MalformedEncoding),
        }
    }
    assert_eq!(decoded, 28);
}

#[test]
fn a_buffer_shorter_than_the_head_fails() {
    let kinds = [
        ParamType::Bytes,
        fixed_array_of(ParamType::Uint(256), 3),
        ParamType::Tuple(vec![ParamType::Bool, ParamType::Address]),
        array_of(ParamType::Bool),
    ];
    for len in 0..(7 * 32) {
        assert_eq!(decode(&kinds, &vec![0u8; len]), Err(Error::MalformedEncoding));
    }
}
