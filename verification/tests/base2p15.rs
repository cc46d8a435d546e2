use static_website_search::base2p15::{decode, encode, DecodeError};

#[test]
fn encode_empty_is_bare_header() {
    let encoded = encode(&"".to_string());
    assert_eq!(encoded, "0");
    assert_eq!(decode(&encoded), Ok("".to_string()));
}

#[test]
fn encode_fifteen_zero_bits() {
    let bits = "000000000000000".to_string();
    let encoded = encode(&bits);
    let chars: Vec<char> = encoded.chars().collect();
    assert_eq!(chars.len(), 2);
    assert_eq!(chars[0], '0');
    assert_eq!(chars[1] as u32, 161);
    assert_eq!(decode(&encoded), Ok(bits));
}

#[test]
fn round_trip_samples() {
    for bits in [
        "",
        "0",
        "1",
        "01",
        "101010",
        "11111111111111",
        "000000000000000",
        "111111111111111",
        "0000000000000001",
        "010101101111000011110000111100001111",
    ] {
        let s = bits.to_string();
        assert_eq!(decode(&encode(&s)), Ok(s.clone()), "bits: {bits}");
    }
}

#[test]
fn encoded_length_is_one_plus_group_count() {
    for len in 0..64usize {
        let s: String = std::iter::repeat('1').take(len).collect();
        let encoded = encode(&s);
        assert_eq!(encoded.chars().count(), 1 + (len + 14) / 15, "len: {len}");
    }
}

#[test]
fn encoded_characters_avoid_the_surrogate_band() {
    let s: String = std::iter::repeat("10").take(100).collect();
    for c in encode(&s).chars() {
        let u = c as u32;
        assert!(!(0xD800..=0xDFFF).contains(&u));
        assert!(u < 0xD800);
    }
}

#[test]
fn decode_rejects_empty_input() {
    assert_eq!(decode(&"".to_string()), Err(DecodeError::TooShort));
}

#[test]
fn decode_rejects_bad_headers() {
    // not a hex digit at all
    assert_eq!(decode(&"z".to_string()), Err(DecodeError::InvalidHeader));
    // hex digit, but 15 is no padding length
    assert_eq!(decode(&"f".to_string()), Err(DecodeError::InvalidHeader));
}

#[test]
fn decode_reads_uppercase_hex_headers() {
    // 'E' also names padding length 14
    assert_eq!(decode(&"E".to_string()), Ok("".to_string()));
    assert_eq!(decode(&"F".to_string()), Err(DecodeError::InvalidHeader));
}

#[test]
fn decode_rejects_data_characters_out_of_range() {
    // one below the data offset
    assert_eq!(
        decode(&"0\u{a0}".to_string()),
        Err(DecodeError::InvalidData)
    );
    // one past the data range [161, 32929)
    assert_eq!(
        decode(&"0\u{80a1}".to_string()),
        Err(DecodeError::InvalidData)
    );
    // the top of the data range is still accepted
    assert!(decode(&"0\u{80a0}".to_string()).is_ok());
}

#[test]
fn decode_drops_padding_from_the_last_group() {
    // "1" pads to "100000000000000": one group of value 2^14, header 'e'
    let encoded = encode(&"1".to_string());
    let chars: Vec<char> = encoded.chars().collect();
    assert_eq!(chars[0], 'e');
    assert_eq!(chars[1] as u32, 161 + 16384);
    assert_eq!(decode(&encoded), Ok("1".to_string()));
}
