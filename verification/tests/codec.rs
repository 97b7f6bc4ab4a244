use base32768::decoder;
use base32768::{decode, encode, DecodeError};

fn sample(n: usize) -> Vec<u8> {
    (0..n).map(|i| (i * 37 + 11) as u8).collect()
}

#[test]
fn encode_empty_is_empty() {
    assert_eq!(encode(&[]), "");
}

#[test]
fn encode_hello_world() {
    assert_eq!(encode(b"hello world"), "媒腻㐤┖ꈳ埳");
}

#[test]
fn encode_one_zero_byte_pads_with_ones() {
    // 8 data bits followed by 7 one bits: value 0x7F of the fifteen-bit repertoire
    assert_eq!(encode(&[0]), "\u{6bf}");
}

#[test]
fn encode_two_bytes_ends_with_seven_bit_character() {
    assert_eq!(encode(&[0, 0]), "\u{4a0}\u{25f}");
}

#[test]
fn encode_all_ones_uses_last_character() {
    assert_eq!(encode(&[0xff; 15]), "\u{a85f}".repeat(8));
    assert_eq!(encode(&[0xff]), "\u{a85f}");
}

#[test]
fn encode_counting_bytes() {
    let bytes: Vec<u8> = (0..16).collect();
    assert_eq!(
        encode(&bytes),
        "\u{4a0}\u{66e0}\u{86e0}\u{76c0}\u{5ea0}\u{4a68}\u{3c58}\u{2cce}\u{259f}"
    );
    let bytes: Vec<u8> = (0..20).collect();
    assert_eq!(
        encode(&bytes),
        "\u{4a0}\u{66e0}\u{86e0}\u{76c0}\u{5ea0}\u{4a68}\u{3c58}\u{2cce}\u{2528}\u{15c4}\u{68df}"
    );
}

#[test]
fn encode_length_is_one_char_per_started_fifteen_bits() {
    for n in 0..64 {
        let e = encode(&sample(n));
        assert_eq!(e.chars().count(), (8 * n + 14) / 15, "n = {}", n);
    }
}

#[test]
fn strict_decode_empty() {
    assert_eq!(decoder::decode(""), Ok(vec![]));
}

#[test]
fn strict_decode_hello_world() {
    assert_eq!(decoder::decode("媒腻㐤┖ꈳ埳"), Ok(b"hello world".to_vec()));
}

#[test]
fn strict_roundtrip_many_lengths() {
    for n in 0..200 {
        let b = sample(n);
        assert_eq!(decoder::decode(&encode(&b)), Ok(b), "n = {}", n);
    }
}

#[test]
fn strict_accepts_seven_bit_final_character() {
    assert_eq!(decoder::decode("\u{4a0}\u{29f}"), Ok(vec![0, 1]));
}

#[test]
fn strict_rejects_unknown_final_character() {
    assert_eq!(decoder::decode("a"), Err(DecodeError::UnrecognizedCharacter('a')));
    assert_eq!(
        decoder::decode("媒腻㐤a"),
        Err(DecodeError::UnrecognizedCharacter('a'))
    );
}

#[test]
fn strict_reports_surrogates_as_nul() {
    assert_eq!(
        decoder::decode("\u{10000}"),
        Err(DecodeError::UnrecognizedCharacter('\0'))
    );
}

#[test]
fn strict_rejects_seven_bit_character_before_the_end() {
    assert_eq!(
        decoder::decode("\u{180}\u{4a0}\u{4a0}"),
        Err(DecodeError::UnexpectedSecondaryCharacter(0))
    );
    assert_eq!(
        decoder::decode("\u{4a0}\u{180}\u{4a0}"),
        Err(DecodeError::UnexpectedSecondaryCharacter(1))
    );
}

#[test]
fn strict_reports_position_of_seven_bit_character_in_group_of_eight() {
    let s = "\u{4a5}\u{4a6}\u{181}\u{4a7}\u{4a7}\u{4a7}\u{4a7}\u{4a7}\u{4a7}\u{6bf}";
    assert_eq!(
        decoder::decode(s),
        Err(DecodeError::UnexpectedSecondaryCharacter(2))
    );
}

#[test]
fn strict_reports_position_of_seven_bit_character_in_pair() {
    // eight units read as a group, then pairs: the second unit of the first pair
    let s = "\u{4a0}\u{4a0}\u{4a0}\u{4a0}\u{4a0}\u{4a0}\u{4a0}\u{4a0}\u{4a0}\u{181}\u{4a0}\u{6bf}";
    assert_eq!(
        decoder::decode(s),
        Err(DecodeError::UnexpectedSecondaryCharacter(9))
    );
}

#[test]
fn strict_reports_position_of_seven_bit_character_read_alone() {
    // one pair, then the unit left before the last
    assert_eq!(
        decoder::decode("\u{4a0}\u{4a0}\u{180}\u{4a0}"),
        Err(DecodeError::UnexpectedSecondaryCharacter(2))
    );
}

#[test]
fn strict_unrecognised_unit_in_a_pair_comes_before_a_seven_bit_one() {
    assert_eq!(
        decoder::decode("\u{180}a\u{4A0}\u{4A0}"),
        Err(DecodeError::UnrecognizedCharacter('a'))
    );
    assert_eq!(
        decoder::decode("\u{4a0}a\u{180}\u{4a0}"),
        Err(DecodeError::UnrecognizedCharacter('a'))
    );
    assert_eq!(
        decoder::decode("\u{4a0}\u{180}a\u{4a0}"),
        Err(DecodeError::UnexpectedSecondaryCharacter(1))
    );
}

#[test]
fn strict_unrecognised_unit_in_a_group_of_eight_comes_first() {
    let s = "\u{4a5}\u{4a6}\u{181}\u{4a7}\u{4a7}a\u{4a7}\u{4a7}\u{4a7}\u{6bf}";
    assert_eq!(decoder::decode(s), Err(DecodeError::UnrecognizedCharacter('a')));
}

#[test]
fn strict_errors_are_found_group_by_group() {
    // the seven-bit unit's pair is read before the pair holding the unknown unit
    let s = "\u{4a0}\u{4a0}\u{4a0}\u{4a0}\u{4a0}\u{4a0}\u{4a0}\u{4a0}\u{181}\u{4a0}a\u{4a0}\u{6bf}";
    assert_eq!(
        decoder::decode(s),
        Err(DecodeError::UnexpectedSecondaryCharacter(8))
    );
}

#[test]
fn strict_reports_surrogate_before_the_end_as_nul() {
    assert_eq!(
        decoder::decode("\u{10000}\u{4a0}"),
        Err(DecodeError::UnrecognizedCharacter('\0'))
    );
}

#[test]
fn strict_checks_last_unit_before_the_others() {
    assert_eq!(
        decoder::decode("\u{180}\u{4a0}a"),
        Err(DecodeError::UnrecognizedCharacter('a'))
    );
}

#[test]
fn strict_reports_unknown_character_inside_group() {
    let s = "\u{4a5}\u{4a6}a\u{4a7}\u{4a7}\u{4a7}\u{4a7}\u{4a7}\u{4a7}\u{6bf}";
    assert_eq!(
        decoder::decode(s),
        Err(DecodeError::UnrecognizedCharacter('a'))
    );
}

#[test]
fn strict_rejects_padding_with_zeros() {
    assert_eq!(decoder::decode("\u{4a0}"), Err(DecodeError::PaddingMismatch));
}

#[test]
fn strict_accepts_dataless_seven_bit_character() {
    // a seven-bit character whose seven bits are all padding carries no byte
    assert_eq!(decoder::decode("\u{29f}"), Ok(vec![]));
}

#[test]
fn lenient_decode_empty() {
    assert_eq!(decode(""), Vec::<u8>::new());
}

#[test]
fn lenient_decode_hello_world() {
    assert_eq!(decode("媒腻㐤┖ꈳ埳"), b"hello world".to_vec());
}

#[test]
fn lenient_roundtrip_many_lengths() {
    for n in 0..200 {
        let b = sample(n);
        assert_eq!(decode(&encode(&b)), b, "n = {}", n);
    }
}

#[test]
fn lenient_skips_unknown_characters() {
    let e = encode(b"hello");
    let s = format!("a{}b\u{10000}", e);
    assert_eq!(decode(&s), b"hello".to_vec());
}

#[test]
fn lenient_accepts_seven_bit_character_anywhere() {
    assert_eq!(decode("\u{180}\u{4a0}\u{4a0}"), vec![0, 0, 0, 0]);
}

#[test]
fn lenient_ignores_padding() {
    assert_eq!(decode("\u{4a0}"), vec![0]);
}

#[test]
fn lenient_fast_path_then_slow_path() {
    // sixteen fifteen-bit characters, then a seven-bit one
    let b = sample(31);
    let e = encode(&b);
    assert_eq!(e.chars().count(), 17);
    assert_eq!(decode(&e), b);
}

#[test]
fn decoders_agree_on_accepted_text() {
    for n in 0..50 {
        let e = encode(&sample(n));
        assert_eq!(decoder::decode(&e).unwrap(), decode(&e));
    }
}

#[test]
fn strict_decoding_is_canonical() {
    let s = "\u{4a0}\u{29f}";
    let b = decoder::decode(s).unwrap();
    assert_eq!(b, vec![0, 1]);
    assert_eq!(encode(&b), s);
    for n in 0..40 {
        let e = encode(&sample(n));
        assert_eq!(encode(&decoder::decode(&e).unwrap()), e);
    }
}

#[test]
fn dataless_final_character_is_not_reencoded() {
    // the one exception to canonicity: a final seven-bit character of padding only
    let b = decoder::decode("\u{29f}").unwrap();
    assert_eq!(encode(&b), "");
}

#[test]
fn strict_group_of_two_reports_unknown_second() {
    // nine characters: one group of eight, then the last; ten: eight, one, last;
    // eleven: eight, a pair, last
    let s = "\u{4a7}\u{4a7}\u{4a7}\u{4a7}\u{4a7}\u{4a7}\u{4a7}\u{4a7}\u{4a7}b\u{6bf}";
    assert_eq!(
        decoder::decode(s),
        Err(DecodeError::UnrecognizedCharacter('b'))
    );
}
