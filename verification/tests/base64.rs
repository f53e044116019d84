use ssss_rs::encoding::base64::{b64_char_to_u6, base64_decode_bytes, u6_to_b64_char};
use ssss_rs::encoding::util::{bytes_to_u6, decode_quartet_chunk, encode_triplet_chunk, u6_to_bytes};
use ssss_rs::encoding::{base64_decode, base64_encode};
use ssss_rs::err::{ErrKind, SsssErr};

#[test]
fn empty_is_empty() -> Result<(), SsssErr> {
    let encoded_output = base64_encode("".as_bytes())?;
    assert_eq!("", encoded_output);

    let decoded_output = base64_decode("").unwrap();
    assert_eq!("".as_bytes(), decoded_output);

    Ok(())
}

#[test]
fn base64_empty_is_empty() -> Result<(), SsssErr> {
    let encoded_output = base64_encode("".as_bytes())?;
    assert_eq!("", encoded_output);

    let decoded_output = base64_decode("").unwrap();
    assert_eq!("".as_bytes(), decoded_output);

    Ok(())
}

fn check_vector(decoded: &str, encoded: &str) {
    let encoded_output = base64_encode(decoded.as_bytes()).unwrap();
    assert_eq!(encoded, encoded_output);

    let decoded_output = base64_decode(encoded).unwrap();
    assert_eq!(decoded.as_bytes(), decoded_output);
}

#[test]
fn test_base64_encode_one_byte() {
    check_vector("A", "QQ==");
}

#[test]
fn test_base64_encode_two_bytes() {
    check_vector("AB", "QUI=");
}

#[test]
fn test_base64_encode_three_bytes() {
    check_vector("ABC", "QUJD");
}

#[test]
fn longer_known_vectors() {
    check_vector("hello world", "aGVsbG8gd29ybGQ=");
    assert_eq!("//79", base64_encode(&[255, 254, 253]).unwrap());
    assert_eq!("+vv8/f7/AAE=", base64_encode(&[250, 251, 252, 253, 254, 255, 0, 1]).unwrap());
    assert_eq!(vec![250, 251, 252, 253, 254, 255, 0, 1], base64_decode("+vv8/f7/AAE=").unwrap());
}

#[test]
fn round_trip_of_every_length() {
    let mut bytes: Vec<u8> = Vec::new();
    let mut state: u32 = 12345;
    for _ in 0..100 {
        let text = base64_encode(&bytes).unwrap();
        assert_eq!(4 * ((bytes.len() + 2) / 3), text.len());
        assert_eq!(bytes, base64_decode(&text).unwrap());
        state = state.wrapping_mul(1103515245).wrapping_add(12345);
        bytes.push((state >> 16) as u8);
    }
}

#[test]
fn round_trip_of_every_byte() {
    let bytes: Vec<u8> = (0..=255u8).collect();
    let text = base64_encode(&bytes).unwrap();
    assert_eq!(bytes, base64_decode(&text).unwrap());
}

#[test]
fn lengths_that_are_no_multiple_of_four_are_refused() {
    for text in ["Q", "QQ", "QQ=", "QUJDQ", "====="] {
        assert_eq!(ErrKind::InvalidLength, base64_decode(text).unwrap_err().kind);
    }
}

#[test]
fn characters_outside_the_alphabet_are_refused() {
    for text in ["QQ!=", "Q*JD", "QUJD-UJD", "QUJ\n", "    ", "QUI=QU_D"] {
        assert_eq!(ErrKind::InvalidCharacter, base64_decode(text).unwrap_err().kind);
    }
    // two bytes of UTF-8 for one character, four bytes in all
    assert_eq!(ErrKind::InvalidCharacter, base64_decode("QQ\u{e9}").unwrap_err().kind);
}

#[test]
fn the_length_is_checked_before_the_characters() {
    assert_eq!(ErrKind::InvalidLength, base64_decode("!!!").unwrap_err().kind);
}

#[test]
fn pads_drop_bytes_of_their_group() {
    assert_eq!(vec![65], base64_decode("QQ==").unwrap());
    assert_eq!(vec![65, 66], base64_decode("QUI=").unwrap());
    assert_eq!(vec![65, 66, 67], base64_decode("QUJD").unwrap());
    assert_eq!(vec![0], base64_decode("====").unwrap());
    assert_eq!(vec![64], base64_decode("Q===").unwrap());
    assert_eq!(vec![65, 65, 66, 67], base64_decode("QQ==QUJD").unwrap());
}

#[test]
fn decoding_bytes_is_decoding_text() {
    assert_eq!(vec![65, 66, 67, 65], base64_decode_bytes(b"QUJDQQ==").unwrap());
    assert_eq!(ErrKind::InvalidLength, base64_decode_bytes(b"QUJDQ").unwrap_err().kind);
}

#[test]
fn the_alphabet_in_order() {
    let alphabet = b"ABCDEFGHIJKLMNOPQRSTUVWXYZabcdefghijklmnopqrstuvwxyz0123456789+/";
    for v in 0..64u8 {
        assert_eq!(alphabet[v as usize], u6_to_b64_char(&v).unwrap());
        assert_eq!(v, b64_char_to_u6(&alphabet[v as usize]).unwrap());
    }
    for v in 64..=255u8 {
        assert_eq!(ErrKind::InvalidCharacter, u6_to_b64_char(&v).unwrap_err().kind);
    }
}

#[test]
fn values_of_all_bytes() {
    let alphabet = b"ABCDEFGHIJKLMNOPQRSTUVWXYZabcdefghijklmnopqrstuvwxyz0123456789+/";
    for c in 0..=255u8 {
        let result = b64_char_to_u6(&c);
        if alphabet.contains(&c) {
            assert!(result.is_ok());
        } else if c == b'=' {
            assert_eq!(0, result.unwrap());
        } else {
            assert_eq!(ErrKind::InvalidCharacter, result.unwrap_err().kind);
        }
    }
}

#[test]
fn six_bit_values_of_three_bytes() {
    assert_eq!(vec![16, 20, 9, 3], bytes_to_u6(&[65, 66, 67]));
    assert_eq!(vec![63, 63, 63, 63], bytes_to_u6(&[255, 255, 255]));
    assert_eq!(vec![0, 0, 0, 0], bytes_to_u6(&[0, 0, 0]));
    assert_eq!(vec![65, 66, 67], u6_to_bytes(&[16, 20, 9, 3]));
    assert_eq!(vec![255, 255, 255], u6_to_bytes(&[63, 63, 63, 63]));
    // of a value above 63 only the low bits fall into the group
    assert_eq!(vec![4, 0, 0], u6_to_bytes(&[65, 0, 0, 0]));
}

#[test]
fn chunks_with_a_mapper() {
    let plain = |b: &u8| -> Result<u8, SsssErr> { Ok(*b) };
    assert_eq!(vec![16, 20, 9, 3], encode_triplet_chunk(&[65, 66, 67], plain, 99).unwrap());
    assert_eq!(vec![16, 20, 8, 99], encode_triplet_chunk(&[65, 66], plain, 99).unwrap());
    assert_eq!(vec![16, 16, 99, 99], encode_triplet_chunk(&[65], plain, 99).unwrap());
    assert_eq!(
        vec![b'Q', b'U', b'J', b'D'],
        encode_triplet_chunk(&[65, 66, 67], |b| u6_to_b64_char(b), b'=').unwrap()
    );
    let failing = |b: &u8| -> Result<u8, SsssErr> {
        if *b == 9 {
            Err(SsssErr::new(ErrKind::InvalidCharacter))
        } else {
            Ok(*b)
        }
    };
    assert_eq!(
        ErrKind::InvalidCharacter,
        encode_triplet_chunk(&[65, 66, 67], failing, 99).unwrap_err().kind
    );
}

#[test]
fn quartets_with_a_demapper() {
    let plain = |b: &u8| -> Result<u8, SsssErr> { Ok(*b) };
    assert_eq!(vec![65, 66, 67], decode_quartet_chunk(&[16, 20, 9, 3], plain, 99).unwrap());
    assert_eq!(vec![65, 66], decode_quartet_chunk(&[16, 20, 8, 99], plain, 99).unwrap());
    assert_eq!(vec![65], decode_quartet_chunk(&[16, 16, 99, 99], plain, 99).unwrap());
    assert_eq!(vec![65], decode_quartet_chunk(&[16, 16, 99, 3], plain, 99).unwrap());
    assert_eq!(
        vec![65, 66, 67],
        decode_quartet_chunk(b"QUJD", |b| b64_char_to_u6(b), b'=').unwrap()
    );
    assert_eq!(
        ErrKind::InvalidCharacter,
        decode_quartet_chunk(b"QU?D", |b| b64_char_to_u6(b), b'=').unwrap_err().kind
    );
}

#[test]
fn errors_describe_themselves() {
    assert_eq!("cannot parse shard", SsssErr::new(ErrKind::MalformedShard).to_string());
    assert_eq!(
        "division by zero in GF(256)",
        SsssErr::new(ErrKind::DivisionByZero).to_string()
    );
    assert_eq!(
        "base64 length is not a multiple of four",
        SsssErr::new(ErrKind::InvalidLength).to_string()
    );
    assert_eq!(
        "symbol outside the base64 alphabet",
        SsssErr::new(ErrKind::InvalidCharacter).to_string()
    );
    assert_eq!(
        "shard index is not a number from 0 to 255",
        SsssErr::new(ErrKind::InvalidIndex).to_string()
    );
    assert_eq!(
        "shards differ in payload length",
        SsssErr::new(ErrKind::LengthMismatch).to_string()
    );
}

#[test]
fn encoding_what_a_text_stands_for_writes_the_text() {
    let texts =
        ["", "QQ==", "QUI=", "QUJD", "QUJDQQ==", "aGVsbG8gd29ybGQ=", "+vv8/f7/AAE=", "////"];
    for text in texts {
        let bytes = base64_decode(text).unwrap();
        assert_eq!(text, base64_encode(&bytes).unwrap());
    }
}

#[test]
fn bits_that_reach_no_byte_are_lost() {
    assert_eq!(vec![65], base64_decode("QR==").unwrap());
    assert_eq!("QQ==", base64_encode(&base64_decode("QR==").unwrap()).unwrap());
    assert_eq!(vec![65, 66], base64_decode("QUJ=").unwrap());
    assert_eq!("QUI=", base64_encode(&base64_decode("QUJ=").unwrap()).unwrap());
}
