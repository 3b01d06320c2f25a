use order_embedding::implementations::{
    decode_bool, decode_char, decode_f32_bits, decode_f64_bits, encode_f32_bits, encode_f64_bits,
    TotalF32, TotalF64, decode_i128, decode_i16, decode_i32, decode_i64, decode_i8,
    decode_string, decode_pair, decode_u128, decode_u16, decode_u32, decode_u64, decode_u8,
    encode_bool, encode_char, encode_i128, encode_i16, encode_i32, encode_i64, encode_i8,
    encode_string, encode_pair, encode_u128, encode_u16, encode_u32, encode_u64, encode_u8,
};
use order_embedding::{
    DecodeError, FixedSizeEmbedding, VariableSizeEmbedding, VariableSizeEmbeddingDecoder,
    VariableSizeEmbeddingEncoder,
};

#[test]
fn bool_bytes_and_order() {
    assert_eq!(encode_bool(false).into_data(), [0x00]);
    assert_eq!(encode_bool(true).into_data(), [0x01]);
    assert!(encode_bool(false) < encode_bool(true));
    assert!(!decode_bool(encode_bool(false)));
    assert!(decode_bool(encode_bool(true)));
    assert!(decode_bool(FixedSizeEmbedding::new([0x7F])));
}

#[test]
fn i8_bytes_and_order() {
    assert_eq!(encode_i8(-1).into_data(), [0x7F]);
    assert_eq!(encode_i8(0).into_data(), [0x80]);
    assert_eq!(encode_i8(127).into_data(), [0xFF]);
    assert_eq!(encode_i8(-128).into_data(), [0x00]);
    assert!(encode_i8(-1) < encode_i8(0));
    assert!(encode_i8(0) < encode_i8(127));
}

#[test]
fn u8_bytes() {
    assert_eq!(encode_u8(0).into_data(), [0x00]);
    assert_eq!(encode_u8(255).into_data(), [0xFF]);
    assert_eq!(decode_u8(encode_u8(200)), 200);
}

#[test]
fn integer_bytes_are_big_endian() {
    assert_eq!(encode_u16(0x1234).into_data(), [0x12, 0x34]);
    assert_eq!(encode_u32(0x0102_0304).into_data(), [1, 2, 3, 4]);
    assert_eq!(encode_u64(1).into_data(), [0, 0, 0, 0, 0, 0, 0, 1]);
    assert_eq!(encode_i16(1).into_data(), [0x80, 0x01]);
    assert_eq!(encode_i32(-2).into_data(), [0x7F, 0xFF, 0xFF, 0xFE]);
    assert_eq!(encode_i64(i64::MIN).into_data(), [0; 8]);
    assert_eq!(encode_i128(i128::MIN).into_data(), [0; 16]);
    assert_eq!(encode_i128(i128::MAX).into_data(), [0xFF; 16]);
    assert_eq!(encode_u128(u128::MAX).into_data(), [0xFF; 16]);
    let mut one = [0u8; 16];
    one[0] = 0x80;
    one[15] = 1;
    assert_eq!(encode_i128(1).into_data(), one);
}

#[test]
fn fixed_widths() {
    assert_eq!(encode_bool(true).data().len(), 1);
    assert_eq!(encode_char('x').data().len(), 4);
    assert_eq!(encode_i8(3).data().len(), 1);
    assert_eq!(encode_u16(3).data().len(), 2);
    assert_eq!(encode_i32(3).data().len(), 4);
    assert_eq!(encode_u64(3).data().len(), 8);
    assert_eq!(encode_i128(3).data().len(), 16);
}

#[test]
fn signed_round_trips() {
    for x in [i8::MIN, -100, -1, 0, 1, 55, i8::MAX] {
        assert_eq!(decode_i8(encode_i8(x)), x);
    }
    for x in [i16::MIN, -300, -1, 0, 1, 300, i16::MAX] {
        assert_eq!(decode_i16(encode_i16(x)), x);
    }
    for x in [i32::MIN, -70_000, -1, 0, 1, 70_000, i32::MAX] {
        assert_eq!(decode_i32(encode_i32(x)), x);
    }
    for x in [i64::MIN, -5_000_000_000, -1, 0, 1, 5_000_000_000, i64::MAX] {
        assert_eq!(decode_i64(encode_i64(x)), x);
    }
    for x in [i128::MIN, -(1i128 << 100), -1, 0, 1, 1i128 << 100, i128::MAX] {
        assert_eq!(decode_i128(encode_i128(x)), x);
    }
}

#[test]
fn unsigned_round_trips() {
    for x in [0u16, 1, 256, u16::MAX] {
        assert_eq!(decode_u16(encode_u16(x)), x);
    }
    for x in [0u32, 1, 65_536, u32::MAX] {
        assert_eq!(decode_u32(encode_u32(x)), x);
    }
    for x in [0u64, 1, 1 << 40, u64::MAX] {
        assert_eq!(decode_u64(encode_u64(x)), x);
    }
    for x in [0u128, 1, 1 << 90, u128::MAX] {
        assert_eq!(decode_u128(encode_u128(x)), x);
    }
}

#[test]
fn signed_sorting() {
    let values = vec![5i32, -3, i32::MAX, 0, i32::MIN, -1, 1, 77, -70_000];
    let mut embeddings: Vec<FixedSizeEmbedding<i32, 4>> =
        values.iter().map(|x| encode_i32(*x)).collect();
    embeddings.sort();
    let actual: Vec<i32> = embeddings.into_iter().map(decode_i32).collect();
    let mut expected = values;
    expected.sort();
    assert_eq!(actual, expected);
}

#[test]
fn i128_sorting() {
    let values = vec![i128::MAX, -1, 0, i128::MIN, 1 << 70, -(1 << 70), 3];
    let mut embeddings: Vec<FixedSizeEmbedding<i128, 16>> =
        values.iter().map(|x| encode_i128(*x)).collect();
    embeddings.sort();
    let actual: Vec<i128> = embeddings.into_iter().map(decode_i128).collect();
    let mut expected = values;
    expected.sort();
    assert_eq!(actual, expected);
}

#[test]
fn unsigned_sorting() {
    let values = vec![300u64, 2, u64::MAX, 0, 1 << 33, 255, 256];
    let mut embeddings: Vec<FixedSizeEmbedding<u64, 8>> =
        values.iter().map(|x| encode_u64(*x)).collect();
    embeddings.sort();
    let actual: Vec<u64> = embeddings.into_iter().map(decode_u64).collect();
    let mut expected = values;
    expected.sort();
    assert_eq!(actual, expected);
}

#[test]
fn char_round_trip_and_order() {
    assert_eq!(encode_char('a').into_data(), [0, 0, 0, 0x61]);
    assert_eq!(encode_char('\u{10FFFF}').into_data(), [0, 0x10, 0xFF, 0xFF]);
    for c in ['\0', 'a', 'Z', 'é', '€', '😀', '\u{10FFFF}'] {
        assert_eq!(decode_char(encode_char(c)), Ok(c));
    }
    assert!(encode_char('a') < encode_char('b'));
    assert!(encode_char('z') < encode_char('é'));
    assert!(encode_char('€') < encode_char('😀'));
}

#[test]
fn char_invalid_scalar() {
    assert_eq!(
        decode_char(FixedSizeEmbedding::new([0, 0, 0xD8, 0x00])),
        Err(DecodeError::InvalidScalarValue)
    );
    assert_eq!(
        decode_char(FixedSizeEmbedding::new([0, 0x11, 0, 0])),
        Err(DecodeError::InvalidScalarValue)
    );
    assert_eq!(
        decode_char(FixedSizeEmbedding::new([0xFF, 0xFF, 0xFF, 0xFF])),
        Err(DecodeError::InvalidScalarValue)
    );
}

#[test]
fn string_bytes() {
    assert_eq!(encode_string(String::new()).into_data(), vec![0x00, 0x00]);
    assert_eq!(encode_string("a".to_string()).into_data(), vec![0x61, 0x00, 0x00]);
    assert!(encode_string(String::new()) < encode_string("a".to_string()));
    assert_eq!(encode_string("é".to_string()).into_data(), vec![0xC3, 0xA9, 0x00, 0x00]);
}

#[test]
fn string_with_zero_byte() {
    let e = encode_string("\u{0}x".to_string());
    assert_eq!(e.data(), &[0x00, 0x01, 0x78, 0x00, 0x00]);
    assert_eq!(decode_string(e), Ok("\u{0}x".to_string()));
}

#[test]
fn string_round_trips() {
    for s in ["", "a", "hello", "\u{0}", "\u{0}\u{0}", "a\u{0}b", "日本語", "😀x"] {
        assert_eq!(decode_string(encode_string(s.to_string())), Ok(s.to_string()));
    }
}

#[test]
fn string_sorting() {
    let values: Vec<String> = ["b", "", "a\u{0}", "a", "ab", "\u{0}", "é", "z", "aa"]
        .iter()
        .map(|s| s.to_string())
        .collect();
    let mut embeddings: Vec<VariableSizeEmbedding<String>> =
        values.iter().cloned().map(encode_string).collect();
    embeddings.sort();
    let actual: Vec<String> = embeddings.into_iter().map(|e| decode_string(e).unwrap()).collect();
    let mut expected = values;
    expected.sort();
    assert_eq!(actual, expected);
}

#[test]
fn prefix_sorts_first() {
    assert!(encode_string("ab".to_string()) < encode_string("abc".to_string()));
    assert!(encode_string("a".to_string()) < encode_string("a\u{0}".to_string()));
    assert!(encode_string("\u{0}".to_string()) < encode_string("\u{0}\u{0}".to_string()));
}

#[test]
fn string_decode_errors() {
    assert_eq!(
        decode_string(VariableSizeEmbedding::new(vec![0x01])),
        Err(DecodeError::UnexpectedEndOfInput)
    );
    assert_eq!(
        decode_string(VariableSizeEmbedding::new(vec![0x00, 0x02])),
        Err(DecodeError::InvalidEscapeSequence)
    );
    assert_eq!(
        decode_string(VariableSizeEmbedding::new(vec![])),
        Err(DecodeError::UnexpectedEndOfInput)
    );
    assert_eq!(
        decode_string(VariableSizeEmbedding::new(vec![0x61, 0x00])),
        Err(DecodeError::UnexpectedEndOfInput)
    );
    assert_eq!(
        decode_string(VariableSizeEmbedding::new(vec![0x61, 0x00, 0x00, 0x62])),
        Err(DecodeError::TrailingData)
    );
    assert_eq!(
        decode_string(VariableSizeEmbedding::new(vec![0xFF, 0x00, 0x00])),
        Err(DecodeError::InvalidScalarValue)
    );
}

#[test]
fn escape_well_formed() {
    let e = encode_pair(("\u{0}a\u{0}".to_string(), "\u{0}".to_string()));
    let d = e.data();
    let mut i = 0;
    while i < d.len() {
        if d[i] == 0 {
            assert!(i + 1 < d.len());
            assert!(d[i + 1] == 0 || d[i + 1] == 1);
            i += 2;
        } else {
            i += 1;
        }
    }
    assert_eq!(i, d.len());
}

#[test]
fn pair_bytes_and_round_trip() {
    let e = encode_pair(("a".to_string(), "\u{0}".to_string()));
    assert_eq!(e.data(), &[0x61, 0x00, 0x00, 0x00, 0x01, 0x00, 0x00]);
    assert_eq!(decode_pair(e), Ok(("a".to_string(), "\u{0}".to_string())));
    for (a, b) in [("", ""), ("x", ""), ("", "y"), ("ab", "c\u{0}d"), ("日", "本")] {
        let v = (a.to_string(), b.to_string());
        assert_eq!(decode_pair(encode_pair(v.clone())), Ok(v));
    }
}

#[test]
fn pair_sorting() {
    let values: Vec<(String, String)> = [
        ("a", "b"),
        ("a", ""),
        ("", "z"),
        ("ab", ""),
        ("a", "ba"),
        ("a\u{0}", "a"),
        ("b", "a"),
        ("a", "b\u{0}"),
    ]
    .iter()
    .map(|(a, b)| (a.to_string(), b.to_string()))
    .collect();
    let mut embeddings: Vec<VariableSizeEmbedding<(String, String)>> =
        values.iter().cloned().map(encode_pair).collect();
    embeddings.sort();
    let actual: Vec<(String, String)> =
        embeddings.into_iter().map(|e| decode_pair(e).unwrap()).collect();
    let mut expected = values;
    expected.sort();
    assert_eq!(actual, expected);
}

#[test]
fn pair_decode_errors() {
    assert_eq!(
        decode_pair::<String, String>(VariableSizeEmbedding::new(vec![0x61, 0x00, 0x00])),
        Err(DecodeError::UnexpectedEndOfInput)
    );
    assert_eq!(
        decode_pair::<String, String>(VariableSizeEmbedding::new(vec![0x61, 0x00, 0x00, 0x62, 0x00, 0x00, 0x63])),
        Err(DecodeError::TrailingData)
    );
    assert_eq!(
        decode_pair::<String, String>(VariableSizeEmbedding::new(vec![0x80, 0x00, 0x00, 0x62, 0x00, 0x00])),
        Err(DecodeError::InvalidScalarValue)
    );
    assert_eq!(
        decode_pair::<String, String>(VariableSizeEmbedding::new(vec![0x61, 0x00, 0x00, 0x00, 0x05])),
        Err(DecodeError::InvalidEscapeSequence)
    );
}

#[test]
fn encoder_decoder_fields() {
    let mut encoder: VariableSizeEmbeddingEncoder<()> = VariableSizeEmbeddingEncoder::default();
    encoder.push_variable(VariableSizeEmbedding::<()>::new(vec![1, 0, 2]));
    encoder.push_variable(VariableSizeEmbedding::<()>::new(vec![]));
    encoder.push_variable(VariableSizeEmbedding::<()>::new(vec![0]));
    let e = encoder.finalize();
    assert_eq!(e.data(), &[1, 0, 1, 2, 0, 0, 0, 0, 0, 1, 0, 0]);
    let mut decoder = VariableSizeEmbeddingDecoder::new(e);
    assert_eq!(decoder.read_variable::<()>().unwrap().into_data(), vec![1, 0, 2]);
    assert_eq!(decoder.read_variable::<()>().unwrap().into_data(), Vec::<u8>::new());
    assert_eq!(decoder.read_variable::<()>().unwrap().into_data(), vec![0]);
    assert_eq!(decoder.read_variable::<()>(), Err(DecodeError::UnexpectedEndOfInput));
    assert_eq!(decoder.finalize(), Ok(()));
}

#[test]
fn decoder_trailing_data() {
    let mut decoder = VariableSizeEmbeddingDecoder::new(VariableSizeEmbedding::<()>::new(vec![7, 0, 0, 9]));
    assert_eq!(decoder.read_variable::<()>().unwrap().into_data(), vec![7]);
    assert_eq!(decoder.finalize(), Err(DecodeError::TrailingData));
}

#[test]
fn embedding_accessors() {
    let f: FixedSizeEmbedding<u16, 2> = FixedSizeEmbedding::new([3, 4]);
    assert_eq!(f.data(), &[3, 4]);
    assert_eq!(f.into_data(), [3, 4]);
    assert_eq!(f.clone(), f);
    let v: VariableSizeEmbedding<String> = VariableSizeEmbedding::new(vec![9, 8]);
    assert_eq!(v.data(), &[9, 8]);
    assert_eq!(v.clone().into_data(), vec![9, 8]);
}

#[test]
fn float_bytes() {
    assert_eq!(encode_f32_bits(TotalF32 { bits: 0.0f32.to_bits() }).into_data(), [0x80, 0, 0, 0]);
    assert_eq!(encode_f32_bits(TotalF32 { bits: (-0.0f32).to_bits() }).into_data(), [0x7F, 0xFF, 0xFF, 0xFF]);
    assert_eq!(encode_f32_bits(TotalF32 { bits: 1.0f32.to_bits() }).into_data(), [0xBF, 0x80, 0, 0]);
    assert_eq!(encode_f32_bits(TotalF32 { bits: (-1.0f32).to_bits() }).into_data(), [0x40, 0x7F, 0xFF, 0xFF]);
    assert_eq!(
        encode_f64_bits(TotalF64 { bits: 1.0f64.to_bits() }).into_data(),
        [0xBF, 0xF0, 0, 0, 0, 0, 0, 0]
    );
}

#[test]
fn f32_round_trip_and_sorting() {
    let values = [3.5f32, -0.0, 0.0, -1.0, f32::INFINITY, f32::NEG_INFINITY, f32::MIN_POSITIVE, -1e30, 1e-30, f32::MAX, f32::MIN];
    for x in values {
        let back = decode_f32_bits(encode_f32_bits(TotalF32 { bits: x.to_bits() }));
        assert_eq!(f32::from_bits(back.bits).to_bits(), x.to_bits());
    }
    let mut embeddings: Vec<FixedSizeEmbedding<TotalF32, 4>> =
        values.iter().map(|x| encode_f32_bits(TotalF32 { bits: x.to_bits() })).collect();
    embeddings.sort_by(|a, b| a.data().cmp(b.data()));
    let actual: Vec<u32> = embeddings.into_iter().map(|e| decode_f32_bits(e).bits).collect();
    let mut expected = values.to_vec();
    expected.sort_by(|a, b| a.total_cmp(b));
    let expected: Vec<u32> = expected.iter().map(|x| x.to_bits()).collect();
    assert_eq!(actual, expected);
}

#[test]
fn f64_round_trip_and_sorting() {
    let values = [2.25f64, -0.0, 0.0, -7.5, f64::INFINITY, f64::NEG_INFINITY, f64::EPSILON, -1e300, f64::NAN];
    for x in values {
        let back = decode_f64_bits(encode_f64_bits(TotalF64 { bits: x.to_bits() }));
        assert_eq!(back.bits, x.to_bits());
    }
    let mut embeddings: Vec<FixedSizeEmbedding<TotalF64, 8>> =
        values.iter().map(|x| encode_f64_bits(TotalF64 { bits: x.to_bits() })).collect();
    embeddings.sort_by(|a, b| a.data().cmp(b.data()));
    let actual: Vec<u64> = embeddings.into_iter().map(|e| decode_f64_bits(e).bits).collect();
    let mut expected = values.to_vec();
    expected.sort_by(|a, b| a.total_cmp(b));
    let expected: Vec<u64> = expected.iter().map(|x| x.to_bits()).collect();
    assert_eq!(actual, expected);
}

#[test]
fn nested_pair_round_trip_and_order() {
    let v = (("a".to_string(), "\u{0}".to_string()), "b".to_string());
    let e = encode_pair(v.clone());
    assert_eq!(
        e.data(),
        &[0x61, 0x00, 0x01, 0x00, 0x01, 0x00, 0x01, 0x01, 0x00, 0x01, 0x00, 0x01, 0x00, 0x00, 0x62, 0x00, 0x00]
    );
    assert_eq!(decode_pair(e), Ok(v));
    let smaller = encode_pair((("a".to_string(), String::new()), "z".to_string()));
    let larger = encode_pair((("a".to_string(), "\u{0}".to_string()), String::new()));
    assert!(smaller < larger);
}
