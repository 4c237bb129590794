use lexdata::bigint::LexInt;
use lexdata::decimal::parse_digits;
use lexdata::fraction::{centary_decimal_encode, encode_fraction};
use lexdata::size::{size_encode, NEGATIVE_ZERO};
use lexdata::{
    storage_size, storage_to_value, string_length, value_to_storage, Aspect, LexDataError,
    StorageType, Value,
};

fn lexint_from_str(s: &str) -> LexInt {
    let negative = s.starts_with('-');
    let start = if negative { 1 } else { 0 };
    let magnitude = parse_digits(s, start, s.chars().count());
    let negative = negative && !magnitude.is_empty();
    LexInt { negative, magnitude }
}

#[test]
fn size_encode_wire_vectors() {
    assert_eq!(size_encode(0), vec![0b0111_1111]);
    assert_eq!(size_encode(1), vec![129]);
    assert_eq!(size_encode(12), vec![140]);
    assert_eq!(size_encode(63), vec![191]);
    assert_eq!(size_encode(64), vec![0b1100_0000, 0b0100_0000]);
    assert_eq!(size_encode(4095), vec![0b1101_1111, 0b0111_1111]);
}

#[test]
fn size_decode_round_trips_u32_samples() {
    let samples = [0u32, 1, 12, 63, 64, 127, 128, 4095, 8191, 8192, 23423423, u32::MAX];
    for n in samples {
        let enc = size_encode(n);
        let (is_pos, size, used) = lexdata::size::size_decode(&enc).unwrap();
        assert_eq!(is_pos, n > 0);
        assert_eq!(size, n);
        assert_eq!(used, enc.len());
    }
}

#[test]
fn size_decode_rejects_truncation() {
    // A first byte with its continuation bit set and nothing after it.
    let r = lexdata::size::size_decode(&[0b1100_0000]);
    assert!(matches!(r, Err(LexDataError::BadSizeEncoding(_))));
    let r = lexdata::size::size_decode(&[]);
    assert!(matches!(r, Err(LexDataError::BadSizeEncoding(_))));
}

#[test]
fn aspect_bytes_are_stable() {
    assert_eq!(lexdata::aspect_byte(Aspect::String), 1);
    assert_eq!(lexdata::aspect_byte(Aspect::Boolean), 2);
    assert_eq!(lexdata::aspect_byte(Aspect::Decimal), 3);
    assert_eq!(lexdata::aspect_byte(Aspect::Integer), 4);
    assert_eq!(lexdata::aspect_byte(Aspect::Double), 5);
    assert_eq!(lexdata::aspect_byte(Aspect::Float), 6);
    assert_eq!(lexdata::aspect_byte(Aspect::DateTime), 9);
    assert_eq!(lexdata::aspect_byte(Aspect::Long), 22);
    assert_eq!(lexdata::aspect_byte(Aspect::Literal), 46);
    assert_eq!(lexdata::aspect_byte(Aspect::False), 47);
    assert_eq!(lexdata::aspect_byte(Aspect::True), 48);
    assert_eq!(lexdata::byte_aspect(&34), Aspect::Token);
    assert_eq!(lexdata::aspect_storage(Aspect::Token), StorageType::String);
    assert_eq!(lexdata::aspect_storage(Aspect::Decimal), StorageType::BigNum);
    assert_eq!(
        lexdata::aspect_storage(Aspect::PositiveInteger),
        StorageType::BigInt
    );
}

#[test]
fn bigint_wire_layout() {
    // 1 encodes as the tag, a one-byte size code, and one payload byte.
    let enc = value_to_storage(Value::BigInt(lexint_from_str("1")), Aspect::Integer).unwrap();
    assert_eq!(enc, vec![4, 129, 1]);
    // Zero keeps one zero payload byte.
    let enc = value_to_storage(Value::BigInt(lexint_from_str("0")), Aspect::Integer).unwrap();
    assert_eq!(enc, vec![4, 129, 0]);
    // 200 has its top bit set, so a padding byte precedes it.
    let enc = value_to_storage(Value::BigInt(lexint_from_str("200")), Aspect::Integer).unwrap();
    assert_eq!(enc, vec![4, 130, 0, 200]);
    // -1 is the complement of the encoding of 1 after the tag.
    let enc = value_to_storage(Value::BigInt(lexint_from_str("-1")), Aspect::Integer).unwrap();
    assert_eq!(enc, vec![4, 126, 254]);
}

#[test]
fn decimal_negative_zero_prefix() {
    // The integer part of -0.5 is a negative zero: the record starts
    // with the tag and the NEGATIVE_ZERO size code.
    let enc = value_to_storage(Value::String("-0.5".to_string()), Aspect::Decimal).unwrap();
    assert_eq!(enc[0], 3);
    assert_eq!(enc[1], NEGATIVE_ZERO);
    // It sorts below the plain zero record.
    let zero = value_to_storage(Value::String("0".to_string()), Aspect::Decimal).unwrap();
    assert!(enc < zero);
}

#[test]
fn record_sizes_step_through_streams() {
    let cases: Vec<(Value, Aspect)> = vec![
        (Value::Int32(-7), Aspect::Int),
        (Value::Int64(1 << 40), Aspect::Long),
        (Value::Float32(1.5f32.to_bits()), Aspect::Float),
        (Value::Float64((-2.25f64).to_bits()), Aspect::Double),
        (Value::Boolean(true), Aspect::Boolean),
        (Value::BigInt(lexint_from_str("-923423234234322")), Aspect::Integer),
        (Value::String("12.750".to_string()), Aspect::Decimal),
        (Value::String("1977-05-07T11:30:20Z".to_string()), Aspect::DateTime),
    ];
    for (v, a) in cases {
        let mut enc = value_to_storage(v, a).unwrap();
        let plain = enc.len();
        enc.extend(vec![23u8, 35, 128, 7]);
        assert_eq!(storage_size(&enc), plain);
    }
}

#[test]
fn self_terminating_bigint_record_length() {
    let mut num =
        value_to_storage(Value::BigInt(lexint_from_str("-3233")), Aspect::Integer).unwrap();
    let plain = num.len();
    num.extend(vec![23u8, 35, 128]);
    assert_eq!(storage_size(&num), plain);
    let (res, _) = storage_to_value(&num).unwrap();
    match res {
        Value::BigInt(i) => {
            assert!(i.negative);
            assert_eq!(i.magnitude, vec![0x0c, 0xa1]);
        }
        _ => panic!("expected a bigint"),
    }
}

#[test]
fn string_length_stops_at_zero() {
    assert_eq!(string_length(&[97, 98, 99]), 3);
    assert_eq!(string_length(&[97, 98, 0, 99]), 2);
    assert_eq!(string_length(&[]), 0);
    assert_eq!(string_length(&[0]), 0);
    // A string record followed by a zero separator measures to the
    // separator.
    let enc = value_to_storage(Value::String("abc".to_string()), Aspect::String).unwrap();
    let mut stream = enc.clone();
    stream.push(0);
    stream.extend(vec![4u8, 129, 1]);
    assert_eq!(storage_size(&stream), enc.len());
}

#[test]
fn unexpected_aspect_errors() {
    let r = value_to_storage(Value::Int32(5), Aspect::String);
    assert!(matches!(r, Err(LexDataError::UnexpectedAspect(_))));
    let r = value_to_storage(Value::Boolean(true), Aspect::Int);
    assert!(matches!(r, Err(LexDataError::UnexpectedAspect(_))));
    let r = value_to_storage(Value::Float32(0), Aspect::Double);
    assert!(matches!(r, Err(LexDataError::UnexpectedAspect(_))));
    // An unknown aspect byte on decode.
    let r = storage_to_value(&[200, 1, 2]);
    assert!(matches!(r, Err(LexDataError::UnexpectedAspect(_))));
    // An aspect whose storage is not implemented.
    let r = storage_to_value(&[7, 1, 2]);
    assert!(matches!(r, Err(LexDataError::UnexpectedAspect(_))));
    // An empty buffer.
    let r = storage_to_value(&[]);
    assert!(matches!(r, Err(LexDataError::UnexpectedAspect(_))));
}

#[test]
fn truncated_payload_errors() {
    // Int32 payload cut short.
    let r = storage_to_value(&[21, 1, 2]);
    assert!(matches!(r, Err(LexDataError::BadInt32Layout(_))));
    // Int64 payload cut short.
    let r = storage_to_value(&[22, 1, 2, 3, 4]);
    assert!(matches!(r, Err(LexDataError::BadInt64Layout(_))));
    // Float32 payload cut short.
    let r = storage_to_value(&[6, 1]);
    assert!(matches!(r, Err(LexDataError::BadFloat32Layout(_))));
    // Float64 payload cut short.
    let r = storage_to_value(&[5, 1, 2, 3]);
    assert!(matches!(r, Err(LexDataError::BadFloat64Layout(_))));
    // A bigint whose size code announces more bytes than follow.
    let r = storage_to_value(&[4, 130, 0]);
    assert!(matches!(r, Err(LexDataError::BadSizeEncoding(_))));
    // A bigint whose size code ends mid-continuation.
    let r = storage_to_value(&[4, 0b1100_0000]);
    assert!(matches!(r, Err(LexDataError::BadSizeEncoding(_))));
}

#[test]
fn bad_date_errors() {
    let r = value_to_storage(Value::String("yesterday".to_string()), Aspect::DateTime);
    assert!(matches!(r, Err(LexDataError::BadDateFormat(_))));
    let r = value_to_storage(
        Value::String("2007-03-99T13:00:00Z".to_string()),
        Aspect::DateTime,
    );
    assert!(matches!(r, Err(LexDataError::BadDateFormat(_))));
}

#[test]
fn date_time_offsets_normalize_to_utc() {
    // A zoned time encodes as its UTC instant.
    let zoned =
        value_to_storage(Value::String("1996-12-19T16:39:57-08:00".to_string()), Aspect::DateTime)
            .unwrap();
    let (v, _) = storage_to_value(&zoned).unwrap();
    assert_eq!(v, Value::String("1996-12-20T00:39:57Z".to_string()));
}

#[test]
fn mixed_stream_walk() {
    // Three records in one stream, walked by storage_size.
    let r1 = value_to_storage(Value::Int32(7), Aspect::Int).unwrap();
    let r2 = value_to_storage(Value::BigInt(lexint_from_str("33464")), Aspect::Integer).unwrap();
    let r3 = value_to_storage(Value::Boolean(false), Aspect::Boolean).unwrap();
    let mut stream = Vec::new();
    stream.extend(r1.iter().copied());
    stream.extend(r2.iter().copied());
    stream.extend(r3.iter().copied());
    let n1 = storage_size(&stream);
    assert_eq!(n1, r1.len());
    let n2 = storage_size(&stream[n1..]);
    assert_eq!(n2, r2.len());
    let rest = &stream[n1 + n2..];
    let n3 = storage_size(rest);
    assert_eq!(n3, r3.len());
    let (v3, a3) = storage_to_value(rest).unwrap();
    assert_eq!((v3, a3), (Value::Boolean(false), Aspect::Boolean));
}

#[test]
fn nan_payload_round_trips_bit_exactly() {
    let quiet = f32::NAN.to_bits();
    let negative_nan = quiet | 0x8000_0000;
    for bits in [quiet, negative_nan] {
        let enc = value_to_storage(Value::Float32(bits), Aspect::Float).unwrap();
        let (v, _) = storage_to_value(&enc).unwrap();
        assert_eq!(v, Value::Float32(bits));
    }
    let quiet64 = f64::NAN.to_bits();
    let negative_nan64 = quiet64 | 0x8000_0000_0000_0000;
    for bits in [quiet64, negative_nan64] {
        let enc = value_to_storage(Value::Float64(bits), Aspect::Double).unwrap();
        let (v, _) = storage_to_value(&enc).unwrap();
        assert_eq!(v, Value::Float64(bits));
    }
}

#[test]
fn int_extremes_round_trip_in_order() {
    let ints = [i32::MIN, -1, 0, 1, i32::MAX];
    let encs: Vec<_> = ints
        .iter()
        .map(|i| value_to_storage(Value::Int32(*i), Aspect::Int).unwrap())
        .collect();
    for w in encs.windows(2) {
        assert!(w[0] < w[1]);
    }
    let longs = [i64::MIN, -1, 0, 1, i64::MAX];
    let encs: Vec<_> = longs
        .iter()
        .map(|i| value_to_storage(Value::Int64(*i), Aspect::Long).unwrap())
        .collect();
    for w in encs.windows(2) {
        assert!(w[0] < w[1]);
    }
}

#[test]
fn string_from_bytes_reads_utf8() {
    let v = lexdata::string_from_bytes("gr\u{00fc}n".as_bytes());
    assert_eq!(v, Value::String("gr\u{00fc}n".to_string()));
    // A non-ASCII string round-trips through a record too.
    let enc = value_to_storage(Value::String("gr\u{00fc}n".to_string()), Aspect::String).unwrap();
    let (back, _) = storage_to_value(&enc).unwrap();
    assert_eq!(back, Value::String("gr\u{00fc}n".to_string()));
    // Bytes that are not UTF-8 are refused on decode.
    let r = storage_to_value(&[1, 0xff, 0xfe]);
    assert!(matches!(r, Err(LexDataError::UnexpectedAspect(_))));
}

#[test]
fn fraction_wire_bytes() {
    // A single digit d becomes 11 d + 1; a pair dd becomes dd + dd/10 + 2.
    assert_eq!(centary_decimal_encode("7"), 78);
    assert_eq!(centary_decimal_encode("99"), 110);
    assert_eq!(centary_decimal_encode("00"), 2);
    // The last byte's low bit is clear, earlier bytes keep it set.
    assert_eq!(encode_fraction(Some("12")), vec![(12 + 1 + 2) * 2]);
    assert_eq!(
        encode_fraction(Some("123")),
        vec![(12 + 1 + 2) * 2 + 1, (3 * 11 + 1) * 2]
    );
    assert_eq!(encode_fraction(None), vec![0]);
    assert_eq!(encode_fraction(Some("")), vec![0]);
}
