use lexdata::bigint::LexInt;
use lexdata::bignum::{bignum_to_storage, storage_to_bignum};
use lexdata::decimal::{digits_string, parse_digits};
use lexdata::fraction::{
    centary_decimal_decode, centary_decimal_encode, decode_fraction, encode_fraction,
};
use lexdata::size::{size_dec, size_decode, size_enc, size_encode, NEGATIVE_ZERO};
use lexdata::{storage_to_value, value_to_storage, Aspect, Value};

fn round_trip(v: Value, a: Aspect) -> (Value, Aspect) {
    let storage = value_to_storage(v, a);
    let bytes = storage.unwrap();
    storage_to_value(&bytes).unwrap()
}

fn lexint_from_str(s: &str) -> LexInt {
    let negative = s.starts_with('-');
    let start = if negative { 1 } else { 0 };
    let magnitude = parse_digits(s, start, s.chars().count());
    let negative = negative && !magnitude.is_empty();
    LexInt { negative, magnitude }
}

fn lexint_to_string(i: &LexInt) -> String {
    let digits = digits_string(&i.magnitude);
    if i.negative {
        format!("-{digits}")
    } else {
        digits
    }
}

fn number_lexical(s: &str) -> Vec<u8> {
    value_to_storage(Value::BigInt(lexint_from_str(s)), Aspect::Integer).unwrap()
}

fn lexical_number(v: &[u8]) -> String {
    let (value, _) = storage_to_value(v).unwrap();
    match value {
        Value::BigInt(i) => lexint_to_string(&i),
        _ => panic!("not a bigint"),
    }
}

fn number_lexical_round_trip(s1: &str) {
    let lex = number_lexical(s1);
    let s2 = lexical_number(&lex);
    assert_eq!(s1, s2);
}

#[test]
fn find_bytes_and_pad() {
    let size = 4095;
    let enc = size_enc(size);
    assert_eq!(enc, vec![0b11011111u8, 0b01111111u8]);

    let size = 72057594037927935;
    let enc = size_enc(size);
    assert_eq!(
        enc,
        vec![
            0b11000000u8,
            0b11111111u8,
            0b11111111u8,
            0b11111111u8,
            0b11111111u8,
            0b11111111u8,
            0b11111111u8,
            0b11111111u8,
            0b01111111u8
        ]
    )
}

#[test]
fn in_and_out() {
    let size = 4095;
    assert_eq!(size, size_dec(&size_enc(size)).1);

    // just a random number
    let size = 23423423;
    assert_eq!(size, size_dec(&size_enc(size)).1);

    // boundary case for overflow spillover
    let size = 72057594037927935;
    assert_eq!(size, size_dec(&size_enc(size)).1);

    let size = 1;
    assert_eq!(size, size_dec(&size_enc(size)).1);
}

#[test]
fn mpz_lex_conversions() {
    let s = "0";
    number_lexical_round_trip(s);

    let s = "1";
    number_lexical_round_trip(s);

    let s = "2";
    number_lexical_round_trip(s);

    let s = "4095";
    number_lexical_round_trip(s);

    let s = "23423498723432";
    number_lexical_round_trip(s);

    let s = "-12";
    number_lexical_round_trip(s);

    let s = "8729234234234234";
    number_lexical_round_trip(s);

    let s = "172923423423423423429";
    number_lexical_round_trip(s);

    let s = "87292342342342342342342346547768087384729384729";
    number_lexical_round_trip(s);

    let s = "9802348729234234223423423432456342342342342346547768087384729384729";
    number_lexical_round_trip(s);

    let s = "-9802348729234234223423423432456342342342342346547768087384729384729";
    number_lexical_round_trip(s);
}

#[test]
fn sort_lexicals() {
    let v = vec![
        "2342343",
        "87292342342342342342342346547768087384729384729",
        "0",
        "-23423",
        "-23",
        "9",
        "-9802348729234234223423423432456342342342342346547768087384729384729",
    ];
    let mut vecs: Vec<Vec<u8>> = v.iter().map(|s| number_lexical(s)).collect();
    vecs.sort();
    let strs1: Vec<String> = vecs.iter().map(|l| lexical_number(l)).collect();
    let strs2 = vec![
        "-9802348729234234223423423432456342342342342346547768087384729384729",
        "-23423",
        "-23",
        "0",
        "9",
        "2342343",
        "87292342342342342342342346547768087384729384729",
    ];
    assert_eq!(strs1, strs2)
}

#[test]
fn string_round_trip() {
    let res = round_trip(Value::String("test".to_string()), Aspect::String);
    let (v, a) = res;
    assert_eq!(v, Value::String("test".to_string()));
    assert_eq!(a, Aspect::String);
    let res = round_trip(Value::String("test".to_string()), Aspect::Token);
    let (v, a) = res;
    assert_eq!(v, Value::String("test".to_string()));
    assert_eq!(a, Aspect::Token);
    let res = round_trip(Value::String("test".to_string()), Aspect::ID);
    let (v, a) = res;
    assert_eq!(v, Value::String("test".to_string()));
    assert_eq!(a, Aspect::ID);
}

#[test]
fn string_ordering() {
    let strings = [
        "entertain",
        "zig",
        "pangolin",
        "penguin",
        "peaches",
        "plums",
        "pears",
        "apple",
        "candy",
    ];
    let mut byte_vec = Vec::with_capacity(strings.len());
    for s in strings.iter() {
        let string: &str = s;
        let storage =
            value_to_storage(Value::String(string.to_string()), Aspect::String).unwrap();
        byte_vec.push(storage)
    }
    byte_vec.sort();
    let mut result_vec = Vec::with_capacity(strings.len());
    for b in byte_vec.iter() {
        let (value, _) = storage_to_value(b).unwrap();
        if let Value::String(v) = value {
            result_vec.push(v)
        } else {
            panic!("This can't happen")
        }
    }
    assert_eq!(
        vec![
            "apple",
            "candy",
            "entertain",
            "pangolin",
            "peaches",
            "pears",
            "penguin",
            "plums",
            "zig"
        ],
        result_vec
    )
}

#[test]
fn boolean_round_trip() {
    let res = round_trip(Value::Boolean(false), Aspect::Boolean);
    assert_eq!((Value::Boolean(false), Aspect::Boolean), res);
    let res = round_trip(Value::Boolean(true), Aspect::Boolean);
    assert_eq!((Value::Boolean(true), Aspect::Boolean), res);
}

#[test]
fn float32_round_trip() {
    let res = round_trip(Value::Float32((-10.87_f32).to_bits()), Aspect::Float);
    assert_eq!((Value::Float32((-10.87_f32).to_bits()), Aspect::Float), res);
}

#[test]
fn float32_ordering() {
    let floats = [
        32.5_f32,
        33432.53_f32,
        f32::INFINITY,
        -132.98701_f32,
        f32::MIN,
        -100.3_f32,
        f32::NEG_INFINITY,
        22.5_f32,
        0_f32,
        f32::MAX,
        0.1_f32,
        -0.1_f32,
    ];
    let mut byte_vec = Vec::with_capacity(floats.len());
    for f in floats.iter() {
        let storage = value_to_storage(Value::Float32(f.to_bits()), Aspect::Float).unwrap();
        byte_vec.push(storage)
    }
    byte_vec.sort();
    let mut result_vec = Vec::with_capacity(floats.len());
    for b in byte_vec.iter() {
        let (value, _) = storage_to_value(b).unwrap();
        if let Value::Float32(v) = value {
            result_vec.push(f32::from_bits(v))
        } else {
            panic!("This can't happen")
        }
    }
    assert_eq!(
        vec![
            f32::NEG_INFINITY,
            f32::MIN,
            -132.98701,
            -100.3,
            -0.1,
            0.0,
            0.1,
            22.5,
            32.5,
            33432.53,
            f32::MAX,
            f32::INFINITY,
        ],
        result_vec
    )
}

#[test]
fn float64_ordering() {
    let floats = [
        64.5_f64,
        33464.53_f64,
        f64::INFINITY,
        -164.98701_f64,
        -100.3_f64,
        33464.533432_f64,
        f64::NEG_INFINITY,
        22.5_f64,
        0_f64,
        0.1_f64,
        -0.1_f64,
    ];
    let mut byte_vec = Vec::with_capacity(floats.len());
    for f in floats.iter() {
        let storage = value_to_storage(Value::Float64(f.to_bits()), Aspect::Double).unwrap();
        byte_vec.push(storage)
    }
    byte_vec.sort();
    let mut result_vec = Vec::with_capacity(floats.len());
    for b in byte_vec.iter() {
        let (value, _) = storage_to_value(b).unwrap();
        if let Value::Float64(v) = value {
            result_vec.push(f64::from_bits(v))
        } else {
            panic!("This can't happen")
        }
    }
    assert_eq!(
        vec![
            f64::NEG_INFINITY,
            -164.98701,
            -100.3,
            -0.1,
            0.0,
            0.1,
            22.5,
            64.5,
            33464.53,
            33464.533432,
            f64::INFINITY
        ],
        result_vec
    )
}

#[test]
fn int32_ordering() {
    let int = [64_i32, 33464, 164, -100, 22, 0, 1, -1];
    let mut byte_vec = Vec::with_capacity(int.len());
    for f in int.iter() {
        let storage = value_to_storage(Value::Int32(*f), Aspect::Int).unwrap();
        byte_vec.push(storage)
    }
    byte_vec.sort();
    let mut result_vec = Vec::with_capacity(int.len());
    for b in byte_vec.iter() {
        let (value, _) = storage_to_value(b).unwrap();
        if let Value::Int32(v) = value {
            result_vec.push(v)
        } else {
            panic!("This can't happen")
        }
    }
    assert_eq!(vec![-100, -1, 0, 1, 22, 64, 164, 33464], result_vec)
}

#[test]
fn int64_ordering() {
    let int = [64_i64, 33464, 164, -100, -234234322, 22, 0, 1, -1];
    let mut byte_vec = Vec::with_capacity(int.len());
    for f in int.iter() {
        let storage = value_to_storage(Value::Int64(*f), Aspect::Long).unwrap();
        byte_vec.push(storage)
    }
    byte_vec.sort();
    let mut result_vec = Vec::with_capacity(int.len());
    for b in byte_vec.iter() {
        let (value, _) = storage_to_value(b).unwrap();
        if let Value::Int64(v) = value {
            result_vec.push(v)
        } else {
            panic!("This can't happen")
        }
    }
    assert_eq!(
        vec![-234234322, -100, -1, 0, 1, 22, 64, 164, 33464],
        result_vec
    )
}

#[test]
fn size_encode_correct() {
    let bytes = size_encode(1);
    assert_eq!(bytes, vec![129]);

    let (is_pos, size, idx) = size_decode(&bytes).unwrap();
    assert!(is_pos);
    assert_eq!(size, 1);
    assert_eq!(idx, 1);

    let bytes = size_encode(12);
    assert_eq!(bytes, vec![140]);

    let bytes = size_encode(0);
    assert_eq!(bytes, vec![NEGATIVE_ZERO]);

    let bytes = size_encode(0);
    let (is_pos, size, idx) = size_decode(&bytes).unwrap();
    assert!(!is_pos);
    assert_eq!(size, 0);
    assert_eq!(idx, 1);
}

#[test]
fn bigint_roundtrip_negative() {
    let minus_one = lexint_from_str("-1");
    let res = round_trip(Value::BigInt(minus_one.clone()), Aspect::Integer);
    assert_eq!((Value::BigInt(minus_one), Aspect::Integer), res);

    let minus_two_hundred = lexint_from_str("-200");
    let res = round_trip(Value::BigInt(minus_two_hundred.clone()), Aspect::Integer);
    assert_eq!((Value::BigInt(minus_two_hundred), Aspect::Integer), res);
}

#[test]
fn bigint_ordering() {
    let int_strings = [
        "64",
        "33464",
        "164",
        "-100",
        "256",
        "-923423234234322",
        "22",
        "0",
        "1",
        "-1",
        "234987394839323",
    ];
    let int = int_strings.map(|s| lexint_from_str(s));
    let mut byte_vec = Vec::with_capacity(int.len());
    for i in int.iter() {
        let storage = value_to_storage(Value::BigInt(i.clone()), Aspect::Integer).unwrap();
        byte_vec.push(storage)
    }
    byte_vec.sort();
    let mut result_vec = Vec::with_capacity(int.len());
    for b in byte_vec.iter() {
        let (value, _) = storage_to_value(b).unwrap();
        if let Value::BigInt(v) = value {
            let res = lexint_to_string(&v);
            result_vec.push(res)
        } else {
            panic!("This can't happen")
        }
    }
    assert_eq!(
        vec![
            "-923423234234322",
            "-100",
            "-1",
            "0",
            "1",
            "22",
            "64",
            "164",
            "256",
            "33464",
            "234987394839323"
        ],
        result_vec
    )
}

#[test]
fn float64_round_trip() {
    let res = round_trip(Value::Float64((-10.87_f64).to_bits()), Aspect::Double);
    assert_eq!(
        (Value::Float64((-10.87_f64).to_bits()), Aspect::Double),
        res
    );
}

#[test]
fn fraction_round_trip() {
    let s = "12325";
    let f = encode_fraction(Some(s));
    let original = decode_fraction(&f);
    assert_eq!(s, original);
}

#[test]
fn fraction_round_trip_empty() {
    let s = "";
    let f = encode_fraction(Some(s));
    let original = decode_fraction(&f);
    assert_eq!(s, original);
}

#[test]
fn fraction_trailing_zero() {
    let s = "10";
    let f = encode_fraction(Some(s));
    let original = decode_fraction(&f);
    assert_eq!(s, original);
}

#[test]
fn fraction_mid_one() {
    let s = "101";
    let f = encode_fraction(Some(s));
    let original = decode_fraction(&f);
    assert_eq!(s, original);
}

#[test]
fn fraction_leading_zeros() {
    let s = "001";
    let f = encode_fraction(Some(s));
    let original = decode_fraction(&f);
    assert_eq!(s, original);
}

#[test]
fn centary_encoding() {
    let s = "0";
    let r = centary_decimal_encode(s);
    let d = centary_decimal_decode(r);
    assert_eq!(s, d);

    let s = "00";
    let r = centary_decimal_encode(s);
    let d = centary_decimal_decode(r);
    assert_eq!(s, d);

    let s = "01";
    let r = centary_decimal_encode(s);
    let d = centary_decimal_decode(r);
    assert_eq!(s, d);

    let s = "11";
    let r = centary_decimal_encode(s);
    let d = centary_decimal_decode(r);
    assert_eq!(s, d);

    let s = "22";
    let r = centary_decimal_encode(s);
    let d = centary_decimal_decode(r);
    assert_eq!(s, d);

    let s = "9";
    let r = centary_decimal_encode(s);
    let d = centary_decimal_decode(r);
    assert_eq!(s, d);

    let s = "99";
    let r = centary_decimal_encode(s);
    let d = centary_decimal_decode(r);
    assert_eq!(s, d);
}

#[test]
fn order_fractions() {
    let fractions = vec!["1234", "123", "100", "10000", "32"];
    let mut encodes: Vec<_> = fractions.iter().map(|x| encode_fraction(Some(x))).collect();
    encodes.sort();
    let results: Vec<_> = encodes.iter().map(|x| decode_fraction(x)).collect();
    assert_eq!(vec!["100", "10000", "123", "1234", "32"], results);
}

#[test]
fn negative_zero() {
    let negative_zero = vec![NEGATIVE_ZERO];
    let (is_pos, size, idx) = size_decode(&negative_zero).unwrap();
    assert!(!is_pos);
    assert_eq!(size, 0);
    assert_eq!(idx, 1);
}

#[test]
fn bignum_round_trip() {
    let fractions = vec![
        "1234.2343",
        "987.23",
        "-0.001",
        "-10.3",
        "-3233.23423",
        "-0.0",
        "0",
        "0.0",
        "0.100",
        "10000.33",
        "0.333",
        "-9871234.1928374",
    ];
    let mut encodes: Vec<_> = fractions
        .iter()
        .map(|x| bignum_to_storage(x.to_string(), Aspect::Decimal).unwrap())
        .collect();
    encodes.sort();
    let results: Vec<_> = encodes
        .iter()
        .map(|x| {
            let res = storage_to_bignum(&x[1..x.len()]).unwrap();
            match res {
                Value::String(s) => s,
                _ => panic!("Can't be here"),
            }
        })
        .collect();
    assert_eq!(
        vec![
            "-9871234.1928374",
            "-3233.23423",
            "-10.3",
            "-0.001",
            "-0.0",
            "0",
            "0.0",
            "0.100",
            "0.333",
            "987.23",
            "1234.2343",
            "10000.33"
        ],
        results
    );
}

#[test]
fn date_time_round_trip() {
    let res = round_trip(
        Value::String("2007-03-01T13:00:00Z".to_string()),
        Aspect::DateTime,
    );
    assert_eq!(
        (
            Value::String("2007-03-01T13:00:00Z".to_string()),
            Aspect::DateTime
        ),
        res
    );
}

#[test]
fn date_time_ordering() {
    let dates = vec![
        "2525-03-01T12:00:00Z",
        "2007-03-01T13:00:00Z",
        "1977-05-07T11:30:20Z",
    ];
    let mut date_bytes: Vec<_> = dates
        .iter()
        .map(|x| value_to_storage(Value::String(x.to_string()), Aspect::DateTime).unwrap())
        .collect();
    date_bytes.sort();
    let dates_sorted: Vec<_> = date_bytes
        .iter()
        .map(|x| {
            let (res, _aspect) = storage_to_value(x).unwrap();
            match res {
                Value::String(date) => date,
                _ => panic!("Didn't work"),
            }
        })
        .collect();
    assert_eq!(
        vec![
            "1977-05-07T11:30:20Z",
            "2007-03-01T13:00:00Z",
            "2525-03-01T12:00:00Z"
        ],
        dates_sorted
    );
}

#[test]
fn self_termination_tests() {
    // we need to know we are not relying on the length of an array anywhere.
    let mut num =
        value_to_storage(Value::BigInt(lexint_from_str("-3233")), Aspect::Integer).unwrap();
    let garbage = vec![23, 35, 128];
    num.extend(garbage);
    let (res, _) = storage_to_value(&num).unwrap();
    match res {
        Value::BigInt(i) => {
            let rendered = lexint_to_string(&i);
            assert_eq!(rendered, "-3233");
        }
        _ => panic!("This is not good"),
    }

    let mut num =
        value_to_storage(Value::String("-3233.23423".to_string()), Aspect::Decimal).unwrap();
    let garbage = vec![183, 35, 128];
    num.extend(garbage);
    let (res, _) = storage_to_value(&num).unwrap();
    match res {
        Value::String(n) => {
            assert_eq!("-3233.23423".to_string(), n);
        }
        _ => panic!("This is not good"),
    }
}
