//! Lexdata: compact, self-delimiting byte encodings whose unsigned
//! lexicographic byte order matches the semantic order of the encoded
//! values, for use as keys in radix trees, front-coded dictionaries and
//! ordered key-value stores.
//!
//! Every record starts with a one-byte aspect tag followed by the payload
//! of the storage type that the aspect maps to.  The payload encodings are
//! self-delimiting: a record can be decoded from the front of a longer
//! buffer, and `storage_size` reports how many bytes it occupies.

use vstd::prelude::*;

pub mod bigint;
pub mod bignum;
pub mod datetime;
pub mod decimal;
pub mod fixed;
pub mod fraction;
pub mod laws;
pub mod order;
pub mod size;

use vstd::string::StringExecFns;
use vstd::utf8::{decode_utf8, encode_utf8, valid_utf8};

use crate::bigint::{bigint_body, dec_bigint, LexInt};
use crate::bignum::{bignum_body, dec_bignum, is_decimal_string};
use crate::datetime::{rfc3339_seconds, rfc3339_text};
use crate::fixed::{
    float32_payload, float64_payload, i32_key, i64_key, i64_of_key, int32_payload, int64_payload,
    f32_key, f64_key,
};
use crate::size::sz_dec;

verus! {

/// A decoded or to-be-encoded value.  The `Float32` and `Float64`
/// variants carry the IEEE-754 bit pattern of the number, so that the
/// codecs, which work on the bits alone, stay within plain integers;
/// fractional decimals and date-times travel as `String` under the
/// `Decimal` and `DateTime` aspects.
#[derive(Debug, PartialEq)]
pub enum Value {
    String(String),
    BigInt(LexInt),
    Int32(i32),
    Int64(i64),
    Float32(u32),
    Float64(u64),
    Boolean(bool),
}

/// Internal routing label: the wire strategy used to store a value.
/// Several aspects share one storage type.
#[derive(PartialEq, Eq, Structural, Debug, Clone, Copy)]
pub enum StorageType {
    String,
    Int32,
    Int64,
    Float32,
    Float64,
    BigInt,
    BigNum,
    DateTime,
}

/// Externally visible semantic type attached to a stored value.
///
/// The byte value assigned to each aspect is part of the wire format and
/// is pinned by `aspect_byte_spec`: the enumeration is append-only, and
/// values are never reordered or reused.  `True` and `False` are internal
/// aspects used only on the wire; decoded values present as `Boolean`.
#[derive(PartialEq, Eq, Structural, Debug, Clone, Copy)]
pub enum Aspect {
    // Core
    String,
    Boolean,
    Decimal,
    Integer,
    // IEEE
    Double,
    Float,
    // Time and date
    Date,
    Time,
    DateTime,
    DateTimeStamp,
    // Recurring and partial dates
    GYear,
    GMonth,
    GDay,
    GYearMonth,
    GMonthDay,
    Duration,
    YearMonthDuration,
    DayTimeDuration,
    // Limited range integer numbers
    Byte,
    Short,
    Int,
    Long,
    UnsignedByte,
    UnsignedShort,
    UnsignedInt,
    UnsignedLong,
    PositiveInteger,
    NonNegativeInteger,
    // Encoded binary
    HexBinary,
    Base64Binary,
    // Miscellaneous
    AnyURI,
    Language,
    NormalizedString,
    Token,
    NmToken,
    Name,
    NCName,
    NOtation,
    QName,
    ID,
    IdRef,
    Entity,
    // RDF
    XMLLiteral,
    PlainLiteral,
    LangString,
    // RDFS
    Literal,
    // Individually encoded booleans avoid a storage element
    False,
    True,
}

/// The wire byte of each aspect.  These values are part of the stable
/// byte format: they are pinned here explicitly and must never change.
pub open spec fn aspect_byte_spec(a: Aspect) -> u8 {
    match a {
        Aspect::String => 1,
        Aspect::Boolean => 2,
        Aspect::Decimal => 3,
        Aspect::Integer => 4,
        Aspect::Double => 5,
        Aspect::Float => 6,
        Aspect::Date => 7,
        Aspect::Time => 8,
        Aspect::DateTime => 9,
        Aspect::DateTimeStamp => 10,
        Aspect::GYear => 11,
        Aspect::GMonth => 12,
        Aspect::GDay => 13,
        Aspect::GYearMonth => 14,
        Aspect::GMonthDay => 15,
        Aspect::Duration => 16,
        Aspect::YearMonthDuration => 17,
        Aspect::DayTimeDuration => 18,
        Aspect::Byte => 19,
        Aspect::Short => 20,
        Aspect::Int => 21,
        Aspect::Long => 22,
        Aspect::UnsignedByte => 23,
        Aspect::UnsignedShort => 24,
        Aspect::UnsignedInt => 25,
        Aspect::UnsignedLong => 26,
        Aspect::PositiveInteger => 27,
        Aspect::NonNegativeInteger => 28,
        Aspect::HexBinary => 29,
        Aspect::Base64Binary => 30,
        Aspect::AnyURI => 31,
        Aspect::Language => 32,
        Aspect::NormalizedString => 33,
        Aspect::Token => 34,
        Aspect::NmToken => 35,
        Aspect::Name => 36,
        Aspect::NCName => 37,
        Aspect::NOtation => 38,
        Aspect::QName => 39,
        Aspect::ID => 40,
        Aspect::IdRef => 41,
        Aspect::Entity => 42,
        Aspect::XMLLiteral => 43,
        Aspect::PlainLiteral => 44,
        Aspect::LangString => 45,
        Aspect::Literal => 46,
        Aspect::False => 47,
        Aspect::True => 48,
    }
}

/// The wire byte of an aspect.
pub fn aspect_byte(a: Aspect) -> (b: u8)
    ensures
        b == aspect_byte_spec(a),
{
    match a {
        Aspect::String => 1,
        Aspect::Boolean => 2,
        Aspect::Decimal => 3,
        Aspect::Integer => 4,
        Aspect::Double => 5,
        Aspect::Float => 6,
        Aspect::Date => 7,
        Aspect::Time => 8,
        Aspect::DateTime => 9,
        Aspect::DateTimeStamp => 10,
        Aspect::GYear => 11,
        Aspect::GMonth => 12,
        Aspect::GDay => 13,
        Aspect::GYearMonth => 14,
        Aspect::GMonthDay => 15,
        Aspect::Duration => 16,
        Aspect::YearMonthDuration => 17,
        Aspect::DayTimeDuration => 18,
        Aspect::Byte => 19,
        Aspect::Short => 20,
        Aspect::Int => 21,
        Aspect::Long => 22,
        Aspect::UnsignedByte => 23,
        Aspect::UnsignedShort => 24,
        Aspect::UnsignedInt => 25,
        Aspect::UnsignedLong => 26,
        Aspect::PositiveInteger => 27,
        Aspect::NonNegativeInteger => 28,
        Aspect::HexBinary => 29,
        Aspect::Base64Binary => 30,
        Aspect::AnyURI => 31,
        Aspect::Language => 32,
        Aspect::NormalizedString => 33,
        Aspect::Token => 34,
        Aspect::NmToken => 35,
        Aspect::Name => 36,
        Aspect::NCName => 37,
        Aspect::NOtation => 38,
        Aspect::QName => 39,
        Aspect::ID => 40,
        Aspect::IdRef => 41,
        Aspect::Entity => 42,
        Aspect::XMLLiteral => 43,
        Aspect::PlainLiteral => 44,
        Aspect::LangString => 45,
        Aspect::Literal => 46,
        Aspect::False => 47,
        Aspect::True => 48,
    }
}

/// True of the bytes that stand for some aspect on the wire.
pub open spec fn is_aspect_byte(b: u8) -> bool {
    1 <= b <= 48
}

/// The aspect of each wire byte, or `None` when the byte stands for no
/// aspect.  Inverse of `aspect_byte_spec`.
pub open spec fn byte_aspect_opt(b: u8) -> Option<Aspect> {
    if b == 1 {
        Some(Aspect::String)
    } else if b == 2 {
        Some(Aspect::Boolean)
    } else if b == 3 {
        Some(Aspect::Decimal)
    } else if b == 4 {
        Some(Aspect::Integer)
    } else if b == 5 {
        Some(Aspect::Double)
    } else if b == 6 {
        Some(Aspect::Float)
    } else if b == 7 {
        Some(Aspect::Date)
    } else if b == 8 {
        Some(Aspect::Time)
    } else if b == 9 {
        Some(Aspect::DateTime)
    } else if b == 10 {
        Some(Aspect::DateTimeStamp)
    } else if b == 11 {
        Some(Aspect::GYear)
    } else if b == 12 {
        Some(Aspect::GMonth)
    } else if b == 13 {
        Some(Aspect::GDay)
    } else if b == 14 {
        Some(Aspect::GYearMonth)
    } else if b == 15 {
        Some(Aspect::GMonthDay)
    } else if b == 16 {
        Some(Aspect::Duration)
    } else if b == 17 {
        Some(Aspect::YearMonthDuration)
    } else if b == 18 {
        Some(Aspect::DayTimeDuration)
    } else if b == 19 {
        Some(Aspect::Byte)
    } else if b == 20 {
        Some(Aspect::Short)
    } else if b == 21 {
        Some(Aspect::Int)
    } else if b == 22 {
        Some(Aspect::Long)
    } else if b == 23 {
        Some(Aspect::UnsignedByte)
    } else if b == 24 {
        Some(Aspect::UnsignedShort)
    } else if b == 25 {
        Some(Aspect::UnsignedInt)
    } else if b == 26 {
        Some(Aspect::UnsignedLong)
    } else if b == 27 {
        Some(Aspect::PositiveInteger)
    } else if b == 28 {
        Some(Aspect::NonNegativeInteger)
    } else if b == 29 {
        Some(Aspect::HexBinary)
    } else if b == 30 {
        Some(Aspect::Base64Binary)
    } else if b == 31 {
        Some(Aspect::AnyURI)
    } else if b == 32 {
        Some(Aspect::Language)
    } else if b == 33 {
        Some(Aspect::NormalizedString)
    } else if b == 34 {
        Some(Aspect::Token)
    } else if b == 35 {
        Some(Aspect::NmToken)
    } else if b == 36 {
        Some(Aspect::Name)
    } else if b == 37 {
        Some(Aspect::NCName)
    } else if b == 38 {
        Some(Aspect::NOtation)
    } else if b == 39 {
        Some(Aspect::QName)
    } else if b == 40 {
        Some(Aspect::ID)
    } else if b == 41 {
        Some(Aspect::IdRef)
    } else if b == 42 {
        Some(Aspect::Entity)
    } else if b == 43 {
        Some(Aspect::XMLLiteral)
    } else if b == 44 {
        Some(Aspect::PlainLiteral)
    } else if b == 45 {
        Some(Aspect::LangString)
    } else if b == 46 {
        Some(Aspect::Literal)
    } else if b == 47 {
        Some(Aspect::False)
    } else if b == 48 {
        Some(Aspect::True)
    } else {
        None
    }
}

/// The aspect of a wire byte, or `None` when the byte stands for no
/// aspect.  Inverse of `aspect_byte`.
pub fn byte_to_aspect(b: u8) -> (r: Option<Aspect>)
    ensures
        r == byte_aspect_opt(b),
        match r {
            Some(a) => aspect_byte_spec(a) == b,
            None => !is_aspect_byte(b),
        },
{
    match b {
        1 => Some(Aspect::String),
        2 => Some(Aspect::Boolean),
        3 => Some(Aspect::Decimal),
        4 => Some(Aspect::Integer),
        5 => Some(Aspect::Double),
        6 => Some(Aspect::Float),
        7 => Some(Aspect::Date),
        8 => Some(Aspect::Time),
        9 => Some(Aspect::DateTime),
        10 => Some(Aspect::DateTimeStamp),
        11 => Some(Aspect::GYear),
        12 => Some(Aspect::GMonth),
        13 => Some(Aspect::GDay),
        14 => Some(Aspect::GYearMonth),
        15 => Some(Aspect::GMonthDay),
        16 => Some(Aspect::Duration),
        17 => Some(Aspect::YearMonthDuration),
        18 => Some(Aspect::DayTimeDuration),
        19 => Some(Aspect::Byte),
        20 => Some(Aspect::Short),
        21 => Some(Aspect::Int),
        22 => Some(Aspect::Long),
        23 => Some(Aspect::UnsignedByte),
        24 => Some(Aspect::UnsignedShort),
        25 => Some(Aspect::UnsignedInt),
        26 => Some(Aspect::UnsignedLong),
        27 => Some(Aspect::PositiveInteger),
        28 => Some(Aspect::NonNegativeInteger),
        29 => Some(Aspect::HexBinary),
        30 => Some(Aspect::Base64Binary),
        31 => Some(Aspect::AnyURI),
        32 => Some(Aspect::Language),
        33 => Some(Aspect::NormalizedString),
        34 => Some(Aspect::Token),
        35 => Some(Aspect::NmToken),
        36 => Some(Aspect::Name),
        37 => Some(Aspect::NCName),
        38 => Some(Aspect::NOtation),
        39 => Some(Aspect::QName),
        40 => Some(Aspect::ID),
        41 => Some(Aspect::IdRef),
        42 => Some(Aspect::Entity),
        43 => Some(Aspect::XMLLiteral),
        44 => Some(Aspect::PlainLiteral),
        45 => Some(Aspect::LangString),
        46 => Some(Aspect::Literal),
        47 => Some(Aspect::False),
        48 => Some(Aspect::True),
        _ => None,
    }
}

/// The aspect of a wire byte that is known to stand for one.
pub fn byte_aspect(b: &u8) -> (a: Aspect)
    requires
        is_aspect_byte(*b),
    ensures
        aspect_byte_spec(a) == *b,
{
    let r = byte_to_aspect(*b);
    match r {
        Some(a) => a,
        None => {
            proof {
                assert(false);
            }
            Aspect::String
        },
    }
}

/// The storage type of each aspect, or `None` for an aspect whose
/// storage is not implemented.
pub open spec fn aspect_storage_opt(a: Aspect) -> Option<StorageType> {
    match a {
        Aspect::String
        | Aspect::AnyURI
        | Aspect::Language
        | Aspect::NormalizedString
        | Aspect::Token
        | Aspect::NmToken
        | Aspect::Name
        | Aspect::NCName
        | Aspect::NOtation
        | Aspect::QName
        | Aspect::ID
        | Aspect::IdRef
        | Aspect::Entity => Some(StorageType::String),
        Aspect::Decimal => Some(StorageType::BigNum),
        Aspect::Float => Some(StorageType::Float32),
        Aspect::Double => Some(StorageType::Float64),
        Aspect::Long => Some(StorageType::Int64),
        Aspect::Int | Aspect::Short | Aspect::Byte => Some(StorageType::Int32),
        Aspect::Integer | Aspect::PositiveInteger | Aspect::NonNegativeInteger => Some(
            StorageType::BigInt,
        ),
        Aspect::DateTime => Some(StorageType::DateTime),
        _ => None,
    }
}

/// True of the aspects that have a storage type.
pub open spec fn aspect_supported(a: Aspect) -> bool {
    aspect_storage_opt(a) is Some
}

/// The storage type of an aspect, or `None` when its storage is not
/// implemented.
pub fn aspect_storage_total(a: Aspect) -> (r: Option<StorageType>)
    ensures
        r == aspect_storage_opt(a),
{
    match a {
        Aspect::String
        | Aspect::AnyURI
        | Aspect::Language
        | Aspect::NormalizedString
        | Aspect::Token
        | Aspect::NmToken
        | Aspect::Name
        | Aspect::NCName
        | Aspect::NOtation
        | Aspect::QName
        | Aspect::ID
        | Aspect::IdRef
        | Aspect::Entity => Some(StorageType::String),
        Aspect::Decimal => Some(StorageType::BigNum),
        Aspect::Float => Some(StorageType::Float32),
        Aspect::Double => Some(StorageType::Float64),
        Aspect::Long => Some(StorageType::Int64),
        Aspect::Int | Aspect::Short | Aspect::Byte => Some(StorageType::Int32),
        Aspect::Integer | Aspect::PositiveInteger | Aspect::NonNegativeInteger => Some(
            StorageType::BigInt,
        ),
        Aspect::DateTime => Some(StorageType::DateTime),
        _ => None,
    }
}

/// The storage type of a supported aspect.
pub fn aspect_storage(aspect: Aspect) -> (r: StorageType)
    requires
        aspect_supported(aspect),
    ensures
        aspect_storage_opt(aspect) == Some(r),
{
    let r = aspect_storage_total(aspect);
    match r {
        Some(s) => s,
        None => {
            proof {
                assert(false);
            }
            StorageType::String
        },
    }
}

/// The failures a codec can report.  Errors are returned as values and
/// carry a descriptive message; no partial decode is observable.
#[derive(Debug)]
pub enum LexDataError {
    UnexpectedAspect(String),
    BadFloat32Layout(String),
    BadFloat64Layout(String),
    BadInt32Layout(String),
    BadInt64Layout(String),
    BadDateFormat(String),
    BadSizeEncoding(String),
}

/// Whether `encode` accepts a value under an aspect: the aspect's
/// storage type must fit the value's variant; booleans go under the
/// `Boolean` aspect alone, and a date-time string must parse.
pub open spec fn accepts(v: Value, a: Aspect) -> bool {
    match v {
        Value::String(s) => {
            if a == Aspect::DateTime {
                rfc3339_seconds(s@) is Some
            } else if a == Aspect::Decimal {
                true
            } else {
                aspect_storage_opt(a) == Some(StorageType::String)
            }
        },
        Value::BigInt(i) => aspect_storage_opt(a) == Some(StorageType::BigInt),
        Value::Int32(i) => aspect_storage_opt(a) == Some(StorageType::Int32),
        Value::Int64(i) => aspect_storage_opt(a) == Some(StorageType::Int64)
            || aspect_storage_opt(a) == Some(StorageType::DateTime),
        Value::Float32(b) => aspect_storage_opt(a) == Some(StorageType::Float32),
        Value::Float64(b) => aspect_storage_opt(a) == Some(StorageType::Float64),
        Value::Boolean(b) => a == Aspect::Boolean,
    }
}

/// The record of an accepted value under an aspect: the aspect tag,
/// then the storage payload.  A boolean's tag is its whole record.
pub open spec fn record_bytes(v: Value, a: Aspect) -> Seq<u8> {
    match v {
        Value::String(s) => {
            if a == Aspect::DateTime {
                match rfc3339_seconds(s@) {
                    Some(t) => seq![aspect_byte_spec(a)] + int64_payload(t),
                    None => Seq::<u8>::empty(),
                }
            } else if a == Aspect::Decimal {
                seq![aspect_byte_spec(a)] + bignum_body(s@)
            } else {
                seq![aspect_byte_spec(a)] + encode_utf8(s@)
            }
        },
        Value::BigInt(i) => seq![aspect_byte_spec(a)] + bigint_body(i.negative, i.magnitude@),
        Value::Int32(i) => seq![aspect_byte_spec(a)] + int32_payload(i),
        Value::Int64(i) => seq![aspect_byte_spec(a)] + int64_payload(i),
        Value::Float32(b) => seq![aspect_byte_spec(a)] + float32_payload(b),
        Value::Float64(b) => seq![aspect_byte_spec(a)] + float64_payload(b),
        Value::Boolean(b) => if b {
            seq![aspect_byte_spec(Aspect::True)]
        } else {
            seq![aspect_byte_spec(Aspect::False)]
        },
    }
}

/// Encodes a string under an aspect with `String` storage: the aspect
/// tag, then the string's UTF-8 bytes.  No terminator byte is written;
/// `storage_size` reads a record's length up to a zero byte or the end
/// of the buffer, so a caller embedding string records in a longer
/// stream separates them with a zero byte of its own.
pub fn string_to_storage(v: String, a: Aspect) -> (r: Result<Vec<u8>, LexDataError>)
    ensures
        match r {
            Ok(out) => aspect_storage_opt(a) == Some(StorageType::String) && out@ == seq![
                aspect_byte_spec(a),
            ] + encode_utf8(v@),
            Err(e) => aspect_storage_opt(a) != Some(StorageType::String)
                && e is UnexpectedAspect,
        },
{
    match aspect_storage_total(a) {
        Some(StorageType::String) => {},
        _ => {
            return Err(
                LexDataError::UnexpectedAspect(
                    String::from_str("the aspect does not have string storage"),
                ),
            );
        },
    }
    let mut out: Vec<u8> = Vec::new();
    out.push(aspect_byte(a));
    out.extend_from_slice(v.as_str().as_bytes());
    proof {
        assert(out@ =~= seq![aspect_byte_spec(a)] + encode_utf8(v@));
    }
    Ok(out)
}

/// Relies on `String::from_utf8`: bytes that are valid UTF-8 decode to
/// their string, any others are refused.
#[verifier::external_body]
fn utf8_to_string(bytes: Vec<u8>) -> (r: Option<String>)
    ensures
        match r {
            Some(s) => valid_utf8(bytes@) && s@ == decode_utf8(bytes@),
            None => !valid_utf8(bytes@),
        },
{
    String::from_utf8(bytes).ok()
}

/// Reads UTF-8 bytes back as a string value.
pub fn string_from_bytes(bytes: &[u8]) -> (r: Value)
    requires
        valid_utf8(bytes@),
    ensures
        r matches Value::String(s) && s@ == decode_utf8(bytes@),
{
    let v = vstd::slice::slice_to_vec(bytes);
    match utf8_to_string(v) {
        Some(s) => Value::String(s),
        None => {
            proof {
                assert(false);
            }
            Value::String(String::new())
        },
    }
}

/// Encodes a value under an aspect as a tagged, self-delimiting record.
/// A value whose variant does not fit the aspect's storage type fails
/// with `UnexpectedAspect`; a `DateTime`-tagged string that is not
/// RFC-3339 fails with `BadDateFormat`.
pub fn value_to_storage(v: Value, a: Aspect) -> (r: Result<Vec<u8>, LexDataError>)
    requires
        v matches Value::String(s) ==> (a == Aspect::Decimal ==> is_decimal_string(s@)
            && s@.len() < 0xffff_fff0),
        v matches Value::BigInt(i) ==> i.wf() && i.magnitude@.len() + 1 <= u32::MAX,
    ensures
        match r {
            Ok(out) => accepts(v, a) && out@ == record_bytes(v, a),
            Err(e) => !accepts(v, a) && (if v matches Value::String(s) && a == Aspect::DateTime {
                e is BadDateFormat
            } else {
                e is UnexpectedAspect
            }),
        },
{
    match v {
        Value::String(s) => {
            if matches!(a, Aspect::DateTime) {
                crate::datetime::date_time_to_storage(s, a)
            } else if matches!(a, Aspect::Decimal) {
                crate::bignum::bignum_to_storage(s, a)
            } else {
                string_to_storage(s, a)
            }
        },
        Value::Int32(i) => crate::fixed::int32_to_storage(i, a),
        Value::BigInt(i) => crate::bigint::bigint_to_storage(i, a),
        Value::Int64(i) => crate::fixed::int64_to_storage(i, a),
        Value::Float32(f) => crate::fixed::float32_to_storage(f, a),
        Value::Float64(f) => crate::fixed::float64_to_storage(f, a),
        Value::Boolean(b) => {
            if matches!(a, Aspect::Boolean) {
                let mut buf: Vec<u8> = Vec::new();
                if b {
                    buf.push(aspect_byte(Aspect::True));
                } else {
                    buf.push(aspect_byte(Aspect::False));
                }
                proof {
                    if b {
                        assert(buf@ =~= record_bytes(v, a));
                    } else {
                        assert(buf@ =~= record_bytes(v, a));
                    }
                }
                Ok(buf)
            } else {
                Err(
                    LexDataError::UnexpectedAspect(
                        String::from_str("the aspect does not match boolean storage"),
                    ),
                )
            }
        },
    }
}

/// The error kind `decode` reports for a buffer that starts with no
/// valid record: `UnexpectedAspect` for a missing, unknown or
/// storageless aspect byte and for string storage that is not UTF-8;
/// the storage type's layout error for a truncated fixed-width payload;
/// `BadSizeEncoding` for a bad length prefix; `BadDateFormat` for
/// stored seconds without a calendar rendering.
pub open spec fn record_err_kind(s: Seq<u8>, e: LexDataError) -> bool {
    if s.len() == 0 {
        e is UnexpectedAspect
    } else {
        match byte_aspect_opt(s[0]) {
            None => e is UnexpectedAspect,
            Some(a) => match aspect_storage_opt(a) {
                None => a != Aspect::True && a != Aspect::False && e is UnexpectedAspect,
                Some(st) => {
                    let p = s.skip(1);
                    match st {
                        StorageType::String => e is UnexpectedAspect,
                        StorageType::Int32 => e is BadInt32Layout,
                        StorageType::Int64 => e is BadInt64Layout,
                        StorageType::Float32 => e is BadFloat32Layout,
                        StorageType::Float64 => e is BadFloat64Layout,
                        StorageType::BigInt => e is BadSizeEncoding,
                        StorageType::BigNum => e is BadSizeEncoding,
                        StorageType::DateTime => if p.len() < 8 {
                            e is BadInt64Layout
                        } else {
                            e is BadDateFormat
                        },
                    }
                },
            },
        }
    }
}

/// Whether a buffer starts with a decodable record.
pub open spec fn record_ok(s: Seq<u8>) -> bool {
    s.len() > 0 && (s[0] == 47 || s[0] == 48 || (match byte_aspect_opt(s[0]) {
        Some(a) => match aspect_storage_opt(a) {
            Some(st) => payload_ok(st, s.skip(1)),
            None => false,
        },
        None => false,
    }))
}

/// Whether a payload decodes under a storage type.
pub open spec fn payload_ok(st: StorageType, p: Seq<u8>) -> bool {
    match st {
        StorageType::String => valid_utf8(p),
        StorageType::Int32 => p.len() >= 4,
        StorageType::Float32 => p.len() >= 4,
        StorageType::Int64 => p.len() >= 8,
        StorageType::Float64 => p.len() >= 8,
        StorageType::DateTime => p.len() >= 8 && rfc3339_text(
            i64_of_key(crate::bigint::mag_val(p.take(8))),
        ) is Some,
        StorageType::BigInt => dec_bigint(p) is Some && (match sz_dec(p) {
            Some((sign, n, u)) => n <= u32::MAX,
            None => false,
        }),
        StorageType::BigNum => dec_bignum(p) is Some && (match sz_dec(p) {
            Some((sign, n, u)) => n <= u32::MAX,
            None => false,
        }),
    }
}

/// What a decoded record holds: the pair `decode` returns for a buffer
/// that starts with a valid record.
pub open spec fn decoded_pair(s: Seq<u8>, v: Value, a: Aspect) -> bool {
    s.len() > 0 && {
        let p = s.skip(1);
        if s[0] == 48 {
            v == Value::Boolean(true) && a == Aspect::Boolean
        } else if s[0] == 47 {
            v == Value::Boolean(false) && a == Aspect::Boolean
        } else {
            &&& byte_aspect_opt(s[0]) == Some(a)
            &&& match aspect_storage_opt(a) {
                Some(st) => match st {
                    StorageType::String => v matches Value::String(x) && valid_utf8(p) && x@
                        == decode_utf8(p),
                    StorageType::Int32 => v matches Value::Int32(i) && p.len() >= 4 && i32_key(i)
                        == crate::bigint::mag_val(p.take(4)),
                    StorageType::Int64 => v matches Value::Int64(i) && p.len() >= 8 && i64_key(i)
                        == crate::bigint::mag_val(p.take(8)),
                    StorageType::Float32 => v matches Value::Float32(b) && p.len() >= 4
                        && f32_key(b) == crate::bigint::mag_val(p.take(4)),
                    StorageType::Float64 => v matches Value::Float64(b) && p.len() >= 8
                        && f64_key(b) == crate::bigint::mag_val(p.take(8)),
                    StorageType::DateTime => v matches Value::String(x) && p.len() >= 8
                        && rfc3339_text(i64_of_key(crate::bigint::mag_val(p.take(8)))) == Some(
                        x@,
                    ),
                    StorageType::BigInt => (match dec_bigint(p) {
                        Some((neg, mag, used)) => v matches Value::BigInt(b) && b.negative == neg
                            && b.magnitude@ == mag,
                        None => false,
                    }),
                    StorageType::BigNum => (match dec_bignum(p) {
                        Some(t) => v matches Value::String(x) && x@ == t,
                        None => false,
                    }),
                },
                None => false,
            }
        }
    }
}

/// Decodes the record at the front of `bytes`: the value and its
/// aspect.  The wire aspects `True` and `False` come back as `Boolean`
/// values under the `Boolean` aspect.  A buffer that starts with no
/// valid record fails: with `UnexpectedAspect` when the aspect byte is
/// unknown, has no storage, or a string payload is not UTF-8; with the
/// storage type's layout error when the payload is truncated; with
/// `BadSizeEncoding` for a malformed length prefix; and with
/// `BadDateFormat` for stored seconds outside the calendar range.
pub fn storage_to_value(bytes: &[u8]) -> (r: Result<(Value, Aspect), LexDataError>)
    ensures
        match r {
            Ok((v, a)) => record_ok(bytes@) && decoded_pair(bytes@, v, a),
            Err(e) => (!record_ok(bytes@) || (match sz_dec(bytes@.skip(1)) {
                Some((sign, n, u)) => n > u32::MAX,
                None => false,
            })) && record_err_kind(bytes@, e),
        },
{
    if bytes.len() == 0 {
        return Err(
            LexDataError::UnexpectedAspect(String::from_str("empty buffer holds no record")),
        );
    }
    let b0 = bytes[0];
    let aspect = match byte_to_aspect(b0) {
        Some(a) => a,
        None => {
            return Err(
                LexDataError::UnexpectedAspect(
                    String::from_str("the first byte stands for no aspect"),
                ),
            );
        },
    };
    if matches!(aspect, Aspect::True) {
        return Ok((Value::Boolean(true), Aspect::Boolean));
    }
    if matches!(aspect, Aspect::False) {
        return Ok((Value::Boolean(false), Aspect::Boolean));
    }
    let ty = match aspect_storage_total(aspect) {
        Some(st) => st,
        None => {
            proof {
                lemma_unsupported_not_ok(bytes@, aspect);
            }
            return Err(
                LexDataError::UnexpectedAspect(
                    String::from_str("the aspect's storage is not implemented"),
                ),
            );
        },
    };
    let blen = bytes.len();
    let payload = &bytes[1..blen];
    proof {
        assert(payload@ =~= bytes@.skip(1));
        assert(b0 != 47 && b0 != 48);
    }
    match ty {
        StorageType::String => {
            let v = vstd::slice::slice_to_vec(payload);
            match utf8_to_string(v) {
                Some(s) => Ok((Value::String(s), aspect)),
                None => Err(
                    LexDataError::UnexpectedAspect(
                        String::from_str("string storage holds invalid UTF-8"),
                    ),
                ),
            }
        },
        StorageType::Int32 => match crate::fixed::storage_to_int32(payload) {
            Ok(v) => Ok((v, aspect)),
            Err(e) => Err(e),
        },
        StorageType::Int64 => match crate::fixed::storage_to_int64(payload) {
            Ok(v) => Ok((v, aspect)),
            Err(e) => Err(e),
        },
        StorageType::Float32 => match crate::fixed::storage_to_float32(payload) {
            Ok(v) => Ok((v, aspect)),
            Err(e) => Err(e),
        },
        StorageType::Float64 => match crate::fixed::storage_to_float64(payload) {
            Ok(v) => Ok((v, aspect)),
            Err(e) => Err(e),
        },
        StorageType::BigInt => match crate::bigint::storage_to_bigint(payload) {
            Ok(v) => Ok((v, aspect)),
            Err(e) => Err(e),
        },
        StorageType::BigNum => match crate::bignum::storage_to_bignum(payload) {
            Ok(v) => Ok((v, aspect)),
            Err(e) => Err(e),
        },
        StorageType::DateTime => match crate::datetime::storage_to_date_time(payload) {
            Ok(v) => Ok((v, aspect)),
            Err(e) => Err(e),
        },
    }
}

/// An aspect without a storage type never heads a valid record.
proof fn lemma_unsupported_not_ok(s: Seq<u8>, a: Aspect)
    requires
        s.len() > 0,
        byte_aspect_opt(s[0]) == Some(a),
        aspect_storage_opt(a) is None,
        a != Aspect::True,
        a != Aspect::False,
    ensures
        !record_ok(s),
{
    assert(s[0] != 47 && s[0] != 48);
}

/// The count of bytes before the first zero byte, or all of them.
pub open spec fn zero_prefix_len(s: Seq<u8>) -> nat
    decreases s.len(),
{
    if s.len() == 0 || s[0] == 0 {
        0
    } else {
        1 + zero_prefix_len(s.skip(1))
    }
}

/// Counts the bytes of `bytes` before its first zero byte; a string
/// record embedded in a stream ends at the zero separator or at the end
/// of the buffer.
pub fn string_length(bytes: &[u8]) -> (r: usize)
    ensures
        r as nat == zero_prefix_len(bytes@),
        r <= bytes@.len(),
{
    let mut count: usize = 0;
    let len = bytes.len();
    proof {
        assert(bytes@.skip(0) =~= bytes@);
    }
    while count < len
        invariant
            count <= len,
            len == bytes@.len(),
            zero_prefix_len(bytes@) == count + zero_prefix_len(bytes@.skip(count as int)),
        decreases len - count,
    {
        proof {
            assert(bytes@.skip(count as int)[0] == bytes@[count as int]);
            assert(bytes@.skip(count as int).skip(1) =~= bytes@.skip(count + 1));
        }
        if bytes[count] == 0 {
            return count;
        }
        count = count + 1;
    }
    proof {
        assert(bytes@.skip(count as int).len() == 0);
    }
    count
}

/// The count of fraction bytes up to and including the terminal byte,
/// read under the record's sign.
pub open spec fn frac_len(s: Seq<u8>, sign: bool) -> nat
    decreases s.len(),
{
    if s.len() == 0 {
        0
    } else {
        let b = if sign {
            s[0]
        } else {
            (255 - s[0]) as u8
        };
        if b % 2 == 1 {
            1 + frac_len(s.skip(1), sign)
        } else {
            1
        }
    }
}

/// How many bytes the record at the front of a buffer consumes.
pub open spec fn record_size(s: Seq<u8>) -> nat {
    let p = s.skip(1);
    if s.len() == 0 {
        0
    } else if s[0] == 47 || s[0] == 48 {
        1
    } else {
        match byte_aspect_opt(s[0]) {
            Some(a) => match aspect_storage_opt(a) {
                Some(st) => match st {
                    StorageType::String => 1 + zero_prefix_len(p),
                    StorageType::Int32 => 5,
                    StorageType::Float32 => 5,
                    StorageType::Int64 => 9,
                    StorageType::Float64 => 9,
                    StorageType::DateTime => 9,
                    StorageType::BigInt => match sz_dec(p) {
                        Some((sign, n, u)) => (1 + u + n) as nat,
                        None => 0,
                    },
                    StorageType::BigNum => match sz_dec(p) {
                        Some((sign, n, u)) => (1 + u + n) as nat + frac_len(
                            p.skip((u + n) as int),
                            sign,
                        ),
                        None => 0,
                    },
                },
                None => 0,
            },
            None => 0,
        }
    }
}

/// Reads how many bytes the record at the front of `bytes` consumes,
/// so that a caller can step past it in a concatenated stream.  Fixed
/// for the fixed-width storages; to the zero separator or the end of
/// the buffer for strings; to the end of the announced payload for
/// bigints, plus the fraction bytes up to their terminal for decimals.
pub fn storage_size(bytes: &[u8]) -> (r: usize)
    requires
        record_ok(bytes@),
    ensures
        r as nat == record_size(bytes@),
{
    let b0 = bytes[0];
    if b0 == 47 || b0 == 48 {
        return 1;
    }
    let a = byte_aspect(&b0);
    proof {
        assert(byte_aspect_opt(b0) == Some(a));
    }
    let storage_type = aspect_storage(a);
    let blen = bytes.len();
    let payload = &bytes[1..blen];
    proof {
        assert(payload@ =~= bytes@.skip(1));
    }
    match storage_type {
        StorageType::String => 1 + string_length(payload),
        StorageType::Int32 => 5,
        StorageType::Int64 => 9,
        StorageType::Float32 => 5,
        StorageType::Float64 => 9,
        StorageType::DateTime => 9,
        StorageType::BigInt => {
            let (is_pos, size, idx) = match crate::size::size_decode(payload) {
                Ok(t) => t,
                Err(e) => {
                    proof {
                        assert(false);
                    }
                    return 0;
                },
            };
            proof {
                crate::size::lemma_sz_dec_used(payload@);
                assert(dec_bigint(payload@) is Some);
                assert(idx + size <= payload@.len());
            }
            1 + idx + size as usize
        },
        StorageType::BigNum => {
            let (is_pos, size, idx) = match crate::size::size_decode(payload) {
                Ok(t) => t,
                Err(e) => {
                    proof {
                        assert(false);
                    }
                    return 0;
                },
            };
            proof {
                crate::size::lemma_sz_dec_used(payload@);
                assert(dec_bignum(payload@) is Some);
                assert(idx + size <= payload@.len());
            }
            let offset: usize = idx + size as usize;
            let ghost fb = payload@.skip(offset as int);
            let mut count: usize = 0;
            let plen = payload.len();
            proof {
                assert(fb.skip(0) =~= fb);
            }
            while offset + count < plen
                invariant_except_break
                    frac_len(fb, is_pos) == count + frac_len(fb.skip(count as int), is_pos),
                invariant
                    offset + count <= plen,
                    plen == payload@.len(),
                    offset <= plen,
                    fb =~= payload@.skip(offset as int),
                ensures
                    count as nat == frac_len(fb, is_pos),
                decreases plen - offset - count,
            {
                let b = payload[offset + count];
                proof {
                    assert(fb.skip(count as int)[0] == payload@[offset + count]);
                    assert(fb.skip(count as int).skip(1) =~= fb.skip(count + 1));
                }
                let t: u8 = if is_pos {
                    b
                } else {
                    255 - b
                };
                if t % 2 == 1 {
                    count = count + 1;
                } else {
                    proof {
                        assert(frac_len(fb.skip(count as int), is_pos) == 1);
                        assert(frac_len(fb, is_pos) == count + 1);
                    }
                    count = count + 1;
                    break;
                }
            }
            proof {
                if frac_len(fb, is_pos) != count {
                    assert(fb.skip(count as int).len() == 0);
                }
            }
            1 + offset + count
        },
    }
}

} // verus!
