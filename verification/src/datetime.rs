//! The date-time codec: RFC-3339 text is parsed to signed seconds since
//! the Unix epoch and stored through the 64-bit integer codec, so that
//! byte order is time order; decoding renders the seconds back as an
//! RFC-3339 UTC string.
//!
//! The calendar arithmetic itself is chrono's; the codec relies on it
//! through two narrow wrappers whose results are functions of their
//! arguments alone.

use vstd::prelude::*;
use vstd::string::StringExecFns;

use crate::fixed::{int64_payload, int64_to_storage, storage_to_int64};
use crate::{aspect_byte_spec, aspect_storage_opt, Aspect, LexDataError, StorageType, Value};

verus! {

/// The signed seconds since the Unix epoch denoted by an RFC-3339
/// date-time string, or `None` when the string is not one.
pub uninterp spec fn rfc3339_seconds(s: Seq<char>) -> Option<i64>;

/// The RFC-3339 UTC rendering (`%Y-%m-%dT%H:%M:%SZ`) of the given
/// seconds since the Unix epoch, or `None` when they lie outside the
/// representable calendar range.
pub uninterp spec fn rfc3339_text(t: i64) -> Option<Seq<char>>;

/// Relies on chrono's `DateTime::parse_from_rfc3339` and `timestamp`:
/// the parse accepts exactly the RFC-3339 date-time strings, and the
/// result depends on the string alone.
#[verifier::external_body]
fn parse_rfc3339_seconds(s: &str) -> (r: Option<i64>)
    ensures
        r == rfc3339_seconds(s@),
{
    match chrono::DateTime::parse_from_rfc3339(s) {
        Ok(dt) => Some(dt.timestamp()),
        Err(_) => None,
    }
}

/// Relies on chrono's `DateTime::from_timestamp` and `format`: in-range
/// seconds render as a fixed-layout UTC string, out-of-range seconds
/// give `None`, and the result depends on the seconds alone.
#[verifier::external_body]
fn format_timestamp(t: i64) -> (r: Option<String>)
    ensures
        match r {
            Some(s) => rfc3339_text(t) == Some(s@),
            None => rfc3339_text(t) is None,
        },
{
    chrono::DateTime::from_timestamp(t, 0).map(
        |dt| dt.format("%Y-%m-%dT%H:%M:%SZ").to_string(),
    )
}

/// Encodes an RFC-3339 date-time string as its epoch seconds under the
/// 64-bit integer layout.  A string that is not RFC-3339 fails with
/// `BadDateFormat`; an aspect without `DateTime` or `Int64` storage,
/// with `UnexpectedAspect`.
pub fn date_time_to_storage(s: String, a: Aspect) -> (r: Result<Vec<u8>, LexDataError>)
    ensures
        match r {
            Ok(v) => {
                &&& rfc3339_seconds(s@) matches Some(t) && v@ == seq![aspect_byte_spec(a)]
                    + int64_payload(t)
                &&& (aspect_storage_opt(a) == Some(StorageType::Int64) || aspect_storage_opt(a)
                    == Some(StorageType::DateTime))
            },
            Err(e) => match rfc3339_seconds(s@) {
                Some(t) => e is UnexpectedAspect && aspect_storage_opt(a) != Some(
                    StorageType::Int64,
                ) && aspect_storage_opt(a) != Some(StorageType::DateTime),
                None => e is BadDateFormat,
            },
        },
{
    match parse_rfc3339_seconds(s.as_str()) {
        Some(timestamp) => int64_to_storage(timestamp, a),
        None => Err(
            LexDataError::BadDateFormat(
                String::from_str("the string is not an RFC-3339 date-time"),
            ),
        ),
    }
}

/// Decodes a `DateTime` payload: the first eight bytes as epoch seconds,
/// rendered as an RFC-3339 UTC string.  Seconds outside the calendar
/// range fail with `BadDateFormat`.
pub fn storage_to_date_time(bytes: &[u8]) -> (r: Result<Value, LexDataError>)
    ensures
        match r {
            Ok(v) => v matches Value::String(s) && bytes@.len() >= 8 && rfc3339_text(
                crate::fixed::i64_of_key(crate::bigint::mag_val(bytes@.take(8))),
            ) == Some(s@),
            Err(e) => (bytes@.len() >= 8 && e is BadDateFormat && rfc3339_text(
                crate::fixed::i64_of_key(crate::bigint::mag_val(bytes@.take(8))),
            ) is None) || (bytes@.len() < 8 && e is BadInt64Layout),
        },
{
    let i = match storage_to_int64(bytes) {
        Ok(Value::Int64(i)) => i,
        Ok(_) => {
            proof {
                assert(false);
            }
            return Err(
                LexDataError::BadInt64Layout(String::from_str("unreachable")),
            );
        },
        Err(e) => {
            return Err(e);
        },
    };
    proof {
        assert(i == crate::fixed::i64_of_key(crate::bigint::mag_val(bytes@.take(8))));
    }
    match format_timestamp(i) {
        Some(text) => Ok(Value::String(text)),
        None => Err(
            LexDataError::BadDateFormat(
                String::from_str("the stored seconds lie outside the calendar range"),
            ),
        ),
    }
}

} // verus!
