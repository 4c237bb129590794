//! The properties the wire format keeps, stated over whole records:
//! every encoded record decodes back to its value, records carry their
//! own length, and records of one comparable aspect sort in the order
//! of their values.

use vstd::prelude::*;
use vstd::utf8::{encode_utf8, valid_utf8};

use crate::bigint::{bigint_body, int_val, lemma_bigint_order, lemma_bigint_round_trip};
use crate::bignum::{bignum_body, decimal_lt, dec_int_part, is_decimal_string,
    lemma_bignum_order, lemma_bignum_round_trip, normal_decimal};
use crate::datetime::{rfc3339_seconds, rfc3339_text};
use crate::fixed::{be_seq, f32_key, f64_key, i32_key, i64_key, int64_payload,
    lemma_be_seq_order, lemma_be_seq_val};
use crate::fraction::lemma_frac_enc_len;
use crate::order::{compl, lemma_lt_prepend, lemma_lt_prepend_any, lex_lt};
use crate::size::sz_dec;
use crate::{accepts, aspect_byte_spec, aspect_storage_opt, byte_aspect_opt, decoded_pair,
    record_bytes, record_ok, record_size, Aspect, StorageType, Value};

verus! {

/// What decoding an encoded record must give back: the value itself,
/// under the aspect it was encoded with, except that booleans come back
/// under the `Boolean` aspect, a decimal comes back as its normalized
/// text, and a date-time as the RFC-3339 rendering of its seconds.
pub open spec fn round_result(v: Value, a: Aspect, v2: Value, a2: Aspect) -> bool {
    match v {
        Value::String(s) => {
            if a == Aspect::DateTime {
                a2 == a && (match rfc3339_seconds(s@) {
                    Some(t) => v2 matches Value::String(x) && rfc3339_text(t) == Some(x@),
                    None => false,
                })
            } else if a == Aspect::Decimal {
                a2 == a && (v2 matches Value::String(x) && x@ == normal_decimal(s@))
            } else {
                a2 == a && (v2 matches Value::String(x) && x@ == s@)
            }
        },
        Value::BigInt(i) => a2 == a && (v2 matches Value::BigInt(j) && j.negative == i.negative
            && j.magnitude@ == i.magnitude@),
        Value::Int32(i) => a2 == a && v2 == Value::Int32(i),
        Value::Int64(i) => a2 == a && v2 == Value::Int64(i),
        Value::Float32(b) => a2 == a && v2 == Value::Float32(b),
        Value::Float64(b) => a2 == a && v2 == Value::Float64(b),
        Value::Boolean(b) => a2 == Aspect::Boolean && v2 == Value::Boolean(b),
    }
}

/// The wire byte of an aspect maps back to the aspect.
proof fn lemma_aspect_byte_inverse(a: Aspect)
    ensures
        byte_aspect_opt(aspect_byte_spec(a)) == Some(a),
{
}

/// Universal round trip: every record that `encode` accepts decodes,
/// and what it decodes to stands in `round_result` to what was encoded.
/// Every storage type but strings is self-delimiting, so the record may
/// be followed by arbitrary bytes; a string record must stand alone.
///
/// Left out by the hypotheses: a 64-bit integer encoded under the
/// `DateTime` aspect (it decodes as a date-time string, not as the
/// integer), and a date-time whose seconds chrono cannot render back.
#[verifier::rlimit(100)]
#[verifier::spinoff_prover]
pub proof fn lemma_record_round_trip(v: Value, a: Aspect, g: Seq<u8>)
    requires
        accepts(v, a),
        v matches Value::BigInt(i) ==> i.wf() && i.magnitude@.len() + 1 <= u32::MAX,
        v matches Value::String(s) ==> (a == Aspect::Decimal ==> is_decimal_string(s@)
            && s@.len() < 0xffff_fff0),
        v matches Value::String(s) ==> (a == Aspect::DateTime ==> (rfc3339_seconds(s@)
            matches Some(t) && rfc3339_text(t) is Some)),
        v matches Value::String(s) ==> (a != Aspect::DateTime && a != Aspect::Decimal ==> g
            == Seq::<u8>::empty()),
        v matches Value::Int64(i) ==> aspect_storage_opt(a) == Some(StorageType::Int64),
    ensures
        record_ok(record_bytes(v, a) + g),
        forall|v2: Value, a2: Aspect|
            decoded_pair(record_bytes(v, a) + g, v2, a2) ==> round_result(v, a, v2, a2),
{
    let rb = record_bytes(v, a);
    let w = rb + g;
    match v {
        Value::Boolean(b) => {
            assert(w[0] == (if b {
                48u8
            } else {
                47u8
            }));
        },
        Value::String(s) => {
            let tag = aspect_byte_spec(a);
            lemma_aspect_byte_inverse(a);
            if a == Aspect::DateTime {
                let t = rfc3339_seconds(s@)->Some_0;
                assert(w =~= seq![tag] + (int64_payload(t) + g));
                assert(w[0] == tag);
                assert(w.skip(1) =~= int64_payload(t) + g);
                crate::fixed::lemma_pow256_values();
                lemma_be_seq_val(i64_key(t), 8);
                assert(w.skip(1).take(8) =~= be_seq(i64_key(t), 8));
                assert(i64_key(crate::fixed::i64_of_key(i64_key(t))) == i64_key(t));
                assert(crate::fixed::i64_of_key(i64_key(t)) == t);
            } else if a == Aspect::Decimal {
                assert(w =~= seq![tag] + (bignum_body(s@) + g));
                assert(w[0] == tag);
                assert(w.skip(1) =~= bignum_body(s@) + g);
                lemma_bignum_round_trip(s@, g);
                crate::bignum::lemma_mag_of_digits_len(dec_int_part(s@));
                lemma_bignum_size_bound(s@, g);
            } else {
                assert(w =~= seq![tag] + encode_utf8(s@)) by {
                    assert(g =~= Seq::<u8>::empty());
                }
                assert(w[0] == tag);
                assert(w.skip(1) =~= encode_utf8(s@));
                broadcast use vstd::utf8::encode_utf8_valid_utf8;
                broadcast use vstd::utf8::encode_utf8_decode_utf8;

                assert(valid_utf8(encode_utf8(s@)));
            }
        },
        Value::BigInt(i) => {
            let tag = aspect_byte_spec(a);
            lemma_aspect_byte_inverse(a);
            assert(w =~= seq![tag] + (bigint_body(i.negative, i.magnitude@) + g));
            assert(w[0] == tag);
            assert(w.skip(1) =~= bigint_body(i.negative, i.magnitude@) + g);
            lemma_bigint_round_trip(i.negative, i.magnitude@, g);
            // The announced payload count is the payload's length.
            let p = crate::bigint::bigint_payload(i.magnitude@);
            if i.negative {
                crate::size::lemma_size_code_compl_decodes(p.len(), compl(p) + g);
                assert(w.skip(1) =~= compl(crate::size::size_spec(p.len())) + (compl(p) + g))
                    by {
                    assert(compl(crate::size::size_spec(p.len()) + p) =~= compl(
                        crate::size::size_spec(p.len()),
                    ) + compl(p));
                }
            } else {
                crate::size::lemma_size_code_decodes(p.len(), p + g);
                assert(w.skip(1) =~= crate::size::size_spec(p.len()) + (p + g));
            }
        },
        Value::Int32(i) => {
            let tag = aspect_byte_spec(a);
            lemma_aspect_byte_inverse(a);
            assert(w[0] == tag);
            assert(w.skip(1) =~= be_seq(i32_key(i), 4) + g);
            crate::fixed::lemma_pow256_values();
            lemma_be_seq_val(i32_key(i), 4);
            assert(w.skip(1).take(4) =~= be_seq(i32_key(i), 4));
        },
        Value::Int64(i) => {
            let tag = aspect_byte_spec(a);
            lemma_aspect_byte_inverse(a);
            assert(w[0] == tag);
            assert(w.skip(1) =~= be_seq(i64_key(i), 8) + g);
            crate::fixed::lemma_pow256_values();
            lemma_be_seq_val(i64_key(i), 8);
            assert(w.skip(1).take(8) =~= be_seq(i64_key(i), 8));
        },
        Value::Float32(b) => {
            let tag = aspect_byte_spec(a);
            lemma_aspect_byte_inverse(a);
            assert(w[0] == tag);
            assert(w.skip(1) =~= be_seq(f32_key(b), 4) + g);
            crate::fixed::lemma_pow256_values();
            lemma_be_seq_val(f32_key(b), 4);
            assert(w.skip(1).take(4) =~= be_seq(f32_key(b), 4));
        },
        Value::Float64(b) => {
            let tag = aspect_byte_spec(a);
            lemma_aspect_byte_inverse(a);
            assert(w[0] == tag);
            assert(w.skip(1) =~= be_seq(f64_key(b), 8) + g);
            crate::fixed::lemma_pow256_values();
            lemma_be_seq_val(f64_key(b), 8);
            assert(w.skip(1).take(8) =~= be_seq(f64_key(b), 8));
        },
    }
}

/// The size code at the front of a decimal body announces no more bytes
/// than a 32-bit count holds.
proof fn lemma_bignum_size_bound(s: Seq<char>, g: Seq<u8>)
    requires
        is_decimal_string(s),
        s.len() < 0xffff_fff0,
    ensures
        match sz_dec(bignum_body(s) + g) {
            Some((sign, n, u)) => n <= u32::MAX,
            None => false,
        },
{
    let n = crate::decimal::digits_val(dec_int_part(s)) as nat;
    let mag = crate::bignum::mag_of(n);
    let fr = crate::fraction::frac_enc(crate::bignum::dec_frac_part(s));
    crate::decimal::lemma_digits_val_nonneg(dec_int_part(s));
    crate::bignum::lemma_mag_of_digits_len(dec_int_part(s));
    crate::bignum::lemma_mag_of_val(n);
    let w = bignum_body(s) + g;
    if crate::bignum::dec_negative(s) && n == 0 {
        assert(w[0] == 127);
        assert(sz_dec(w) == Some((false, 0nat, 1nat))) by {
            assert((255 - 127) as u8 == 128);
        }
    } else {
        let p = crate::bigint::bigint_payload(mag);
        assert(mag.len() <= dec_int_part(s).len());
        crate::bignum::lemma_find_dot_bounds(crate::bignum::dec_core(s), 0);
        assert(dec_int_part(s).len() <= s.len());
        assert(p.len() <= mag.len() + 1);
        assert(p.len() <= u32::MAX);
        if crate::bignum::dec_negative(s) {
            crate::size::lemma_size_code_compl_decodes(p.len(), compl(p) + (compl(fr) + g));
            assert(w =~= compl(crate::size::size_spec(p.len())) + (compl(p) + (compl(fr) + g)))
                by {
                assert(compl(crate::size::size_spec(p.len()) + p) =~= compl(
                    crate::size::size_spec(p.len()),
                ) + compl(p));
            }
        } else {
            crate::size::lemma_size_code_decodes(p.len(), p + (fr + g));
            assert(w =~= crate::size::size_spec(p.len()) + (p + (fr + g)));
        }
    }
}

/// Self-delimitation: every record of a storage type other than
/// `String` reports its own length from the front of any longer
/// buffer, so `storage_size` of the record with trailing bytes is the
/// record's length.  (A string record runs to the zero separator or the
/// end of the buffer instead.)
#[verifier::rlimit(100)]
#[verifier::spinoff_prover]
pub proof fn lemma_record_size_self_delimiting(v: Value, a: Aspect, g: Seq<u8>)
    requires
        accepts(v, a),
        v matches Value::BigInt(i) ==> i.wf() && i.magnitude@.len() + 1 <= u32::MAX,
        v matches Value::String(s) ==> (a == Aspect::Decimal ==> is_decimal_string(s@)
            && s@.len() < 0xffff_fff0),
        v matches Value::String(s) ==> a == Aspect::Decimal || a == Aspect::DateTime,
    ensures
        record_size(record_bytes(v, a) + g) == record_bytes(v, a).len(),
{
    let rb = record_bytes(v, a);
    let w = rb + g;
    match v {
        Value::Boolean(b) => {
            assert(w[0] == (if b {
                48u8
            } else {
                47u8
            }));
        },
        Value::String(s) => {
            let tag = aspect_byte_spec(a);
            lemma_aspect_byte_inverse(a);
            if a == Aspect::DateTime {
                let t = rfc3339_seconds(s@)->Some_0;
                crate::fixed::lemma_pow256_values();
                lemma_be_seq_val(i64_key(t), 8);
                assert(w[0] == tag);
            } else {
                assert(a == Aspect::Decimal);
                assert(w =~= seq![aspect_byte_spec(Aspect::Decimal)] + (bignum_body(s@) + g));
                lemma_decimal_body_size(s@, g);
                assert(rb.len() == 1 + bignum_body(s@).len());
            }
        },
        Value::BigInt(i) => {
            let tag = aspect_byte_spec(a);
            lemma_aspect_byte_inverse(a);
            assert(w[0] == tag);
            assert(w.skip(1) =~= bigint_body(i.negative, i.magnitude@) + g);
            let p = crate::bigint::bigint_payload(i.magnitude@);
            let sc = crate::size::size_spec(p.len());
            if i.negative {
                crate::size::lemma_size_code_compl_decodes(p.len(), compl(p) + g);
                assert(w.skip(1) =~= compl(sc) + (compl(p) + g)) by {
                    assert(compl(sc + p) =~= compl(sc) + compl(p));
                }
            } else {
                crate::size::lemma_size_code_decodes(p.len(), p + g);
                assert(w.skip(1) =~= sc + (p + g));
            }
            assert(rb.len() == 1 + sc.len() + p.len());
        },
        Value::Int32(i) => {
            lemma_aspect_byte_inverse(a);
            crate::fixed::lemma_pow256_values();
            lemma_be_seq_val(i32_key(i), 4);
            assert(w[0] == aspect_byte_spec(a));
        },
        Value::Int64(i) => {
            lemma_aspect_byte_inverse(a);
            crate::fixed::lemma_pow256_values();
            lemma_be_seq_val(i64_key(i), 8);
            assert(w[0] == aspect_byte_spec(a));
        },
        Value::Float32(b) => {
            lemma_aspect_byte_inverse(a);
            crate::fixed::lemma_pow256_values();
            lemma_be_seq_val(f32_key(b), 4);
            assert(w[0] == aspect_byte_spec(a));
        },
        Value::Float64(b) => {
            lemma_aspect_byte_inverse(a);
            crate::fixed::lemma_pow256_values();
            lemma_be_seq_val(f64_key(b), 8);
            assert(w[0] == aspect_byte_spec(a));
        },
    }
}

/// The decimal record: one tag byte, the integer body, and the
/// fraction bytes up to their terminal, whatever follows them.
#[verifier::rlimit(100)]
proof fn lemma_decimal_body_size(sq: Seq<char>, g: Seq<u8>)
    requires
        is_decimal_string(sq),
        sq.len() < 0xffff_fff0,
    ensures
        ({
            let w = seq![aspect_byte_spec(Aspect::Decimal)] + (bignum_body(sq) + g);
            record_size(w) == 1 + bignum_body(sq).len()
        }),
{
    let tag = aspect_byte_spec(Aspect::Decimal);
    lemma_aspect_byte_inverse(Aspect::Decimal);
    let w = seq![tag] + (bignum_body(sq) + g);
    assert(w[0] == tag);
    assert(w.skip(1) =~= bignum_body(sq) + g);
    lemma_bignum_size_bound(sq, g);
    let n = crate::decimal::digits_val(dec_int_part(sq)) as nat;
    let mag = crate::bignum::mag_of(n);
    let fp = crate::bignum::dec_frac_part(sq);
    let fr = crate::fraction::frac_enc(fp);
    crate::decimal::lemma_digits_val_nonneg(dec_int_part(sq));
    crate::bignum::lemma_mag_of_val(n);
    let neg = crate::bignum::dec_negative(sq);
    if neg && n == 0 {
        assert(sz_dec(w.skip(1)) == Some((false, 0nat, 1nat))) by {
            assert(w.skip(1)[0] == 127);
            assert((255 - 127) as u8 == 128);
        }
        assert(w.skip(1).skip(1) =~= compl(fr) + g);
        lemma_frac_enc_len(fp, false, g);
        assert(bignum_body(sq).len() == 1 + fr.len());
    } else {
        let p = crate::bigint::bigint_payload(mag);
        let sc = crate::size::size_spec(p.len());
        if neg {
            crate::size::lemma_size_code_compl_decodes(p.len(), compl(p) + (compl(fr) + g));
            assert(w.skip(1) =~= compl(sc) + (compl(p) + (compl(fr) + g))) by {
                assert(compl(sc + p) =~= compl(sc) + compl(p));
            }
            assert(w.skip(1).skip((sc.len() + p.len()) as int) =~= compl(fr) + g);
            lemma_frac_enc_len(fp, false, g);
            assert(bignum_body(sq).len() == sc.len() + p.len() + fr.len());
        } else {
            crate::size::lemma_size_code_decodes(p.len(), p + (fr + g));
            assert(w.skip(1) =~= sc + (p + (fr + g)));
            assert(w.skip(1).skip((sc.len() + p.len()) as int) =~= fr + g);
            lemma_frac_enc_len(fp, true, g);
            assert(bignum_body(sq).len() == sc.len() + p.len() + fr.len());
        }
    }
}

/// String records sort as the raw UTF-8 bytes of their text.
pub proof fn lemma_string_records_sorted(v1: Value, v2: Value, a: Aspect)
    requires
        v1 matches Value::String(x1),
        v2 matches Value::String(x2),
        aspect_storage_opt(a) == Some(StorageType::String),
        v1 matches Value::String(x1) && v2 matches Value::String(x2) ==> lex_lt(
            encode_utf8(x1@),
            encode_utf8(x2@),
        ),
    ensures
        lex_lt(record_bytes(v1, a), record_bytes(v2, a)),
{
    let x1 = v1->String_0;
    let x2 = v2->String_0;
    lemma_lt_prepend_any(
        seq![aspect_byte_spec(a)],
        encode_utf8(x1@),
        encode_utf8(x2@),
    );
}

/// 32-bit integer records sort in numeric order.
pub proof fn lemma_int32_records_sorted(i1: i32, i2: i32, a: Aspect)
    requires
        i1 < i2,
        aspect_storage_opt(a) == Some(StorageType::Int32),
    ensures
        lex_lt(record_bytes(Value::Int32(i1), a), record_bytes(Value::Int32(i2), a)),
{
    crate::fixed::lemma_pow256_values();
    lemma_be_seq_order(i32_key(i1), i32_key(i2), 4);
    lemma_lt_prepend(seq![aspect_byte_spec(a)], be_seq(i32_key(i1), 4), be_seq(i32_key(i2), 4));
}

/// 64-bit integer records sort in numeric order; a date-time record is
/// an `Int64` record of its seconds, so date-times sort in time order.
pub proof fn lemma_int64_records_sorted(i1: i64, i2: i64, a: Aspect)
    requires
        i1 < i2,
        aspect_storage_opt(a) == Some(StorageType::Int64) || aspect_storage_opt(a) == Some(
            StorageType::DateTime,
        ),
    ensures
        lex_lt(record_bytes(Value::Int64(i1), a), record_bytes(Value::Int64(i2), a)),
{
    crate::fixed::lemma_pow256_values();
    lemma_be_seq_order(i64_key(i1), i64_key(i2), 8);
    lemma_lt_prepend(seq![aspect_byte_spec(a)], be_seq(i64_key(i1), 8), be_seq(i64_key(i2), 8));
}

/// Binary32 records sort in numeric order: `f32_lt` is the IEEE order
/// of the non-NaN bit patterns, with the negative zero placed below
/// the positive one as the wire order has it.
pub proof fn lemma_float32_records_sorted(b1: u32, b2: u32, a: Aspect)
    requires
        crate::fixed::f32_lt(b1, b2),
        aspect_storage_opt(a) == Some(StorageType::Float32),
    ensures
        lex_lt(record_bytes(Value::Float32(b1), a), record_bytes(Value::Float32(b2), a)),
{
    crate::fixed::lemma_f32_key_order(b1, b2);
    crate::fixed::lemma_pow256_values();
    lemma_be_seq_order(f32_key(b1), f32_key(b2), 4);
    lemma_lt_prepend(seq![aspect_byte_spec(a)], be_seq(f32_key(b1), 4), be_seq(f32_key(b2), 4));
}

/// Binary64 records sort in numeric order: `f64_lt` is the IEEE order
/// of the non-NaN bit patterns.
pub proof fn lemma_float64_records_sorted(b1: u64, b2: u64, a: Aspect)
    requires
        crate::fixed::f64_lt(b1, b2),
        aspect_storage_opt(a) == Some(StorageType::Float64),
    ensures
        lex_lt(record_bytes(Value::Float64(b1), a), record_bytes(Value::Float64(b2), a)),
{
    crate::fixed::lemma_f64_key_order(b1, b2);
    crate::fixed::lemma_pow256_values();
    lemma_be_seq_order(f64_key(b1), f64_key(b2), 8);
    lemma_lt_prepend(seq![aspect_byte_spec(a)], be_seq(f64_key(b1), 8), be_seq(f64_key(b2), 8));
}

/// Bigint records sort in numeric order, for magnitudes under 8189
/// bytes (the size code itself stops preserving order at its next
/// length boundary).
pub proof fn lemma_bigint_records_sorted(v1: Value, v2: Value, a: Aspect)
    requires
        v1 matches Value::BigInt(i1) && i1.wf() && i1.magnitude@.len() < 8190,
        v2 matches Value::BigInt(i2) && i2.wf() && i2.magnitude@.len() < 8190,
        v1 matches Value::BigInt(i1) && v2 matches Value::BigInt(i2) ==> int_val(
            i1.negative,
            i1.magnitude@,
        ) < int_val(i2.negative, i2.magnitude@),
        aspect_storage_opt(a) == Some(StorageType::BigInt),
    ensures
        lex_lt(record_bytes(v1, a), record_bytes(v2, a)),
{
    let i1 = v1->BigInt_0;
    let i2 = v2->BigInt_0;
    lemma_bigint_order(i1.negative, i1.magnitude@, i2.negative, i2.magnitude@);
    lemma_lt_prepend(
        seq![aspect_byte_spec(a)],
        bigint_body(i1.negative, i1.magnitude@),
        bigint_body(i2.negative, i2.magnitude@),
    );
}

/// Decimal records sort in decimal order, for integer parts under 8189
/// digits.
pub proof fn lemma_decimal_records_sorted(v1: Value, v2: Value, a: Aspect)
    requires
        v1 matches Value::String(x1) && is_decimal_string(x1@) && dec_int_part(x1@).len()
            <= 8188,
        v2 matches Value::String(x2) && is_decimal_string(x2@) && dec_int_part(x2@).len()
            <= 8188,
        v1 matches Value::String(x1) && v2 matches Value::String(x2) ==> decimal_lt(x1@, x2@),
        a == Aspect::Decimal,
    ensures
        lex_lt(record_bytes(v1, a), record_bytes(v2, a)),
{
    let x1 = v1->String_0;
    let x2 = v2->String_0;
    lemma_bignum_order(x1@, x2@);
    lemma_lt_prepend(seq![aspect_byte_spec(a)], bignum_body(x1@), bignum_body(x2@));
}

/// Date-time records sort in time order: two RFC-3339 strings whose
/// seconds are ordered encode to ordered records.
pub proof fn lemma_datetime_records_sorted(v1: Value, v2: Value)
    requires
        v1 matches Value::String(x1),
        v2 matches Value::String(x2),
        v1 matches Value::String(x1) && v2 matches Value::String(x2) ==> (rfc3339_seconds(x1@)
            matches Some(t1) && rfc3339_seconds(x2@) matches Some(t2) && t1 < t2),
    ensures
        lex_lt(
            record_bytes(v1, Aspect::DateTime),
            record_bytes(v2, Aspect::DateTime),
        ),
{
    let t1 = rfc3339_seconds(v1->String_0@)->Some_0;
    let t2 = rfc3339_seconds(v2->String_0@)->Some_0;
    crate::fixed::lemma_pow256_values();
    lemma_be_seq_order(i64_key(t1), i64_key(t2), 8);
    lemma_lt_prepend(
        seq![aspect_byte_spec(Aspect::DateTime)],
        be_seq(i64_key(t1), 8),
        be_seq(i64_key(t2), 8),
    );
}

} // verus!
