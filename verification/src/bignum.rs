//! The decimal ("bignum") codec: a decimal string is split at the dot,
//! the integer part goes through the bigint codec and the fraction
//! through the centimal fraction codec.  For a negative value the
//! fraction bytes are complemented too, and a value with integer part
//! zero but a negative sign gets the two-byte prefix of tag and
//! `NEGATIVE_ZERO`, so that `-0.x` sorts below every non-negative
//! value.

use vstd::prelude::*;
use vstd::string::StringExecFns;

use crate::bigint::{bigint_body, bigint_body_bytes, mag_val, pow256, read_mag, strip_zeros};
use crate::decimal::{dec_digits, digits_string, digits_val, is_digit, parse_digits};
use crate::fraction::{decode_fraction, encode_fraction, frac_dec, frac_enc};
use crate::order::{compl, negate};
use crate::size::{size_decode, sz_dec, NEGATIVE_ZERO};
use crate::{aspect_byte, aspect_byte_spec, aspect_storage_opt, aspect_storage_total, Aspect,
    LexDataError, StorageType, Value};

verus! {

/// The first index at or after `i` holding a dot, or the length.
pub open spec fn find_dot(s: Seq<char>, i: int) -> int
    decreases s.len() - i,
{
    if i < 0 || i >= s.len() {
        s.len() as int
    } else if s[i] == '.' {
        i
    } else {
        find_dot(s, i + 1)
    }
}

/// Whether a decimal string carries a minus sign.
pub open spec fn dec_negative(s: Seq<char>) -> bool {
    s.len() > 0 && s[0] == '-'
}

/// A decimal string without its sign.
pub open spec fn dec_core(s: Seq<char>) -> Seq<char> {
    if dec_negative(s) {
        s.skip(1)
    } else {
        s
    }
}

/// The integer-part digits of a decimal string.
pub open spec fn dec_int_part(s: Seq<char>) -> Seq<char> {
    dec_core(s).take(find_dot(dec_core(s), 0))
}

/// The fraction digits of a decimal string; empty when there is no dot
/// or nothing after it.
pub open spec fn dec_frac_part(s: Seq<char>) -> Seq<char> {
    let c = dec_core(s);
    let d = find_dot(c, 0);
    if d < c.len() {
        c.skip(d + 1)
    } else {
        Seq::<char>::empty()
    }
}

/// A decimal string: an optional minus sign, at least one integer
/// digit, and optionally a dot followed by fraction digits.
pub open spec fn is_decimal_string(s: Seq<char>) -> bool {
    &&& dec_int_part(s).len() > 0
    &&& forall|k: int| 0 <= k < dec_int_part(s).len() ==> is_digit(#[trigger] dec_int_part(s)[k])
    &&& forall|k: int|
        0 <= k < dec_frac_part(s).len() ==> is_digit(#[trigger] dec_frac_part(s)[k])
}

/// The canonical big-endian magnitude of a value.
pub open spec fn mag_of(n: nat) -> Seq<u8>
    decreases n,
{
    if n == 0 {
        Seq::<u8>::empty()
    } else {
        mag_of(n / 256).push((n % 256) as u8)
    }
}

/// The canonical magnitude of a value is canonical and carries the
/// value.
pub proof fn lemma_mag_of_val(n: nat)
    ensures
        mag_val(mag_of(n)) == n,
        mag_of(n).len() > 0 ==> mag_of(n)[0] != 0,
        n > 0 ==> mag_of(n).len() > 0,
    decreases n,
{
    if n > 0 {
        vstd::arithmetic::div_mod::lemma_fundamental_div_mod(n as int, 256);
        assert(n / 256 < n) by (nonlinear_arith)
            requires
                n >= 1,
                n == 256 * (n / 256) + n % 256,
                0 <= n % 256 < 256,
        ;
        lemma_mag_of_val(n / 256);
        let s = mag_of(n);
        assert(s.drop_last() =~= mag_of(n / 256));
        assert(s.last() == (n % 256) as u8);
        if mag_of(n / 256).len() > 0 {
            assert(s[0] == mag_of(n / 256)[0]);
        }
    }
}

/// A canonical magnitude is the canonical magnitude of its value.
pub proof fn lemma_mag_of_unique(m: Seq<u8>)
    requires
        m.len() > 0 ==> m[0] != 0,
    ensures
        mag_of(mag_val(m)) == m,
    decreases m.len(),
{
    if m.len() == 0 {
    } else {
        let hi = m.drop_last();
        let n = mag_val(m);
        assert(n == mag_val(hi) * 256 + m.last());
        vstd::arithmetic::div_mod::lemma_fundamental_div_mod_converse(
            n as int,
            256,
            mag_val(hi) as int,
            m.last() as int,
        );
        assert(n / 256 == mag_val(hi));
        assert(n % 256 == m.last());
        if hi.len() > 0 {
            assert(hi[0] == m[0]);
        }
        lemma_mag_of_unique(hi);
        assert(n > 0) by {
            if hi.len() > 0 {
                crate::bigint::lemma_mag_val_lower(hi);
                assert(mag_val(hi) >= 1);
                assert(mag_val(hi) * 256 >= 256) by (nonlinear_arith)
                    requires
                        mag_val(hi) >= 1,
                ;
            } else {
                assert(m.last() == m[0]);
            }
        }
        assert(mag_of(n) =~= mag_of(n / 256).push((n % 256) as u8));
        assert(mag_of(n) =~= m);
    }
}

/// Powers of ten.
pub open spec fn pow10(k: nat) -> nat
    decreases k,
{
    if k == 0 {
        1
    } else {
        10 * pow10((k - 1) as nat)
    }
}

/// A digit string's value stays below ten to its length, which stays
/// below 256 to its length.
pub proof fn lemma_digits_val_upper(s: Seq<char>)
    requires
        forall|k: int| 0 <= k < s.len() ==> is_digit(s[k]),
    ensures
        0 <= digits_val(s) < pow10(s.len()),
        pow10(s.len()) <= pow256(s.len()),
    decreases s.len(),
{
    if s.len() == 0 {
    } else {
        lemma_digits_val_upper(s.drop_last());
        assert(is_digit(s.last()));
        let p = pow10((s.len() - 1) as nat);
        assert(digits_val(s.drop_last()) * 10 <= (p - 1) * 10) by (nonlinear_arith)
            requires
                digits_val(s.drop_last()) <= p - 1,
        ;
        assert(10 * pow10((s.len() - 1) as nat) <= 256 * pow256((s.len() - 1) as nat))
            by (nonlinear_arith)
            requires
                pow10((s.len() - 1) as nat) <= pow256((s.len() - 1) as nat),
                pow10((s.len() - 1) as nat) >= 0,
        ;
    }
}

/// The decimal body of a decimal string, after the aspect tag: bigint
/// body of the integer part, then the fraction bytes, both complemented
/// for a negative value; a negative zero integer part becomes the
/// `NEGATIVE_ZERO` size code.
pub open spec fn bignum_body(s: Seq<char>) -> Seq<u8> {
    let neg = dec_negative(s);
    let n = digits_val(dec_int_part(s)) as nat;
    let fr = frac_enc(dec_frac_part(s));
    if neg && n == 0 {
        seq![NEGATIVE_ZERO] + compl(fr)
    } else {
        bigint_body(neg, mag_of(n)) + (if neg {
            compl(fr)
        } else {
            fr
        })
    }
}

/// The normalized form of a decimal string, as `decode` renders it:
/// canonical integer digits, the fraction digits kept as written, the
/// sign kept unless the whole value is an unfractioned zero.
pub open spec fn normal_decimal(s: Seq<char>) -> Seq<char> {
    let neg = dec_negative(s);
    let n = digits_val(dec_int_part(s)) as nat;
    let digits = dec_digits(n);
    let fp = dec_frac_part(s);
    if fp.len() == 0 {
        if neg && n > 0 {
            seq!['-'] + digits
        } else {
            digits
        }
    } else {
        if neg {
            seq!['-'] + digits + seq!['.'] + fp
        } else {
            digits + seq!['.'] + fp
        }
    }
}

/// The decimal body of a decimal string decodes back to the string's
/// normalized form from the front of any longer buffer.
#[verifier::rlimit(60)]
pub proof fn lemma_bignum_round_trip(s: Seq<char>, g: Seq<u8>)
    requires
        is_decimal_string(s),
    ensures
        dec_bignum(bignum_body(s) + g) == Some(normal_decimal(s)),
{
    let neg = dec_negative(s);
    let n = digits_val(dec_int_part(s)) as nat;
    let mag = mag_of(n);
    let fp = dec_frac_part(s);
    let fr = frac_enc(fp);
    let w = bignum_body(s) + g;
    lemma_mag_of_val(n);
    crate::decimal::lemma_digits_val_nonneg(dec_int_part(s));
    if neg && n == 0 {
        assert(w[0] == NEGATIVE_ZERO);
        assert(sz_dec(w) == Some((false, 0nat, 1nat))) by {
            assert(w[0] < 128);
            assert((255 - 127) as u8 == 128);
        }
        assert(w.subrange(1, 1) =~= Seq::<u8>::empty());
        assert(compl(Seq::<u8>::empty()) =~= Seq::<u8>::empty());
        assert(strip_zeros(Seq::<u8>::empty()) =~= Seq::<u8>::empty());
        assert(w.skip(1) =~= compl(fr) + g);
        assert(compl(compl(fr) + g) =~= fr + compl(g)) by {
            crate::order::lemma_compl_compl(fr);
        }
        crate::fraction::lemma_frac_round_trip(fp, compl(g));
        assert(mag_val(Seq::<u8>::empty()) == 0);
    } else if !neg {
        let p = crate::bigint::bigint_payload(mag);
        let np = p.len();
        assert(w =~= crate::size::size_spec(np) + (p + (fr + g)));
        crate::size::lemma_size_code_decodes(np, p + (fr + g));
        let u = crate::size::size_spec(np).len();
        assert(np > 0);
        assert(sz_dec(w) == Some((true, np, u as nat)));
        assert(w.subrange(u as int, (u + np) as int) =~= p);
        if mag.len() == 0 {
            assert(p =~= seq![0u8]);
            assert(p[0] == 0);
            assert(p.skip(1) =~= Seq::<u8>::empty());
            assert(strip_zeros(p) == strip_zeros(p.skip(1)));
            assert(strip_zeros(p) =~= mag);
        } else if mag[0] >= 128 {
            crate::bigint::lemma_strip_zeros_pad(mag);
        } else {
            crate::bigint::lemma_strip_zeros_id(mag);
        }
        assert(w.skip((u + np) as int) =~= fr + g);
        crate::fraction::lemma_frac_round_trip(fp, g);
    } else {
        let p = crate::bigint::bigint_payload(mag);
        let np = p.len();
        let sc = crate::size::size_spec(np);
        assert(bigint_body(neg, mag) =~= compl(sc) + compl(p)) by {
            assert(compl(sc + p) =~= compl(sc) + compl(p));
        }
        assert(w =~= compl(sc) + (compl(p) + (compl(fr) + g)));
        crate::size::lemma_size_code_compl_decodes(np, compl(p) + (compl(fr) + g));
        let u = sc.len();
        assert(sz_dec(w) == Some((false, np, u as nat)));
        assert(w.subrange(u as int, (u + np) as int) =~= compl(p));
        crate::order::lemma_compl_compl(p);
        assert(mag.len() > 0);
        if mag[0] >= 128 {
            crate::bigint::lemma_strip_zeros_pad(mag);
        } else {
            crate::bigint::lemma_strip_zeros_id(mag);
        }
        assert(w.skip((u + np) as int) =~= compl(fr) + g);
        assert(compl(compl(fr) + g) =~= fr + compl(g)) by {
            crate::order::lemma_compl_compl(fr);
        }
        crate::fraction::lemma_frac_round_trip(fp, compl(g));
    }
}

/// The first dot lies between the scan start and the end.
pub proof fn lemma_find_dot_bounds(s: Seq<char>, i: int)
    requires
        0 <= i <= s.len(),
    ensures
        i <= find_dot(s, i) <= s.len(),
    decreases s.len() - i,
{
    if i < s.len() && s[i] != '.' {
        lemma_find_dot_bounds(s, i + 1);
    }
}

/// Scanning forward over characters other than the dot does not move
/// the first dot.
proof fn lemma_find_dot_advance(s: Seq<char>, i: int)
    requires
        0 <= i <= s.len(),
        forall|k: int| 0 <= k < i ==> s[k] != '.',
    ensures
        find_dot(s, 0) == find_dot(s, i),
    decreases i,
{
    if i > 0 {
        lemma_find_dot_advance(s, i - 1);
        assert(find_dot(s, i - 1) == find_dot(s, i));
    }
}

/// The magnitude of a digit string's value has no more bytes than the
/// string has digits.
pub proof fn lemma_mag_of_digits_len(ip: Seq<char>)
    requires
        forall|k: int| 0 <= k < ip.len() ==> is_digit(ip[k]),
    ensures
        mag_of(digits_val(ip) as nat).len() <= ip.len(),
{
    crate::decimal::lemma_digits_val_nonneg(ip);
    let n = digits_val(ip) as nat;
    lemma_mag_of_val(n);
    lemma_digits_val_upper(ip);
    if mag_of(n).len() > ip.len() {
        crate::bigint::lemma_mag_val_lower(mag_of(n));
        crate::bigint::lemma_pow256_monotone(ip.len(), (mag_of(n).len() - 1) as nat);
    }
}

/// The order of decimal strings as their values compare, with two
/// refinements that the wire format makes visible: a negative zero
/// sorts below every non-negative value, and at equal integer parts
/// fractions compare digit by digit with trailing zeros significant.
pub open spec fn decimal_lt(s1: Seq<char>, s2: Seq<char>) -> bool {
    let neg1 = dec_negative(s1);
    let neg2 = dec_negative(s2);
    let n1 = digits_val(dec_int_part(s1));
    let n2 = digits_val(dec_int_part(s2));
    let f1 = dec_frac_part(s1);
    let f2 = dec_frac_part(s2);
    if neg1 != neg2 {
        neg1
    } else if !neg1 {
        n1 < n2 || (n1 == n2 && crate::fraction::frac_lt(f1, f2))
    } else {
        n2 < n1 || (n1 == n2 && crate::fraction::frac_lt(f2, f1))
    }
}

/// Decimal bodies sort in decimal order: of two decimal strings in
/// `decimal_lt` order, the smaller one's body sorts strictly before the
/// larger one's, and is no prefix of it.  The integer parts must stay
/// under 8189 digits, where the bigint length prefix is itself
/// order-preserving.
#[verifier::rlimit(60)]
pub proof fn lemma_bignum_order(s1: Seq<char>, s2: Seq<char>)
    requires
        is_decimal_string(s1),
        is_decimal_string(s2),
        decimal_lt(s1, s2),
        dec_int_part(s1).len() <= 8188,
        dec_int_part(s2).len() <= 8188,
    ensures
        crate::order::lex_lt(bignum_body(s1), bignum_body(s2)),
        !bignum_body(s1).is_prefix_of(bignum_body(s2)),
{
    let neg1 = dec_negative(s1);
    let neg2 = dec_negative(s2);
    let n1 = digits_val(dec_int_part(s1)) as nat;
    let n2 = digits_val(dec_int_part(s2)) as nat;
    let mag1 = mag_of(n1);
    let mag2 = mag_of(n2);
    let f1 = dec_frac_part(s1);
    let f2 = dec_frac_part(s2);
    let fr1 = frac_enc(f1);
    let fr2 = frac_enc(f2);
    let b1 = bignum_body(s1);
    let b2 = bignum_body(s2);
    crate::decimal::lemma_digits_val_nonneg(dec_int_part(s1));
    crate::decimal::lemma_digits_val_nonneg(dec_int_part(s2));
    lemma_mag_of_val(n1);
    lemma_mag_of_val(n2);
    lemma_mag_of_digits_len(dec_int_part(s1));
    lemma_mag_of_digits_len(dec_int_part(s2));
    let p1 = crate::bigint::bigint_payload(mag1);
    let p2 = crate::bigint::bigint_payload(mag2);
    let sc1 = crate::size::size_spec(p1.len());
    let sc2 = crate::size::size_spec(p2.len());
    crate::size::lemma_size_spec_first(p1.len());
    crate::size::lemma_size_spec_first(p2.len());
    let e1 = sc1 + p1;
    let e2 = sc2 + p2;
    if neg1 && !neg2 {
        // Any negative body byte starts at or below 127; a non-negative
        // one at or above 129.
        if n1 == 0 {
            assert(b1[0] == NEGATIVE_ZERO);
        } else {
            assert(b1 =~= compl(e1) + compl(fr1)) by {
                assert(compl(e1 + fr1) =~= compl(e1) + compl(fr1));
            }
            assert(b1[0] == (255 - e1[0]) as u8);
            assert(e1[0] == sc1[0]);
            assert(p1.len() >= 1);
            assert(b1[0] <= 126);
        }
        assert(b2[0] == e2[0]);
        assert(p2.len() >= 1);
        assert(b2[0] >= 129);
        crate::order::lemma_lt_from_diff(b1, b2, 0);
        crate::order::lemma_diff_not_prefix(b1, b2, 0);
    } else if !neg1 && !neg2 {
        if n1 < n2 {
            crate::bigint::lemma_pos_body_order(mag1, mag2);
            crate::order::lemma_lt_append(e1, e2, fr1, fr2);
            assert(b1 =~= e1 + fr1);
            assert(b2 =~= e2 + fr2);
        } else {
            assert(n1 == n2);
            assert(crate::fraction::frac_lt(f1, f2));
            crate::fraction::lemma_frac_order(f1, f2);
            crate::order::lemma_lt_prepend(e1, fr1, fr2);
            assert(b1 =~= e1 + fr1);
            assert(b2 =~= e1 + fr2);
        }
    } else {
        assert(neg1 && neg2);
        if n1 == 0 {
            // A negative zero is below nothing negative but another
            // negative zero with a larger fraction.
            assert(n2 == 0);
            assert(crate::fraction::frac_lt(f2, f1));
            crate::fraction::lemma_frac_order(f2, f1);
            crate::order::lemma_lt_compl(fr2, fr1);
            crate::order::lemma_lt_prepend(seq![NEGATIVE_ZERO], compl(fr1), compl(fr2));
            assert(b1 =~= seq![NEGATIVE_ZERO] + compl(fr1));
            assert(b2 =~= seq![NEGATIVE_ZERO] + compl(fr2));
        } else if n2 == 0 {
            // The other value keeps a nonzero magnitude, so it lies
            // further from zero and its complemented body starts lower.
            assert(b1 =~= compl(e1) + compl(fr1)) by {
                assert(compl(e1 + fr1) =~= compl(e1) + compl(fr1));
            }
            assert(b1[0] == (255 - e1[0]) as u8);
            assert(e1[0] == sc1[0]);
            assert(p1.len() >= 1);
            assert(b1[0] <= 126);
            assert(b2[0] == NEGATIVE_ZERO);
            crate::order::lemma_lt_from_diff(b1, b2, 0);
            crate::order::lemma_diff_not_prefix(b1, b2, 0);
        } else if n2 < n1 {
            crate::bigint::lemma_pos_body_order(mag2, mag1);
            crate::order::lemma_lt_append(e2, e1, fr2, fr1);
            crate::order::lemma_lt_compl(e2 + fr2, e1 + fr1);
            assert(b1 =~= compl(e1 + fr1)) by {
                assert(compl(e1) + compl(fr1) =~= compl(e1 + fr1));
            }
            assert(b2 =~= compl(e2 + fr2)) by {
                assert(compl(e2) + compl(fr2) =~= compl(e2 + fr2));
            }
        } else {
            assert(n1 == n2);
            assert(crate::fraction::frac_lt(f2, f1));
            crate::fraction::lemma_frac_order(f2, f1);
            crate::order::lemma_lt_compl(fr2, fr1);
            crate::order::lemma_lt_prepend(compl(e1), compl(fr1), compl(fr2));
            assert(b1 =~= compl(e1) + compl(fr1)) by {
                assert(compl(e1 + fr1) =~= compl(e1) + compl(fr1));
            }
            assert(b2 =~= compl(e1) + compl(fr2)) by {
                assert(compl(e2 + fr2) =~= compl(e2) + compl(fr2));
            }
        }
    }
}

/// Encodes a decimal string under an aspect whose storage type is
/// `BigNum`: the aspect tag, then the decimal body.  Any other aspect
/// is rejected as `UnexpectedAspect`.
pub fn bignum_to_storage(bignum: String, a: Aspect) -> (r: Result<Vec<u8>, LexDataError>)
    requires
        aspect_storage_opt(a) == Some(StorageType::BigNum) ==> is_decimal_string(bignum@),
        bignum@.len() < 0xffff_fff0,
    ensures
        match r {
            Ok(v) => aspect_storage_opt(a) == Some(StorageType::BigNum) && v@ == seq![
                aspect_byte_spec(a),
            ] + bignum_body(bignum@),
            Err(e) => aspect_storage_opt(a) != Some(StorageType::BigNum)
                && e is UnexpectedAspect,
        },
{
    match aspect_storage_total(a) {
        Some(StorageType::BigNum) => {},
        _ => {
            return Err(
                LexDataError::UnexpectedAspect(
                    String::from_str("the aspect does not have decimal storage"),
                ),
            );
        },
    }
    let s = bignum.as_str();
    let len = s.unicode_len();
    let ghost core = dec_core(bignum@);
    let neg = if len > 0 {
        let c0 = s.get_char(0);
        c0 == '-'
    } else {
        false
    };
    let start: usize = if neg {
        1
    } else {
        0
    };
    proof {
        assert(core =~= bignum@.skip(start as int));
        assert(dec_int_part(bignum@).len() > 0);
        assert(core.len() > 0);
    }
    // Find the dot that splits integer and fraction digits.
    let mut dot: usize = start;
    while dot < len
        invariant
            start <= dot <= len,
            len == bignum@.len(),
            s@ == bignum@,
            core =~= bignum@.skip(start as int),
            start <= 1,
            forall|k: int| 0 <= k < dot - start ==> core[k] != '.',
        ensures
            start <= dot <= len,
            len == bignum@.len(),
            forall|k: int| 0 <= k < dot - start ==> core[k] != '.',
            dot < len ==> core[dot - start] == '.',
        decreases len - dot,
    {
        let c = s.get_char(dot);
        proof {
            assert(core[dot - start] == bignum@[dot as int]);
        }
        if c == '.' {
            break;
        }
        dot = dot + 1;
    }
    proof {
        lemma_find_dot_advance(core, dot - start);
        if dot < len {
            assert(find_dot(core, dot - start) == dot - start);
        } else {
            assert(find_dot(core, dot - start) == core.len());
        }
        assert(find_dot(core, 0) == dot - start);
        assert(dec_int_part(bignum@) =~= bignum@.subrange(start as int, dot as int));
    }
    // The integer part, as a canonical magnitude.
    proof {
        assert forall|k: int| start <= k < dot implies is_digit(s@[k]) by {
            assert(is_digit(dec_int_part(bignum@)[k - start]));
        }
    }
    let mag = parse_digits(s, start, dot);
    let ghost n = digits_val(dec_int_part(bignum@)) as nat;
    proof {
        crate::decimal::lemma_digits_val_nonneg(dec_int_part(bignum@));
        assert(mag_val(mag@) == n);
        lemma_mag_of_unique(mag@);
        lemma_digits_val_upper(dec_int_part(bignum@));
        // The magnitude has no more bytes than the integer part digits.
        if mag@.len() > dec_int_part(bignum@).len() {
            crate::bigint::lemma_mag_val_lower(mag@);
            crate::bigint::lemma_pow256_monotone(
                dec_int_part(bignum@).len(),
                (mag@.len() - 1) as nat,
            );
        }
        assert(mag@.len() + 1 <= u32::MAX);
    }
    let mut out: Vec<u8> = Vec::new();
    out.push(aspect_byte(a));
    if neg && mag.len() == 0 {
        out.push(NEGATIVE_ZERO);
    } else {
        let mut body = bigint_body_bytes(neg, &mag);
        out.append(&mut body);
    }
    // The fraction digits, complemented for a negative value.
    let mut fr: Vec<u8> = if dot < len {
        let fpart = s.substring_char(dot + 1, len);
        proof {
            assert(fpart@ =~= dec_frac_part(bignum@));
            assert forall|k: int| 0 <= k < fpart@.len() implies is_digit(fpart@[k]) by {
                assert(is_digit(dec_frac_part(bignum@)[k]));
            }
        }
        encode_fraction(Some(fpart))
    } else {
        proof {
            assert(dec_frac_part(bignum@) =~= Seq::<char>::empty());
        }
        encode_fraction(None)
    };
    if neg {
        negate(&mut fr);
    }
    out.append(&mut fr);
    proof {
        assert(out@ =~= seq![aspect_byte_spec(a)] + bignum_body(bignum@));
    }
    Ok(out)
}

/// The decimal text decoded from a decimal body: the sign, the integer
/// digits, and the fraction digits when there are any.  `None` when the
/// size code is malformed or the integer payload is truncated.
pub open spec fn dec_bignum(s: Seq<u8>) -> Option<Seq<char>> {
    match sz_dec(s) {
        None => None,
        Some((sign, n, u)) => {
            if u + n > s.len() {
                None
            } else {
                let raw = s.subrange(u as int, (u + n) as int);
                let mag = strip_zeros(
                    if sign {
                        raw
                    } else {
                        compl(raw)
                    },
                );
                let fbytes = s.skip((u + n) as int);
                let fchars = frac_dec(
                    if sign {
                        fbytes
                    } else {
                        compl(fbytes)
                    },
                );
                let digits = dec_digits(mag_val(mag));
                if fchars.len() == 0 {
                    if !sign && mag.len() > 0 {
                        Some(seq!['-'] + digits)
                    } else {
                        Some(digits)
                    }
                } else {
                    if !sign {
                        Some(seq!['-'] + digits + seq!['.'] + fchars)
                    } else {
                        Some(digits + seq!['.'] + fchars)
                    }
                }
            }
        },
    }
}

/// Decodes a decimal body from the front of `bytes` into its decimal
/// text, reading the size code, the integer payload, and the fraction
/// bytes up to their terminal byte.
pub fn storage_to_bignum(bytes: &[u8]) -> (r: Result<Value, LexDataError>)
    ensures
        match r {
            Ok(v) => (match dec_bignum(bytes@) {
                Some(t) => v matches Value::String(x) && x@ == t,
                None => false,
            }) && (match sz_dec(bytes@) {
                Some((sign, n, u)) => n <= u32::MAX,
                None => false,
            }),
            Err(e) => (dec_bignum(bytes@) is None || (sz_dec(bytes@) matches Some((sign, n, u))
                && n > u32::MAX)) && e is BadSizeEncoding,
        },
{
    let (is_pos, size, idx) = match size_decode(bytes) {
        Ok(t) => t,
        Err(e) => {
            return Err(
                LexDataError::BadSizeEncoding(
                    String::from_str("bad size code in decimal storage"),
                ),
            );
        },
    };
    proof {
        crate::size::lemma_sz_dec_used(bytes@);
    }
    if (size as usize) > bytes.len() - idx {
        return Err(
            LexDataError::BadSizeEncoding(String::from_str("decimal payload is truncated")),
        );
    }
    let mag = read_mag(bytes, is_pos, idx, size as usize);
    let start: usize = idx + size as usize;
    let blen = bytes.len();
    let fslice = &bytes[start..blen];
    proof {
        assert(fslice@ =~= bytes@.skip(start as int));
    }
    let frac: String = if is_pos {
        decode_fraction(fslice)
    } else {
        let mut fv = vstd::slice::slice_to_vec(fslice);
        negate(&mut fv);
        decode_fraction(fv.as_slice())
    };
    let digits = digits_string(&mag);
    let negative = !is_pos && mag.len() > 0;
    let mut out = String::new();
    if frac.as_str().is_empty() {
        if negative {
            out.append("-");
            proof {
                reveal_strlit("-");
            }
        }
        out.append(digits.as_str());
        proof {
            if negative {
                assert(out@ =~= seq!['-'] + digits@);
            } else {
                assert(out@ =~= digits@);
            }
        }
    } else {
        if !is_pos {
            out.append("-");
            proof {
                reveal_strlit("-");
            }
        }
        out.append(digits.as_str());
        out.append(".");
        out.append(frac.as_str());
        proof {
            reveal_strlit(".");
            if !is_pos {
                assert(out@ =~= seq!['-'] + digits@ + seq!['.'] + frac@);
            } else {
                assert(out@ =~= digits@ + seq!['.'] + frac@);
            }
        }
    }
    Ok(Value::String(out))
}

} // verus!
