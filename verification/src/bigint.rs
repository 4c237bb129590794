//! The bigint codec: arbitrary-precision signed integers encoded so that
//! the unsigned byte order of the encodings matches numeric order, with a
//! self-delimiting length and no leading-zero ambiguity.
//!
//! Wire layout after the aspect tag, most significant first: the size
//! code of the payload byte count, then the payload, a big-endian
//! absolute value.  The payload gets one leading zero byte of headroom
//! when the magnitude's top bit is set (and when the value is zero), so
//! the magnitude boundary stays unambiguous.  For negative values the
//! size code and the payload are complemented as one run.

use vstd::prelude::*;
use vstd::string::StringExecFns;

use crate::order::{compl, lemma_compl_compl, negate_from};
use crate::size::{lemma_size_code_compl_decodes, lemma_size_code_decodes, size_encode,
    size_decode, size_spec, sz_dec};
use crate::{aspect_byte, aspect_byte_spec, aspect_storage_opt, aspect_storage_total, Aspect,
    LexDataError, StorageType, Value};

verus! {

/// An arbitrary-precision signed integer: a sign and a big-endian
/// magnitude with no leading zero byte.  Zero is the empty magnitude
/// with the positive sign.
#[derive(Debug, Clone, PartialEq, Eq)]
pub struct LexInt {
    pub negative: bool,
    pub magnitude: Vec<u8>,
}

impl LexInt {
    /// The magnitude is canonical and zero is never negative.
    pub open spec fn wf(&self) -> bool {
        &&& self.magnitude@.len() > 0 ==> self.magnitude@[0] != 0
        &&& self.negative ==> self.magnitude@.len() > 0
    }
}

/// The value of a big-endian magnitude.
pub open spec fn mag_val(s: Seq<u8>) -> nat
    decreases s.len(),
{
    if s.len() == 0 {
        0
    } else {
        (mag_val(s.drop_last()) * 256 + s.last()) as nat
    }
}

/// The value of a sign and a big-endian magnitude.
pub open spec fn int_val(negative: bool, mag: Seq<u8>) -> int {
    if negative {
        -(mag_val(mag) as int)
    } else {
        mag_val(mag) as int
    }
}

/// The payload of a magnitude: the magnitude itself, with one zero byte
/// of headroom in front when its top bit is set, and a single zero byte
/// for the empty (zero) magnitude.
pub open spec fn bigint_payload(mag: Seq<u8>) -> Seq<u8> {
    if mag.len() == 0 {
        seq![0u8]
    } else if mag[0] >= 128 {
        seq![0u8] + mag
    } else {
        mag
    }
}

/// The encoding of a bigint after the aspect tag: size code of the
/// payload length, then the payload, the whole complemented for a
/// negative value.
pub open spec fn bigint_body(negative: bool, mag: Seq<u8>) -> Seq<u8> {
    let e = size_spec(bigint_payload(mag).len()) + bigint_payload(mag);
    if negative {
        compl(e)
    } else {
        e
    }
}

/// A sequence with its leading zero bytes removed.
pub open spec fn strip_zeros(s: Seq<u8>) -> Seq<u8>
    decreases s.len(),
{
    if s.len() == 0 {
        s
    } else if s[0] == 0 {
        strip_zeros(s.skip(1))
    } else {
        s
    }
}

/// Decoding of a bigint body from the front of a sequence: the sign,
/// the canonical magnitude, and the bytes consumed.  `None` when the
/// size code is malformed or the payload is truncated.
pub open spec fn dec_bigint(s: Seq<u8>) -> Option<(bool, Seq<u8>, nat)> {
    match sz_dec(s) {
        None => None,
        Some((sign, n, u)) => {
            if u + n > s.len() {
                None
            } else {
                let raw = s.subrange(u as int, (u + n) as int);
                let m = if sign {
                    raw
                } else {
                    compl(raw)
                };
                let mag = strip_zeros(m);
                Some((!sign && mag.len() > 0, mag, (u + n) as nat))
            }
        },
    }
}

/// Stripping stops at the first nonzero byte.
pub proof fn lemma_strip_zeros_canonical(s: Seq<u8>)
    ensures
        strip_zeros(s).len() > 0 ==> strip_zeros(s)[0] != 0,
        strip_zeros(s).len() <= s.len(),
    decreases s.len(),
{
    if s.len() > 0 && s[0] == 0 {
        lemma_strip_zeros_canonical(s.skip(1));
    }
}

/// A canonical magnitude is already stripped.
pub proof fn lemma_strip_zeros_id(s: Seq<u8>)
    requires
        s.len() > 0 ==> s[0] != 0,
    ensures
        strip_zeros(s) == s,
{
}

/// Stripping looks through one leading zero byte.
pub proof fn lemma_strip_zeros_pad(mag: Seq<u8>)
    requires
        mag.len() > 0 ==> mag[0] != 0,
    ensures
        strip_zeros(seq![0u8] + mag) == mag,
{
    assert((seq![0u8] + mag).skip(1) =~= mag);
    lemma_strip_zeros_id(mag);
}

/// Appending one byte to a sequence strips to its stripped form with the
/// byte appended, except that a zero byte after nothing strips away too.
pub proof fn lemma_strip_zeros_push(s: Seq<u8>, b: u8)
    ensures
        strip_zeros(s.push(b)) == if strip_zeros(s).len() == 0 && b == 0 {
            Seq::<u8>::empty()
        } else {
            strip_zeros(s).push(b)
        },
    decreases s.len(),
{
    if s.len() == 0 {
        assert(s.push(b)[0] == b);
        if b == 0 {
            assert(s.push(b).skip(1) =~= Seq::<u8>::empty());
            assert(strip_zeros(s.push(b)) == strip_zeros(s.push(b).skip(1)));
            assert(strip_zeros(s.push(b)) == Seq::<u8>::empty());
            assert(strip_zeros(s).len() == 0);
        } else {
            assert(strip_zeros(s.push(b)) == s.push(b));
            assert(strip_zeros(s).push(b) =~= s.push(b));
        }
    } else if s[0] == 0 {
        assert(s.push(b)[0] == 0);
        assert(s.push(b).skip(1) =~= s.skip(1).push(b));
        lemma_strip_zeros_push(s.skip(1), b);
        assert(strip_zeros(s.push(b)) == strip_zeros(s.skip(1).push(b)));
        assert(strip_zeros(s) == strip_zeros(s.skip(1)));
    } else {
        assert(s.push(b)[0] == s[0]);
        assert(strip_zeros(s.push(b)) == s.push(b));
        assert(strip_zeros(s).push(b) =~= s.push(b));
        assert(strip_zeros(s).len() > 0);
    }
}

/// Powers of 256.
pub open spec fn pow256(k: nat) -> nat
    decreases k,
{
    if k == 0 {
        1
    } else {
        256 * pow256((k - 1) as nat)
    }
}

/// Powers of 256 are positive and monotone in the exponent.
pub proof fn lemma_pow256_monotone(i: nat, j: nat)
    requires
        i <= j,
    ensures
        1 <= pow256(i) <= pow256(j),
    decreases j,
{
    if j > 0 {
        if i == j {
            lemma_pow256_monotone((i - 1) as nat, (j - 1) as nat);
        } else {
            lemma_pow256_monotone(i, (j - 1) as nat);
        }
    }
}

/// A magnitude's value is below 256 to its length.
pub proof fn lemma_mag_val_upper(s: Seq<u8>)
    ensures
        mag_val(s) < pow256(s.len()),
    decreases s.len(),
{
    if s.len() > 0 {
        lemma_mag_val_upper(s.drop_last());
        let p = pow256((s.len() - 1) as nat);
        assert(mag_val(s.drop_last()) * 256 <= (p - 1) * 256) by (nonlinear_arith)
            requires
                mag_val(s.drop_last()) <= p - 1,
        ;
    }
}

/// A magnitude's value decomposes at its first byte.
pub proof fn lemma_mag_val_first(s: Seq<u8>)
    requires
        s.len() > 0,
    ensures
        mag_val(s) == s[0] * pow256((s.len() - 1) as nat) + mag_val(s.skip(1)),
    decreases s.len(),
{
    if s.len() == 1 {
        assert(s.drop_last().len() == 0);
        assert(s.skip(1).len() == 0);
        assert(s.last() == s[0]);
        assert(mag_val(s.drop_last()) == 0);
        assert(mag_val(s.skip(1)) == 0);
        assert(pow256(0) == 1);
        assert(s[0] * 1 == s[0]) by (nonlinear_arith);
        assert(mag_val(s) == s[0] * pow256((s.len() - 1) as nat) + mag_val(s.skip(1)));
    } else {
        let dl = s.drop_last();
        lemma_mag_val_first(dl);
        assert(dl[0] == s[0]);
        let p = pow256((s.len() - 2) as nat);
        assert(s.skip(1).drop_last() =~= dl.skip(1));
        assert(s.skip(1).last() == s.last());
        assert(mag_val(s.skip(1)) == mag_val(dl.skip(1)) * 256 + s.last());
        assert(mag_val(s) == (s[0] * p + mag_val(dl.skip(1))) * 256 + s.last());
        assert((s[0] * p + mag_val(dl.skip(1))) * 256 == s[0] * (256 * p) + mag_val(dl.skip(1))
            * 256) by (nonlinear_arith);
        assert(pow256((s.len() - 1) as nat) == 256 * p);
        assert(mag_val(s) == s[0] * pow256((s.len() - 1) as nat) + mag_val(s.skip(1)));
    }
}

/// A nonzero leading byte puts the value at or above 256 to the length
/// less one.
pub proof fn lemma_mag_val_lower(s: Seq<u8>)
    requires
        s.len() > 0,
        s[0] != 0,
    ensures
        mag_val(s) >= pow256((s.len() - 1) as nat),
{
    lemma_mag_val_first(s);
    let p = pow256((s.len() - 1) as nat);
    assert(s[0] * p >= 1 * p) by (nonlinear_arith)
        requires
            s[0] >= 1,
            p >= 0,
    ;
}

/// A leading zero byte does not change a magnitude's value.
pub proof fn lemma_mag_val_pad(m: Seq<u8>)
    ensures
        mag_val(seq![0u8] + m) == mag_val(m),
{
    let s = seq![0u8] + m;
    lemma_mag_val_first(s);
    assert(s[0] == 0);
    assert(s.len() == m.len() + 1);
    assert(s.skip(1) =~= m);
    assert(0 * pow256(m.len()) == 0) by (nonlinear_arith);
}

/// Among magnitudes of one length, lexicographic order is value order.
pub proof fn lemma_mag_val_lex(a: Seq<u8>, b: Seq<u8>)
    requires
        a.len() == b.len(),
        crate::order::lex_lt(a, b),
    ensures
        mag_val(a) < mag_val(b),
    decreases a.len(),
{
    lemma_mag_val_first(a);
    lemma_mag_val_first(b);
    let p = pow256((a.len() - 1) as nat);
    if a[0] < b[0] {
        lemma_mag_val_upper(a.skip(1));
        assert(a[0] * p + p <= b[0] * p) by (nonlinear_arith)
            requires
                a[0] < b[0],
                p >= 0,
        ;
    } else {
        lemma_mag_val_lex(a.skip(1), b.skip(1));
    }
}

/// Distinct byte sequences of one length compare one way or the other.
pub proof fn lemma_lex_total(a: Seq<u8>, b: Seq<u8>)
    requires
        a.len() == b.len(),
        a != b,
    ensures
        crate::order::lex_lt(a, b) || crate::order::lex_lt(b, a),
    decreases a.len(),
{
    if a.len() == 0 {
        assert(a =~= b);
    } else if a[0] == b[0] {
        if a.skip(1) == b.skip(1) {
            assert forall|k: int| 0 <= k < a.len() implies a[k] == b[k] by {
                if k > 0 {
                    assert(a.skip(1)[k - 1] == b.skip(1)[k - 1]);
                }
            }
            assert(a =~= b);
        }
        lemma_lex_total(a.skip(1), b.skip(1));
    }
}

/// Value order of canonical magnitudes shows in their shape: the smaller
/// is shorter, or of the same length and lexicographically below.
pub proof fn lemma_mag_shape(a: Seq<u8>, b: Seq<u8>)
    requires
        a.len() > 0 ==> a[0] != 0,
        b.len() > 0 ==> b[0] != 0,
        mag_val(a) < mag_val(b),
    ensures
        a.len() < b.len() || (a.len() == b.len() && crate::order::lex_lt(a, b)),
{
    if b.len() == 0 {
        assert(mag_val(b) == 0);
    } else if a.len() == 0 {
    } else if a.len() > b.len() {
        lemma_mag_val_lower(a);
        lemma_mag_val_upper(b);
        lemma_pow256_monotone(b.len(), (a.len() - 1) as nat);
    } else if a.len() == b.len() {
        if a == b {
        } else {
            lemma_lex_total(a, b);
            if crate::order::lex_lt(b, a) {
                lemma_mag_val_lex(b, a);
            }
        }
    }
}

/// Nothing sorts below itself.
pub proof fn lemma_lex_irrefl(a: Seq<u8>)
    ensures
        !crate::order::lex_lt(a, a),
    decreases a.len(),
{
    if a.len() > 0 {
        lemma_lex_irrefl(a.skip(1));
    }
}

/// The encoding of a well-formed bigint decodes back to it from the
/// front of any longer buffer, consuming exactly its own length.
pub proof fn lemma_bigint_round_trip(negative: bool, mag: Seq<u8>, g: Seq<u8>)
    requires
        mag.len() > 0 ==> mag[0] != 0,
        negative ==> mag.len() > 0,
    ensures
        dec_bigint(bigint_body(negative, mag) + g) == Some(
            (negative, mag, bigint_body(negative, mag).len() as nat),
        ),
{
    let p = bigint_payload(mag);
    let n = p.len();
    let e = size_spec(n) + p;
    if negative {
        assert(compl(e) + g =~= compl(size_spec(n)) + (compl(p) + g)) by {
            assert(compl(e) =~= compl(size_spec(n)) + compl(p));
        }
        lemma_size_code_compl_decodes(n, compl(p) + g);
        let s = bigint_body(negative, mag) + g;
        let u = size_spec(n).len();
        assert(sz_dec(s) == Some((false, n, u as nat)));
        assert(s.subrange(u as int, (u + n) as int) =~= compl(p));
        lemma_compl_compl(p);
        // The payload of a nonzero magnitude strips back to the magnitude.
        if mag[0] >= 128 {
            lemma_strip_zeros_pad(mag);
        } else {
            lemma_strip_zeros_id(mag);
        }
    } else {
        assert(e + g =~= size_spec(n) + (p + g));
        lemma_size_code_decodes(n, p + g);
        let s = bigint_body(negative, mag) + g;
        let u = size_spec(n).len();
        assert(n > 0);
        assert(sz_dec(s) == Some((true, n, u as nat)));
        assert(s.subrange(u as int, (u + n) as int) =~= p);
        if mag.len() == 0 {
            assert(p =~= seq![0u8]);
            assert(p[0] == 0);
            assert(p.skip(1) =~= Seq::<u8>::empty());
            assert(strip_zeros(p) == strip_zeros(p.skip(1)));
            assert(strip_zeros(p) =~= mag);
        } else if mag[0] >= 128 {
            lemma_strip_zeros_pad(mag);
        } else {
            lemma_strip_zeros_id(mag);
        }
    }
}

/// The positive (uncomplemented) encoding of the smaller of two
/// magnitudes sorts strictly before that of the larger, and is no prefix
/// of it.  The magnitudes must stay below 8189 bytes, where the size
/// code itself is order-preserving.
pub proof fn lemma_pos_body_order(ma: Seq<u8>, mb: Seq<u8>)
    requires
        ma.len() > 0 ==> ma[0] != 0,
        mb.len() > 0 ==> mb[0] != 0,
        mag_val(ma) < mag_val(mb),
        ma.len() < 8190,
        mb.len() < 8190,
    ensures
        crate::order::lex_lt(
            size_spec(bigint_payload(ma).len()) + bigint_payload(ma),
            size_spec(bigint_payload(mb).len()) + bigint_payload(mb),
        ),
        !(size_spec(bigint_payload(ma).len()) + bigint_payload(ma)).is_prefix_of(
            size_spec(bigint_payload(mb).len()) + bigint_payload(mb),
        ),
{
    let pa = bigint_payload(ma);
    let pb = bigint_payload(mb);
    lemma_mag_shape(ma, mb);
    // The padding byte does not change a payload's value.
    assert(mag_val(pa) == mag_val(ma)) by {
        if ma.len() == 0 {
            assert(pa =~= seq![0u8] + Seq::<u8>::empty());
            lemma_mag_val_pad(Seq::<u8>::empty());
        } else if ma[0] >= 128 {
            lemma_mag_val_pad(ma);
        }
    }
    assert(mag_val(pb) == mag_val(mb)) by {
        if mb.len() == 0 {
            assert(mb.len() > 0);
        } else if mb[0] >= 128 {
            lemma_mag_val_pad(mb);
        }
    }
    if pa.len() < pb.len() {
        crate::size::lemma_size_code_order(pa.len(), pb.len());
        crate::order::lemma_lt_append(size_spec(pa.len()), size_spec(pb.len()), pa, pb);
        let i = crate::order::lemma_lt_gives_diff(size_spec(pa.len()), size_spec(pb.len()));
        assert((size_spec(pa.len()) + pa)[i] != (size_spec(pb.len()) + pb)[i]);
        crate::order::lemma_diff_not_prefix(
            size_spec(pa.len()) + pa,
            size_spec(pb.len()) + pb,
            i,
        );
    } else {
        // The smaller value's payload is never longer.
        assert(pa.len() == pb.len()) by {
            if pa.len() > pb.len() {
                if ma.len() < mb.len() {
                    assert(pa.len() <= ma.len() + 1);
                    assert(pb.len() >= mb.len());
                } else {
                    // Equal magnitude lengths with opposite padding: the
                    // padded one starts at or above 128, so it is the larger.
                    assert(ma.len() == mb.len() && ma.len() > 0);
                    assert(ma[0] >= 128 && mb[0] < 128);
                    crate::order::lemma_lt_from_diff(mb, ma, 0);
                    lemma_mag_val_lex(mb, ma);
                }
            }
        }
        assert(mag_val(pa) < mag_val(pb));
        assert(pa != pb);
        lemma_lex_total(pa, pb);
        if crate::order::lex_lt(pb, pa) {
            lemma_mag_val_lex(pb, pa);
        }
        assert(crate::order::lex_lt(pa, pb));
        assert(!pa.is_prefix_of(pb)) by {
            if pa.is_prefix_of(pb) {
                assert(pb.subrange(0, pa.len() as int) =~= pb);
                lemma_lex_irrefl(pa);
            }
        }
        crate::order::lemma_lt_prepend(size_spec(pa.len()), pa, pb);
    }
}

/// Bigint bodies sort in numeric order: of two well-formed values, the
/// smaller one's body sorts strictly before the larger one's, and is no
/// prefix of it.  The magnitudes must stay below 8189 bytes; at that
/// size the length prefix itself stops being order-preserving.
pub proof fn lemma_bigint_order(na: bool, ma: Seq<u8>, nb: bool, mb: Seq<u8>)
    requires
        ma.len() > 0 ==> ma[0] != 0,
        na ==> ma.len() > 0,
        mb.len() > 0 ==> mb[0] != 0,
        nb ==> mb.len() > 0,
        int_val(na, ma) < int_val(nb, mb),
        ma.len() < 8190,
        mb.len() < 8190,
    ensures
        crate::order::lex_lt(bigint_body(na, ma), bigint_body(nb, mb)),
        !bigint_body(na, ma).is_prefix_of(bigint_body(nb, mb)),
{
    let ba = bigint_body(na, ma);
    let bb = bigint_body(nb, mb);
    if na && !nb {
        // Negative against non-negative: the first body byte of a
        // negative value is a complemented size code byte, at most 126;
        // that of a non-negative value is at least 129.
        let pa = bigint_payload(ma);
        let pb = bigint_payload(mb);
        crate::size::lemma_size_spec_first(pa.len());
        crate::size::lemma_size_spec_first(pb.len());
        assert(ba[0] == (255 - (size_spec(pa.len()) + pa)[0]) as u8);
        assert((size_spec(pa.len()) + pa)[0] == size_spec(pa.len())[0]);
        assert(bb[0] == size_spec(pb.len())[0]);
        assert(ba[0] < bb[0]);
        crate::order::lemma_lt_from_diff(ba, bb, 0);
        crate::order::lemma_diff_not_prefix(ba, bb, 0);
    } else if !na && !nb {
        lemma_pos_body_order(ma, mb);
    } else if na && nb {
        assert(mag_val(mb) < mag_val(ma));
        lemma_pos_body_order(mb, ma);
        crate::order::lemma_lt_compl(
            size_spec(bigint_payload(mb).len()) + bigint_payload(mb),
            size_spec(bigint_payload(ma).len()) + bigint_payload(ma),
        );
    } else {
        // A non-negative value is never below a negative one.
        assert(false);
    }
}

/// Encodes a bigint under an aspect whose storage type is `BigInt`: the
/// aspect tag, then the complete bigint body.  Any other aspect is
/// rejected as `UnexpectedAspect`.
pub fn bigint_to_storage(bigint: LexInt, a: Aspect) -> (r: Result<Vec<u8>, LexDataError>)
    requires
        bigint.wf(),
        bigint.magnitude@.len() + 1 <= u32::MAX,
    ensures
        match r {
            Ok(v) => aspect_storage_opt(a) == Some(StorageType::BigInt) && v@ == seq![
                aspect_byte_spec(a),
            ] + bigint_body(bigint.negative, bigint.magnitude@),
            Err(e) => aspect_storage_opt(a) != Some(StorageType::BigInt)
                && e is UnexpectedAspect,
        },
{
    let st = aspect_storage_total(a);
    match st {
        Some(StorageType::BigInt) => {},
        _ => {
            return Err(
                LexDataError::UnexpectedAspect(
                    String::from_str("the aspect does not have bigint storage"),
                ),
            );
        },
    }
    let tag = aspect_byte(a);
    let mut body = bigint_body_bytes(bigint.negative, &bigint.magnitude);
    let mut out: Vec<u8> = Vec::new();
    out.push(tag);
    out.append(&mut body);
    proof {
        assert(out@ =~= seq![aspect_byte_spec(a)] + bigint_body(
            bigint.negative,
            bigint.magnitude@,
        ));
    }
    Ok(out)
}

/// The bigint body of a sign and a canonical magnitude: size code and
/// payload, complemented as one run for a negative value.
pub fn bigint_body_bytes(negative: bool, magnitude: &Vec<u8>) -> (r: Vec<u8>)
    requires
        magnitude@.len() > 0 ==> magnitude@[0] != 0,
        negative ==> magnitude@.len() > 0,
        magnitude@.len() + 1 <= u32::MAX,
    ensures
        r@ == bigint_body(negative, magnitude@),
{
    let pad = magnitude.len() == 0 || magnitude[0] >= 128;
    let num_bytes: u32 = if pad {
        magnitude.len() as u32 + 1
    } else {
        magnitude.len() as u32
    };
    let mut out = size_encode(num_bytes);
    if pad {
        out.push(0u8);
    }
    out.extend_from_slice(magnitude.as_slice());
    proof {
        assert(bigint_payload(magnitude@).len() == num_bytes);
        assert(out@ =~= size_spec(num_bytes as nat) + bigint_payload(magnitude@));
    }
    if negative {
        negate_from(&mut out, 0);
        proof {
            assert(out@ =~= bigint_body(negative, magnitude@));
        }
    }
    out
}

/// Decodes a bigint body from the front of `bytes` into a well-formed
/// `LexInt`, reading only as many bytes as the size code announces.
pub fn storage_to_bigint(bytes: &[u8]) -> (r: Result<Value, LexDataError>)
    ensures
        match r {
            Ok(v) => (match dec_bigint(bytes@) {
                Some((neg, mag, used)) => v matches Value::BigInt(i) && i.negative == neg
                    && i.magnitude@ == mag && i.wf(),
                None => false,
            }) && (match sz_dec(bytes@) {
                Some((sign, n, u)) => n <= u32::MAX,
                None => false,
            }),
            Err(e) => (dec_bigint(bytes@) is None || (sz_dec(bytes@) matches Some((sign, n, u))
                && n > u32::MAX)) && e is BadSizeEncoding,
        },
{
    let (is_pos, size, idx) = match size_decode(bytes) {
        Ok(t) => t,
        Err(e) => {
            return Err(
                LexDataError::BadSizeEncoding(
                    String::from_str("bad size code in bigint storage"),
                ),
            );
        },
    };
    proof {
        crate::size::lemma_sz_dec_used(bytes@);
    }
    if (size as usize) > bytes.len() - idx {
        return Err(
            LexDataError::BadSizeEncoding(String::from_str("bigint payload is truncated")),
        );
    }
    let mag = read_mag(bytes, is_pos, idx, size as usize);
    let negative = !is_pos && mag.len() > 0;
    Ok(Value::BigInt(LexInt { negative, magnitude: mag }))
}

/// Reads `count` payload bytes at `idx` into a canonical magnitude,
/// complementing them for a negative carrier and dropping leading
/// zeros.
pub fn read_mag(bytes: &[u8], is_pos: bool, idx: usize, count: usize) -> (mag: Vec<u8>)
    requires
        idx + count <= bytes@.len(),
    ensures
        ({
            let raw = bytes@.subrange(idx as int, idx + count);
            mag@ == strip_zeros(
                if is_pos {
                    raw
                } else {
                    compl(raw)
                },
            )
        }),
        mag@.len() > 0 ==> mag@[0] != 0,
{
    let blen = bytes.len();
    let end: usize = idx + count;
    let ghost raw = bytes@.subrange(idx as int, end as int);
    let ghost mseq = if is_pos {
        raw
    } else {
        compl(raw)
    };
    let mut mag: Vec<u8> = Vec::new();
    let mut j: usize = idx;
    while j < end
        invariant
            idx <= j <= end <= bytes@.len(),
            mseq.len() == end - idx,
            forall|k: int| 0 <= k < mseq.len() ==> mseq[k] == (if is_pos {
                bytes@[idx + k]
            } else {
                (255 - bytes@[idx + k]) as u8
            }),
            mag@ == strip_zeros(mseq.take(j - idx)),
        decreases end - j,
    {
        let b: u8 = if is_pos {
            bytes[j]
        } else {
            255 - bytes[j]
        };
        proof {
            lemma_strip_zeros_push(mseq.take(j - idx), b);
            assert(mseq.take(j + 1 - idx) =~= mseq.take(j - idx).push(b));
        }
        if !(mag.len() == 0 && b == 0) {
            mag.push(b);
        }
        proof {
            if mag@.len() == 0 {
                assert(mag@ =~= strip_zeros(mseq.take(j + 1 - idx)));
            }
        }
        j = j + 1;
    }
    proof {
        assert(mseq.take(end - idx) =~= mseq);
        assert(mseq =~= (if is_pos {
            raw
        } else {
            compl(raw)
        }));
        lemma_strip_zeros_canonical(mseq);
    }
    mag
}

} // verus!
