//! The size codec: an order-preserving variable-length encoding of a
//! non-negative magnitude, used as the length prefix of the bigint and
//! decimal codecs.
//!
//! Wire layout, most significant group first:
//! - first byte `S C v v v v v v`: `S = 1` marks a positive carrier, `C`
//!   is set iff more bytes follow, the low six bits hold the most
//!   significant payload group;
//! - following bytes `C v v v v v v v`: a continuation bit and seven
//!   payload bits; the final byte has `C = 0`.
//!
//! Zero encodes as the single byte `0b0111_1111` (`NEGATIVE_ZERO`); the
//! byte `0b1000_0000` (positive sign, no continuation, zero payload) is
//! reserved so that a negative-zero carrier stays distinct and sorts
//! before every positive magnitude.  Negative carriers are the bytewise
//! complement of a positive encoding and are read by the same decoder.

use vstd::prelude::*;

use vstd::string::StringExecFns;

use crate::order::{compl, lemma_diff_not_prefix, lemma_lt_from_diff, lex_lt};
use crate::LexDataError;

verus! {

/// The canonical encoding of zero, `0b0111_1111`.
pub const NEGATIVE_ZERO: u8 = 127;

/// The bytes of a size code above its final byte: the first byte
/// (`0b11` then the top six payload bits) and the continuation bytes of
/// the remaining groups of `n`, all with the continuation bit set.
pub open spec fn sz_upper(n: nat) -> Seq<u8>
    decreases n,
{
    if n < 64 {
        seq![(192 + n) as u8]
    } else {
        sz_upper(n / 128) + seq![(128 + n % 128) as u8]
    }
}

/// The positive size code of a magnitude.
pub open spec fn size_spec(n: nat) -> Seq<u8> {
    if n == 0 {
        seq![NEGATIVE_ZERO]
    } else if n < 64 {
        seq![(128 + n) as u8]
    } else {
        sz_upper(n / 128) + seq![(n % 128) as u8]
    }
}

/// A size code as it stands on the wire: positive carriers as they are,
/// negative carriers complemented.
pub open spec fn carrier(sign: bool, s: Seq<u8>) -> Seq<u8> {
    if sign {
        s
    } else {
        compl(s)
    }
}

/// Decoding of the bytes after the first: each byte contributes seven
/// payload bits until one with a clear continuation bit ends the code.
/// Returns the magnitude and the number of bytes read, or `None` when
/// the sequence ends mid-continuation.
pub open spec fn dec_rest(s: Seq<u8>, sign: bool, acc: nat) -> Option<(nat, nat)>
    decreases s.len(),
{
    if s.len() == 0 {
        None
    } else {
        let b = if sign {
            s[0]
        } else {
            (255 - s[0]) as u8
        };
        if b < 128 {
            Some(((acc * 128 + b) as nat, 1))
        } else {
            match dec_rest(s.skip(1), sign, (acc * 128 + (b - 128)) as nat) {
                Some((v, u)) => Some((v, (u + 1) as nat)),
                None => None,
            }
        }
    }
}

/// Decoding of a size code from the front of a sequence: the sign read
/// from the first byte's high bit, the magnitude, and the bytes read.
/// `None` when the sequence is empty or ends mid-continuation.
pub open spec fn sz_dec(s: Seq<u8>) -> Option<(bool, nat, nat)> {
    if s.len() == 0 {
        None
    } else {
        let sign = s[0] >= 128;
        let v = if sign {
            s[0]
        } else {
            (255 - s[0]) as u8
        };
        if (v / 64) % 2 == 0 {
            Some((sign, (v % 64) as nat, 1))
        } else {
            match dec_rest(s.skip(1), sign, (v % 64) as nat) {
                Some((n, u)) => Some((sign, n, (u + 1) as nat)),
                None => None,
            }
        }
    }
}

/// Every byte of `sz_upper` has its high bit set, and the first also the
/// continuation bit.
pub proof fn lemma_sz_upper_bytes(n: nat)
    ensures
        sz_upper(n).len() >= 1,
        sz_upper(n)[0] >= 192,
        forall|i: int| 0 <= i < sz_upper(n).len() ==> sz_upper(n)[i] >= 128,
    decreases n,
{
    if n >= 64 {
        lemma_sz_upper_bytes(n / 128);
    }
}

/// After the bytes of `sz_upper(n)` (complemented for a negative
/// carrier), the decoder continues over the rest with `n` accumulated.
proof fn lemma_dec_upper(n: nat, sign: bool, tail: Seq<u8>)
    ensures
        sz_dec(carrier(sign, sz_upper(n)) + tail) == match dec_rest(tail, sign, n) {
            Some((v, u)) => Some((sign, v, (u + sz_upper(n).len()) as nat)),
            None => None::<(bool, nat, nat)>,
        },
    decreases n,
{
    if n < 64 {
        let s = carrier(sign, sz_upper(n)) + tail;
        assert(s.len() >= 1);
        assert(sz_upper(n)[0] == (192 + n) as u8);
        if sign {
            assert(s[0] == (192 + n) as u8);
        } else {
            assert(s[0] == (255 - (192 + n)) as u8);
        }
        let v: u8 = if s[0] >= 128 {
            s[0]
        } else {
            (255 - s[0]) as u8
        };
        assert(v == (192 + n) as u8);
        assert((v / 64) % 2 == 1);
        assert(v % 64 == n);
        assert(s.skip(1) =~= tail);
    } else {
        let hi = carrier(sign, sz_upper(n / 128));
        let cb: u8 = (128 + n % 128) as u8;
        let cbw: u8 = if sign {
            cb
        } else {
            (255 - cb) as u8
        };
        let tail2 = seq![cbw] + tail;
        assert(carrier(sign, sz_upper(n)) + tail =~= hi + tail2);
        lemma_dec_upper(n / 128, sign, tail2);
        // One continuation byte folds the next seven bits into the account.
        assert(tail2.skip(1) =~= tail);
        let b: u8 = if sign {
            tail2[0]
        } else {
            (255 - tail2[0]) as u8
        };
        assert(b == cb);
        assert(b >= 128);
        vstd::arithmetic::div_mod::lemma_fundamental_div_mod(n as int, 128);
        assert((n / 128) * 128 + (cb - 128) == n);
        assert(dec_rest(tail2, sign, n / 128) == match dec_rest(tail, sign, n) {
            Some((v, u)) => Some((v, (u + 1) as nat)),
            None => None::<(nat, nat)>,
        });
        lemma_sz_upper_bytes(n / 128);
        assert(sz_upper(n).len() == sz_upper(n / 128).len() + 1);
    }
}

/// A positive size code decodes, from the front of any longer sequence,
/// to its own magnitude, consuming its own length.  The code of zero
/// carries the negative sign.
pub proof fn lemma_size_code_decodes(n: nat, g: Seq<u8>)
    ensures
        sz_dec(size_spec(n) + g) == Some(
            (n > 0, n, size_spec(n).len() as nat),
        ),
{
    let s = size_spec(n) + g;
    if n == 0 {
        assert(s[0] == 127);
        assert(s[0] < 128);
        let v: u8 = (255 - 127) as u8;
        assert((v / 64) % 2 == 0);
        assert(v % 64 == 0);
    } else if n < 64 {
        assert(s[0] == (128 + n) as u8);
        let v: u8 = (128 + n) as u8;
        assert((v / 64) % 2 == 0);
        assert(v % 64 == n);
    } else {
        let tail = seq![(n % 128) as u8] + g;
        assert(s =~= sz_upper(n / 128) + tail);
        assert(carrier(true, sz_upper(n / 128)) == sz_upper(n / 128));
        lemma_dec_upper(n / 128, true, tail);
        assert(tail[0] == (n % 128) as u8);
        assert(tail[0] < 128);
        vstd::arithmetic::div_mod::lemma_fundamental_div_mod(n as int, 128);
        assert(dec_rest(tail, true, n / 128) == Some((n, 1nat)));
        assert(size_spec(n).len() == sz_upper(n / 128).len() + 1);
    }
}

/// A complemented (negative-carrier) size code of a positive magnitude
/// decodes, from the front of any longer sequence, to the same magnitude
/// with the negative sign, consuming its own length.
pub proof fn lemma_size_code_compl_decodes(n: nat, g: Seq<u8>)
    requires
        n >= 1,
    ensures
        sz_dec(compl(size_spec(n)) + g) == Some((false, n, size_spec(n).len() as nat)),
{
    let s = compl(size_spec(n)) + g;
    if n < 64 {
        assert(size_spec(n)[0] == (128 + n) as u8);
        assert(s[0] == (255 - (128 + n)) as u8);
        assert(s[0] < 128);
        let v: u8 = (255 - s[0]) as u8;
        assert(v == (128 + n) as u8);
        assert((v / 64) % 2 == 0);
        assert(v % 64 == n);
    } else {
        let tail = seq![(255 - n % 128) as u8] + g;
        assert(s =~= compl(sz_upper(n / 128)) + tail) by {
            assert(compl(size_spec(n)) =~= compl(sz_upper(n / 128)) + seq![
                (255 - n % 128) as u8,
            ]);
        }
        assert(carrier(false, sz_upper(n / 128)) == compl(sz_upper(n / 128)));
        lemma_dec_upper(n / 128, false, tail);
        let b: u8 = (255 - tail[0]) as u8;
        assert(b == (n % 128) as u8);
        assert(b < 128);
        vstd::arithmetic::div_mod::lemma_fundamental_div_mod(n as int, 128);
        assert(dec_rest(tail, false, n / 128) == Some((n, 1nat)));
        assert(size_spec(n).len() == sz_upper(n / 128).len() + 1);
    }
}

/// A decoded size code consumed at least one byte and no more than the
/// buffer holds.
pub proof fn lemma_sz_dec_used(s: Seq<u8>)
    ensures
        match sz_dec(s) {
            Some((sign, n, u)) => 1 <= u <= s.len(),
            None => true,
        },
{
    if s.len() > 0 {
        let sign = s[0] >= 128;
        let v = if sign {
            s[0]
        } else {
            (255 - s[0]) as u8
        };
        if (v / 64) % 2 != 0 {
            lemma_dec_rest_min(s.skip(1), sign, (v % 64) as nat);
        }
    }
}

/// The size code of a positive magnitude, built least significant group
/// first and then reversed into wire order.
fn size_bytes_pos(n: u64) -> (r: Vec<u8>)
    requires
        n >= 1,
    ensures
        r@ == size_spec(n as nat),
{
    let mut rev: Vec<u8> = Vec::new();
    let mut rem: u64 = n;
    if rem >= 64 {
        rev.push((rem % 128) as u8);
        rem = rem / 128;
        proof {
            assert(size_spec(n as nat) =~= sz_upper(rem as nat) + rev@.reverse());
        }
        while rem >= 64
            invariant
                size_spec(n as nat) =~= sz_upper(rem as nat) + rev@.reverse(),
            decreases rem,
        {
            let b: u8 = (128 + rem % 128) as u8;
            rev.push(b);
            proof {
                assert(rev@.reverse() =~= seq![b] + rev@.drop_last().reverse());
                assert(sz_upper(rem as nat) =~= sz_upper((rem / 128) as nat) + seq![b]);
                assert(sz_upper((rem / 128) as nat) + rev@.reverse() =~= sz_upper(rem as nat)
                    + rev@.drop_last().reverse());
            }
            rem = rem / 128;
        }
        let b: u8 = (192 + rem) as u8;
        rev.push(b);
        proof {
            assert(sz_upper(rem as nat) =~= seq![b]);
            assert(rev@.reverse() =~= seq![b] + rev@.drop_last().reverse());
            assert(size_spec(n as nat) =~= rev@.reverse());
        }
    } else {
        rev.push((128 + rem) as u8);
        proof {
            assert(size_spec(n as nat) =~= rev@.reverse());
        }
    }
    let mut out: Vec<u8> = Vec::new();
    let mut j: usize = rev.len();
    while j > 0
        invariant
            j <= rev@.len(),
            out@ =~= rev@.skip(j as int).reverse(),
        decreases j,
    {
        j = j - 1;
        let b = rev[j];
        out.push(b);
        proof {
            assert(out@ =~= rev@.skip(j as int).reverse());
        }
    }
    proof {
        assert(rev@.skip(0) =~= rev@);
    }
    out
}

/// The size code of a magnitude, in wire order.  Zero encodes as the
/// single byte `NEGATIVE_ZERO`.
pub fn size_encode(size: u32) -> (r: Vec<u8>)
    ensures
        r@ == size_spec(size as nat),
{
    if size == 0 {
        let mut v: Vec<u8> = Vec::new();
        v.push(NEGATIVE_ZERO);
        proof {
            assert(v@ =~= size_spec(0));
        }
        v
    } else {
        size_bytes_pos(size as u64)
    }
}

/// The size code of a machine-word magnitude, in wire order.  Unlike
/// `size_encode` this variant encodes zero as the empty sequence.
pub fn size_enc(size: usize) -> (r: Vec<u8>)
    ensures
        size == 0 ==> r@ == Seq::<u8>::empty(),
        size >= 1 ==> r@ == size_spec(size as nat),
{
    if size == 0 {
        let v: Vec<u8> = Vec::new();
        proof {
            assert(v@ =~= Seq::<u8>::empty());
        }
        v
    } else {
        size_bytes_pos(size as u64)
    }
}

/// What the decoder returns is at least what was accumulated when it
/// started.
pub proof fn lemma_dec_rest_min(s: Seq<u8>, sign: bool, acc: nat)
    ensures
        match dec_rest(s, sign, acc) {
            Some((v, u)) => v >= acc && 1 <= u <= s.len(),
            None => true,
        },
    decreases s.len(),
{
    if s.len() > 0 {
        let b = if sign {
            s[0]
        } else {
            (255 - s[0]) as u8
        };
        if b >= 128 {
            lemma_dec_rest_min(s.skip(1), sign, (acc * 128 + (b - 128)) as nat);
            assert(acc * 128 >= acc) by (nonlinear_arith);
        }
    }
}

/// The shape of a small size code: one byte below 64, two bytes up to
/// 8191.
pub proof fn lemma_size_spec_small(n: nat)
    requires
        n < 8192,
    ensures
        n == 0 ==> size_spec(n) =~= seq![127u8],
        0 < n < 64 ==> size_spec(n) =~= seq![(128 + n) as u8],
        64 <= n ==> size_spec(n) =~= seq![(192 + n / 128) as u8, (n % 128) as u8],
{
    if n >= 64 {
        assert(n / 128 < 64);
        assert(sz_upper(n / 128) =~= seq![(192 + n / 128) as u8]);
    }
}

/// A size code is never empty; its first byte is at least 127, and at
/// least 129 for a positive magnitude.
pub proof fn lemma_size_spec_first(n: nat)
    ensures
        size_spec(n).len() >= 1,
        size_spec(n)[0] >= 127,
        n >= 1 ==> size_spec(n)[0] >= 129,
{
    if n >= 64 {
        lemma_sz_upper_bytes(n / 128);
        assert(size_spec(n)[0] == sz_upper(n / 128)[0]);
    }
}

/// Size codes of distinct magnitudes below 8192 sort in magnitude order
/// and neither is a prefix of the other.  (Across a length boundary of
/// the code — first reached at 8192, whose code is one byte longer than
/// that of 8191 — the format itself stops being order-preserving, so the
/// bound is part of the property.)
pub proof fn lemma_size_code_order(a: nat, b: nat)
    requires
        a < b,
        b < 8192,
    ensures
        lex_lt(size_spec(a), size_spec(b)),
        !size_spec(a).is_prefix_of(size_spec(b)),
{
    lemma_size_spec_small(a);
    lemma_size_spec_small(b);
    let sa = size_spec(a);
    let sb = size_spec(b);
    if b < 64 {
        // Both are single bytes: 127 or 128 + n.
        lemma_lt_from_diff(sa, sb, 0);
        lemma_diff_not_prefix(sa, sb, 0);
    } else if a < 64 {
        // One byte against two: the first byte of a two-byte code is at
        // least 192, the single byte at most 191.
        assert(sa[0] < 192);
        assert(sb[0] == (192 + b / 128) as u8);
        lemma_lt_from_diff(sa, sb, 0);
        lemma_diff_not_prefix(sa, sb, 0);
    } else {
        // Both are two bytes: compare the six top bits, then the rest.
        if a / 128 < b / 128 {
            lemma_lt_from_diff(sa, sb, 0);
            lemma_diff_not_prefix(sa, sb, 0);
        } else {
            assert(a / 128 == b / 128);
            assert(a % 128 < b % 128) by {
                vstd::arithmetic::div_mod::lemma_fundamental_div_mod(a as int, 128);
                vstd::arithmetic::div_mod::lemma_fundamental_div_mod(b as int, 128);
            }
            lemma_lt_from_diff(sa, sb, 1);
            lemma_diff_not_prefix(sa, sb, 1);
        }
    }
}

/// Decodes a size code from the front of `v`: the sign read from the
/// first byte, the magnitude, and the bytes consumed.  Fails with
/// `BadSizeEncoding` when the buffer ends mid-continuation or the
/// magnitude does not fit in 32 bits.
pub fn size_decode(v: &[u8]) -> (r: Result<(bool, u32, usize), LexDataError>)
    ensures
        match r {
            Ok((sign, n, used)) => sz_dec(v@) == Some((sign, n as nat, used as nat)),
            Err(e) => (match sz_dec(v@) {
                Some((sign, n, used)) => n > u32::MAX,
                None => true,
            }) && e is BadSizeEncoding,
        },
{
    if v.len() == 0 {
        return Err(
            LexDataError::BadSizeEncoding(String::from_str("empty buffer for size code")),
        );
    }
    let b0 = v[0];
    let sign = b0 >= 128;
    let w: u8 = if sign {
        b0
    } else {
        255 - b0
    };
    if (w / 64) % 2 == 0 {
        return Ok((sign, (w % 64) as u32, 1));
    }
    let mut acc: u64 = (w % 64) as u64;
    let mut i: usize = 1;
    loop
        invariant
            1 <= i <= v@.len(),
            acc <= u32::MAX,
            sz_dec(v@) == (match dec_rest(v@.skip(i as int), sign, acc as nat) {
                Some((n, u)) => Some((sign, n, (u + i) as nat)),
                None => None::<(bool, nat, nat)>,
            }),
        decreases v@.len() - i,
    {
        if i >= v.len() {
            proof {
                assert(v@.skip(i as int).len() == 0);
            }
            return Err(
                LexDataError::BadSizeEncoding(
                    String::from_str("buffer ended inside a size code"),
                ),
            );
        }
        let b = v[i];
        let bw: u8 = if sign {
            b
        } else {
            255 - b
        };
        proof {
            assert(v@.skip(i as int)[0] == v@[i as int]);
            assert(v@.skip(i as int).skip(1) =~= v@.skip(i as int + 1));
        }
        if bw < 128 {
            let t: u64 = acc * 128 + bw as u64;
            if t > u32::MAX as u64 {
                return Err(
                    LexDataError::BadSizeEncoding(
                        String::from_str("size code magnitude too large"),
                    ),
                );
            }
            return Ok((sign, t as u32, i + 1));
        } else {
            let t: u64 = acc * 128 + (bw - 128) as u64;
            if t > u32::MAX as u64 {
                proof {
                    lemma_dec_rest_min(v@.skip(i as int + 1), sign, t as nat);
                }
                return Err(
                    LexDataError::BadSizeEncoding(
                        String::from_str("size code magnitude too large"),
                    ),
                );
            }
            acc = t;
            i = i + 1;
        }
    }
}

/// Decodes a size code from the front of `v`, which must hold one whose
/// magnitude fits in a machine word: the sign, the magnitude, and the
/// bytes consumed.
pub fn size_dec(v: &[u8]) -> (r: (bool, usize, usize))
    requires
        match sz_dec(v@) {
            Some((sign, n, used)) => n <= usize::MAX,
            None => false,
        },
    ensures
        sz_dec(v@) == Some((r.0, r.1 as nat, r.2 as nat)),
{
    let b0 = v[0];
    let sign = b0 >= 128;
    let w: u8 = if sign {
        b0
    } else {
        255 - b0
    };
    if (w / 64) % 2 == 0 {
        return (sign, (w % 64) as usize, 1);
    }
    let mut acc: usize = (w % 64) as usize;
    let mut i: usize = 1;
    loop
        invariant
            1 <= i <= v@.len(),
            sz_dec(v@) == (match dec_rest(v@.skip(i as int), sign, acc as nat) {
                Some((n, u)) => Some((sign, n, (u + i) as nat)),
                None => None::<(bool, nat, nat)>,
            }),
            sz_dec(v@) matches Some((s2, n, used)) && n <= usize::MAX,
        decreases v@.len() - i,
    {
        proof {
            if i >= v@.len() {
                assert(v@.skip(i as int).len() == 0);
            }
            lemma_dec_rest_min(v@.skip(i as int), sign, acc as nat);
        }
        let b = v[i];
        let bw: u8 = if sign {
            b
        } else {
            255 - b
        };
        proof {
            assert(v@.skip(i as int)[0] == v@[i as int]);
            assert(v@.skip(i as int).skip(1) =~= v@.skip(i as int + 1));
        }
        if bw < 128 {
            proof {
                assert(acc * 128 + bw <= usize::MAX);
            }
            let t: usize = acc * 128 + bw as usize;
            return (sign, t, i + 1);
        } else {
            proof {
                lemma_dec_rest_min(
                    v@.skip(i as int + 1),
                    sign,
                    (acc * 128 + (bw - 128)) as nat,
                );
                assert(acc * 128 + (bw - 128) <= usize::MAX);
            }
            let t: usize = acc * 128 + (bw - 128) as usize;
            acc = t;
            i = i + 1;
        }
    }
}

} // verus!
