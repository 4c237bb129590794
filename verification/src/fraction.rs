//! The fraction codec: the decimal digits of a fraction, two digits per
//! byte in a "centimal" encoding whose byte values grow with the digit
//! pair, with the lowest bit of each byte as a continuation flag.
//!
//! A single digit `d` becomes `11 d + 1`; a pair with value `v` becomes
//! `v + v/10 + 2`.  The byte is shifted left once and the low bit set
//! iff more fraction bytes follow.  An empty fraction is the single
//! byte zero, a "false zero" distinct from every real fraction byte.
//! Longer fractions therefore sort after their proper prefixes, and
//! greater digit pairs after smaller ones.

use vstd::prelude::*;
use vstd::string::StringExecFns;

use crate::decimal::{char_digit, digit_char, digit_val, is_digit, push_digit};

verus! {

/// The centimal code of one group of one or two digits.
pub open spec fn centary_code(s: Seq<char>) -> int {
    if s.len() == 1 {
        11 * digit_val(s[0]) + 1
    } else {
        let v = 10 * digit_val(s[0]) + digit_val(s[1]);
        v + v / 10 + 2
    }
}

/// The digits of a centimal code between 1 and 110.
pub open spec fn cent_digits(i: int) -> Seq<char> {
    let j = i - 1;
    if j % 11 == 0 {
        seq![digit_char(j / 11)]
    } else {
        let dd = j - j / 11 - 1;
        seq![digit_char(dd / 10), digit_char(dd % 10)]
    }
}

/// The fraction bytes of a nonempty digit string: one byte per group of
/// two digits, each but the last with the continuation bit set.
pub open spec fn frac_bytes(s: Seq<char>) -> Seq<u8>
    decreases s.len(),
{
    if s.len() <= 2 {
        seq![(centary_code(s) * 2) as u8]
    } else {
        seq![(centary_code(s.take(2)) * 2 + 1) as u8] + frac_bytes(s.skip(2))
    }
}

/// The fraction bytes of a digit string; the empty fraction is the
/// false-zero byte.
pub open spec fn frac_enc(s: Seq<char>) -> Seq<u8> {
    if s.len() == 0 {
        seq![0u8]
    } else {
        frac_bytes(s)
    }
}

/// Decoding of fraction bytes from the front of a sequence: groups are
/// read while the continuation bit is set; a single-digit group or a
/// clear continuation bit ends the fraction; a byte that is no fraction
/// byte ends it too.
pub open spec fn frac_dec(s: Seq<u8>) -> Seq<char>
    decreases s.len(),
{
    if s.len() == 0 {
        Seq::<char>::empty()
    } else {
        let c = s[0] / 2;
        if c < 1 || c > 110 {
            Seq::<char>::empty()
        } else {
            let ds = cent_digits(c as int);
            if ds.len() == 1 || s[0] % 2 == 0 {
                ds
            } else {
                ds + frac_dec(s.skip(1))
            }
        }
    }
}

/// A string of decimal digits.
pub open spec fn all_digits(s: Seq<char>) -> bool {
    forall|k: int| 0 <= k < s.len() ==> is_digit(s[k])
}

/// A digit character carries its own value.
pub proof fn lemma_digit_char_val(c: char)
    requires
        is_digit(c),
    ensures
        digit_char(digit_val(c)) == c,
{
}

/// The centimal code of a digit group lies between 1 and 110, inside
/// the band of its leading digit, and decodes back to the group.
pub proof fn lemma_cent_identity(s: Seq<char>)
    requires
        1 <= s.len() <= 2,
        all_digits(s),
    ensures
        1 <= centary_code(s) <= 110,
        11 * digit_val(s[0]) + 1 <= centary_code(s) <= 11 * digit_val(s[0]) + 11,
        cent_digits(centary_code(s)) == s,
        s.len() == 1 <==> cent_digits(centary_code(s)).len() == 1,
{
    assert(is_digit(s[0]));
    let a = digit_val(s[0]);
    if s.len() == 1 {
        let code = 11 * a + 1;
        let j = code - 1;
        assert(j == a * 11);
        vstd::arithmetic::div_mod::lemma_fundamental_div_mod_converse(j, 11, a, 0);
        assert(j % 11 == 0);
        assert(j / 11 == a);
        lemma_digit_char_val(s[0]);
        assert(cent_digits(code) =~= s);
    } else {
        assert(is_digit(s[1]));
        let b = digit_val(s[1]);
        let v = 10 * a + b;
        vstd::arithmetic::div_mod::lemma_fundamental_div_mod_converse(v, 10, a, b);
        assert(v / 10 == a);
        let code = v + v / 10 + 2;
        assert(code == 11 * a + b + 2);
        let j = code - 1;
        assert(j == a * 11 + (b + 1));
        vstd::arithmetic::div_mod::lemma_fundamental_div_mod_converse(j, 11, a, b + 1);
        assert(j % 11 == b + 1);
        assert(j / 11 == a);
        let dd = j - j / 11 - 1;
        assert(dd == v);
        vstd::arithmetic::div_mod::lemma_fundamental_div_mod_converse(dd, 10, a, b);
        lemma_digit_char_val(s[0]);
        lemma_digit_char_val(s[1]);
        assert(cent_digits(code) =~= s);
    }
}

/// The centimal code of one or two digits.
pub fn centary_decimal_encode(s: &str) -> (r: u8)
    requires
        1 <= s@.len() <= 2,
        all_digits(s@),
    ensures
        r as int == centary_code(s@),
{
    let c1 = s.get_char(0);
    let d1 = char_digit(c1);
    if s.unicode_len() == 1 {
        11 * d1 + 1
    } else {
        let c2 = s.get_char(1);
        let d2 = char_digit(c2);
        let v: u8 = 10 * d1 + d2;
        v + v / 10 + 2
    }
}

/// The digits of a centimal code.
pub fn centary_decimal_decode(i: u8) -> (r: String)
    requires
        1 <= i <= 110,
    ensures
        r@ == cent_digits(i as int),
{
    let j = i - 1;
    let mut out = String::new();
    if j % 11 == 0 {
        let num = j / 11;
        push_digit(&mut out, num);
        proof {
            assert(out@ =~= cent_digits(i as int));
        }
    } else {
        let d = j / 11;
        let num = j - d - 1;
        push_digit(&mut out, num / 10);
        push_digit(&mut out, num % 10);
        proof {
            assert(out@ =~= cent_digits(i as int));
        }
    }
    out
}

/// Encodes the digits of a fraction, two per byte, with continuation
/// bits; no fraction, or an empty one, becomes the false-zero byte.
pub fn encode_fraction(fraction: Option<&str>) -> (r: Vec<u8>)
    requires
        match fraction {
            Some(f) => all_digits(f@),
            None => true,
        },
    ensures
        r@ == frac_enc(
            match fraction {
                Some(f) => f@,
                None => Seq::<char>::empty(),
            },
        ),
{
    let f = match fraction {
        Some(f) => f,
        None => {
            let mut v: Vec<u8> = Vec::new();
            v.push(0u8);
            proof {
                assert(v@ =~= frac_enc(Seq::<char>::empty()));
            }
            return v;
        },
    };
    let len = f.unicode_len();
    if len == 0 {
        let mut v: Vec<u8> = Vec::new();
        v.push(0u8);
        proof {
            assert(v@ =~= frac_enc(f@));
        }
        return v;
    }
    let mut out: Vec<u8> = Vec::new();
    let mut i: usize = 0;
    proof {
        assert(f@.skip(0) =~= f@);
        assert(out@ + frac_bytes(f@.skip(0)) =~= frac_bytes(f@));
    }
    while len - i > 2
        invariant
            i < len,
            len == f@.len(),
            all_digits(f@),
            frac_bytes(f@) =~= out@ + frac_bytes(f@.skip(i as int)),
        decreases len - i,
    {
        let c1 = f.get_char(i);
        let c2 = f.get_char(i + 1);
        let d1 = char_digit(c1);
        let d2 = char_digit(c2);
        let v: u8 = 10 * d1 + d2;
        let code: u8 = v + v / 10 + 2;
        let b: u8 = code * 2 + 1;
        proof {
            let t = f@.skip(i as int);
            assert(t.len() > 2);
            assert(t.take(2) =~= f@.subrange(i as int, i + 2));
            assert(t[0] == f@[i as int]);
            assert(t[1] == f@[i + 1]);
            lemma_cent_identity(t.take(2));
            assert(code as int == centary_code(t.take(2)));
            assert(t.skip(2) =~= f@.skip(i + 2));
            assert(frac_bytes(t) =~= seq![b] + frac_bytes(f@.skip(i + 2)));
        }
        out.push(b);
        proof {
            assert(frac_bytes(f@) =~= out@ + frac_bytes(f@.skip(i + 2)));
        }
        i = i + 2;
    }
    // The final group of one or two digits, with a clear continuation
    // bit.
    let c1 = f.get_char(i);
    let d1 = char_digit(c1);
    let code: u8 = if i + 1 == len {
        11 * d1 + 1
    } else {
        let c2 = f.get_char(i + 1);
        let d2 = char_digit(c2);
        let v: u8 = 10 * d1 + d2;
        v + v / 10 + 2
    };
    let b: u8 = code * 2;
    proof {
        let t = f@.skip(i as int);
        assert(1 <= t.len() <= 2);
        assert(t[0] == f@[i as int]);
        if t.len() == 2 {
            assert(t[1] == f@[i + 1]);
        }
        lemma_cent_identity(t);
        assert(code as int == centary_code(t));
        assert(frac_bytes(t) =~= seq![b]);
    }
    out.push(b);
    proof {
        assert(out@ =~= frac_bytes(f@));
    }
    out
}

/// Decodes the digits of a fraction from the front of `fraction_vec`,
/// reading bytes while their continuation bit is set and stopping at a
/// terminal group.
pub fn decode_fraction(fraction_vec: &[u8]) -> (r: String)
    ensures
        r@ == frac_dec(fraction_vec@),
{
    let mut out = String::new();
    let len = fraction_vec.len();
    let mut i: usize = 0;
    proof {
        assert(fraction_vec@.skip(0) =~= fraction_vec@);
        assert(out@ + frac_dec(fraction_vec@.skip(0)) =~= frac_dec(fraction_vec@));
    }
    loop
        invariant
            i <= len,
            len == fraction_vec@.len(),
            frac_dec(fraction_vec@) =~= out@ + frac_dec(fraction_vec@.skip(i as int)),
        decreases len - i,
    {
        if i >= len {
            proof {
                assert(fraction_vec@.skip(i as int).len() == 0);
            }
            return out;
        }
        let b = fraction_vec[i];
        let c = b / 2;
        proof {
            assert(fraction_vec@.skip(i as int)[0] == b);
        }
        if c < 1 || c > 110 {
            return out;
        }
        let ds = centary_decimal_decode(c);
        let single = (c - 1) % 11 == 0;
        out.append(ds.as_str());
        proof {
            if !(single || b % 2 == 0) {
                assert(fraction_vec@.skip(i as int).skip(1) =~= fraction_vec@.skip(i + 1));
            }
            assert(cent_digits(c as int).len() == 1 <==> (c - 1) % 11 == 0);
        }
        if single || b % 2 == 0 {
            return out;
        }
        i = i + 1;
    }
}

/// The order of decimal fractions over their digit strings: position by
/// position, with a proper prefix below its extensions.  This is the
/// numeric order of the fractions they denote, except that trailing
/// zeros make a fraction larger (`0.1` sorts before `0.10`).
pub open spec fn frac_lt(a: Seq<char>, b: Seq<char>) -> bool
    decreases a.len(),
{
    if b.len() == 0 {
        false
    } else if a.len() == 0 {
        true
    } else if digit_val(a[0]) < digit_val(b[0]) {
        true
    } else if digit_val(a[0]) > digit_val(b[0]) {
        false
    } else {
        frac_lt(a.skip(1), b.skip(1))
    }
}

/// Fraction encodings sort as their digit strings do, and no encoding
/// is a prefix of another's: of two fractions in `frac_lt` order, the
/// smaller one's bytes sort strictly before the larger one's.
pub proof fn lemma_frac_order(a: Seq<char>, b: Seq<char>)
    requires
        all_digits(a),
        all_digits(b),
        frac_lt(a, b),
    ensures
        crate::order::lex_lt(frac_enc(a), frac_enc(b)),
        !frac_enc(a).is_prefix_of(frac_enc(b)),
    decreases a.len(),
{
    let ea = frac_enc(a);
    let eb = frac_enc(b);
    if a.len() == 0 {
        // The false zero sorts before every real fraction byte.
        let gb = if b.len() <= 2 {
            b
        } else {
            b.take(2)
        };
        lemma_cent_identity(gb);
        assert(eb[0] >= 2);
        assert(ea[0] == 0);
        crate::order::lemma_lt_from_diff(ea, eb, 0);
        crate::order::lemma_diff_not_prefix(ea, eb, 0);
    } else {
        let ga = if a.len() <= 2 {
            a
        } else {
            a.take(2)
        };
        let gb = if b.len() <= 2 {
            b
        } else {
            b.take(2)
        };
        assert(ga[0] == a[0] && gb[0] == b[0]);
        if a.len() >= 2 {
            assert(ga[1] == a[1]);
        }
        if b.len() >= 2 {
            assert(gb[1] == b[1]);
        }
        lemma_cent_identity(ga);
        lemma_cent_identity(gb);
        let ca = centary_code(ga);
        let cb = centary_code(gb);
        if ca < cb {
            // Different group codes differ in the first byte, whatever
            // the continuation bits.
            assert(ea[0] < eb[0]);
            crate::order::lemma_lt_from_diff(ea, eb, 0);
            crate::order::lemma_diff_not_prefix(ea, eb, 0);
        } else {
            // The digit bands make equal-or-larger codes possible only
            // with equal leading digits.
            assert(digit_val(a[0]) == digit_val(b[0]));
            if a.len() == 1 {
                // One digit against the same digit and more: the pair
                // code is larger, or the continuation bit decides.
                if b.len() == 1 {
                    assert(!frac_lt(a, b));
                } else {
                    assert(cb == 11 * digit_val(b[0]) + digit_val(b[1]) + 2);
                    assert(ca < cb || (ca == cb && ea[0] < eb[0]));
                    assert(ea[0] < eb[0]);
                    crate::order::lemma_lt_from_diff(ea, eb, 0);
                    crate::order::lemma_diff_not_prefix(ea, eb, 0);
                }
            } else {
                if b.len() == 1 {
                    assert(frac_lt(a.skip(1), b.skip(1)));
                    assert(!frac_lt(a.skip(1), b.skip(1)));
                } else {
                    assert(frac_lt(a.skip(1), b.skip(1)));
                    if digit_val(a[1]) < digit_val(b[1]) {
                        assert(ca < cb);
                        assert(false);
                    } else {
                        assert(digit_val(a[1]) == digit_val(b[1]));
                        assert(ca == cb);
                        assert(frac_lt(a.skip(1).skip(1), b.skip(1).skip(1)));
                        assert(a.skip(1).skip(1) =~= a.skip(2));
                        assert(b.skip(1).skip(1) =~= b.skip(2));
                        if a.len() == 2 {
                            if b.len() == 2 {
                                assert(!frac_lt(a.skip(2), b.skip(2)));
                            } else {
                                // A proper prefix at equal digit pairs:
                                // the continuation bit decides.
                                assert(ea[0] == (ca * 2) as u8);
                                assert(eb[0] == (cb * 2 + 1) as u8);
                                crate::order::lemma_lt_from_diff(ea, eb, 0);
                                crate::order::lemma_diff_not_prefix(ea, eb, 0);
                            }
                        } else {
                            if b.len() == 2 {
                                assert(b.skip(2).len() == 0);
                                assert(!frac_lt(a.skip(2), b.skip(2)));
                            } else {
                                // Equal leading bytes: recurse on the
                                // remaining digits behind them.
                                let fa = ea[0];
                                assert(fa == (ca * 2 + 1) as u8);
                                assert(eb[0] == fa);
                                assert(all_digits(a.skip(2)));
                                assert(all_digits(b.skip(2)));
                                lemma_frac_order(a.skip(2), b.skip(2));
                                assert(ea =~= seq![fa] + frac_enc(a.skip(2)));
                                assert(eb =~= seq![fa] + frac_enc(b.skip(2)));
                                crate::order::lemma_lt_prepend(
                                    seq![fa],
                                    frac_enc(a.skip(2)),
                                    frac_enc(b.skip(2)),
                                );
                            }
                        }
                    }
                }
            }
        }
    }
}

/// A fraction encoding carries its own length: every byte but the last
/// has an odd low bit, the last an even one, so a scan under the
/// record's sign stops exactly at its end, whatever follows.
pub proof fn lemma_frac_enc_len(s: Seq<char>, sign: bool, g: Seq<u8>)
    requires
        all_digits(s),
    ensures
        crate::frac_len(
            (if sign {
                frac_enc(s)
            } else {
                crate::order::compl(frac_enc(s))
            }) + g,
            sign,
        ) == frac_enc(s).len(),
    decreases s.len(),
{
    let e = frac_enc(s);
    let c = if sign {
        e
    } else {
        crate::order::compl(e)
    };
    let w = c + g;
    assert(w[0] == c[0]);
    let b0: u8 = if sign {
        w[0]
    } else {
        (255 - w[0]) as u8
    };
    assert(b0 == e[0]);
    if s.len() == 0 {
        assert(e[0] == 0);
        assert(b0 % 2 == 0);
    } else if s.len() <= 2 {
        lemma_cent_identity(s);
        assert(e[0] == (centary_code(s) * 2) as u8);
        assert(b0 % 2 == 0);
    } else {
        lemma_cent_identity(s.take(2));
        assert(e[0] == (centary_code(s.take(2)) * 2 + 1) as u8);
        assert(b0 % 2 == 1);
        assert(all_digits(s.skip(2)));
        lemma_frac_enc_len(s.skip(2), sign, g);
        let e2 = frac_enc(s.skip(2));
        let c2 = if sign {
            e2
        } else {
            crate::order::compl(e2)
        };
        assert(w.skip(1) =~= c2 + g) by {
            if !sign {
                assert(crate::order::compl(e) =~= seq![(255 - e[0]) as u8]
                    + crate::order::compl(e2));
            }
        }
    }
}

/// A valid fraction encoding decodes back to its digits from the front
/// of any longer buffer.
pub proof fn lemma_frac_round_trip(s: Seq<char>, g: Seq<u8>)
    requires
        all_digits(s),
    ensures
        frac_dec(frac_enc(s) + g) == s,
    decreases s.len(),
{
    let w = frac_enc(s) + g;
    if s.len() == 0 {
        assert(w[0] == 0);
        assert(frac_dec(w) =~= s);
    } else if s.len() <= 2 {
        lemma_cent_identity(s);
        let code = centary_code(s);
        assert(w[0] == (code * 2) as u8);
        assert(w[0] / 2 == code);
        assert(w[0] % 2 == 0);
        assert(frac_dec(w) =~= s);
    } else {
        lemma_cent_identity(s.take(2));
        let code = centary_code(s.take(2));
        assert(w[0] == (code * 2 + 1) as u8);
        assert(w[0] / 2 == code);
        assert(w[0] % 2 == 1);
        assert(cent_digits(code).len() == 2);
        assert(all_digits(s.skip(2)));
        lemma_frac_round_trip(s.skip(2), g);
        assert(w.skip(1) =~= frac_enc(s.skip(2)) + g);
        assert(frac_dec(w) =~= s.take(2) + s.skip(2));
        assert(s.take(2) + s.skip(2) =~= s);
    }
}

} // verus!
