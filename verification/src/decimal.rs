//! Conversion between decimal digit strings and big-endian byte
//! magnitudes, proved against the numeric value of both forms.  The
//! decimal codec uses it to turn the integer part of a decimal string
//! into the bigint wire format and back.

use vstd::prelude::*;
use vstd::string::StringExecFns;

use crate::bigint::{mag_val, pow256};

verus! {

/// A decimal digit.
pub open spec fn is_digit(c: char) -> bool {
    c == '0' || c == '1' || c == '2' || c == '3' || c == '4' || c == '5' || c == '6' || c == '7'
        || c == '8' || c == '9'
}

/// The value of a decimal digit.
pub open spec fn digit_val(c: char) -> int {
    if c == '0' {
        0
    } else if c == '1' {
        1
    } else if c == '2' {
        2
    } else if c == '3' {
        3
    } else if c == '4' {
        4
    } else if c == '5' {
        5
    } else if c == '6' {
        6
    } else if c == '7' {
        7
    } else if c == '8' {
        8
    } else {
        9
    }
}

/// The digit character of a value below ten.
pub open spec fn digit_char(d: int) -> char {
    if d == 0 {
        '0'
    } else if d == 1 {
        '1'
    } else if d == 2 {
        '2'
    } else if d == 3 {
        '3'
    } else if d == 4 {
        '4'
    } else if d == 5 {
        '5'
    } else if d == 6 {
        '6'
    } else if d == 7 {
        '7'
    } else if d == 8 {
        '8'
    } else {
        '9'
    }
}

/// The value of a string of decimal digits, most significant first.
pub open spec fn digits_val(s: Seq<char>) -> int
    decreases s.len(),
{
    if s.len() == 0 {
        0
    } else {
        digits_val(s.drop_last()) * 10 + digit_val(s.last())
    }
}

/// The canonical decimal digits of a value: no leading zero, and a
/// single zero digit for zero.
pub open spec fn dec_digits(n: nat) -> Seq<char>
    decreases n,
{
    if n < 10 {
        seq![digit_char(n as int)]
    } else {
        dec_digits(n / 10).push(digit_char((n % 10) as int))
    }
}

/// The value of a little-endian byte sequence.
pub open spec fn val_le(s: Seq<u8>) -> nat
    decreases s.len(),
{
    if s.len() == 0 {
        0
    } else {
        (s[0] + 256 * val_le(s.skip(1))) as nat
    }
}

/// The value of a little-endian sequence is the value of its reversal
/// read big-endian.
pub proof fn lemma_val_le_reverse(s: Seq<u8>)
    ensures
        mag_val(s.reverse()) == val_le(s),
    decreases s.len(),
{
    if s.len() > 0 {
        lemma_val_le_reverse(s.skip(1));
        assert(s.reverse().drop_last() =~= s.skip(1).reverse());
        assert(s.reverse().last() == s[0]);
    }
}

/// Appending a byte to a little-endian sequence adds its value at the
/// top.
pub proof fn lemma_val_le_push(s: Seq<u8>, b: u8)
    ensures
        val_le(s.push(b)) == val_le(s) + b * pow256(s.len()),
    decreases s.len(),
{
    if s.len() == 0 {
        assert(s.push(b)[0] == b);
        assert(s.push(b).skip(1) =~= Seq::<u8>::empty());
        assert(val_le(Seq::<u8>::empty()) == 0);
        assert(val_le(s.push(b)) == b + 256 * 0);
        assert(pow256(0) == 1);
        assert(b * 1 == b) by (nonlinear_arith);
    } else {
        assert(s.push(b)[0] == s[0]);
        assert(s.push(b).skip(1) =~= s.skip(1).push(b));
        lemma_val_le_push(s.skip(1), b);
        let p = pow256((s.len() - 1) as nat);
        assert(256 * (val_le(s.skip(1)) + b * p) == 256 * val_le(s.skip(1)) + b * (256 * p))
            by (nonlinear_arith);
    }
}

/// Little-endian canonical form: the most significant byte, when there
/// is one, is nonzero.
pub open spec fn le_canonical(s: Seq<u8>) -> bool {
    s.len() > 0 ==> s.last() != 0
}

/// Multiplies a little-endian magnitude by ten and adds a digit.
fn mul10_add(v: &mut Vec<u8>, d: u8)
    requires
        d < 10,
        le_canonical(old(v)@),
    ensures
        le_canonical(final(v)@),
        val_le(final(v)@) == 10 * val_le(old(v)@) + d,
{
    let n = v.len();
    let mut carry: u16 = d as u16;
    let mut i: usize = 0;
    proof {
        assert(v@.take(0) =~= Seq::<u8>::empty());
        assert(val_le(Seq::<u8>::empty()) == 0);
        assert(old(v)@.skip(0) =~= old(v)@);
        assert(pow256(0) == 1);
        let w = carry + 10 * val_le(old(v)@);
        assert(w * 1 == w) by (nonlinear_arith);
    }
    while i < n
        invariant
            i <= n,
            n == v@.len(),
            n == old(v)@.len(),
            carry <= 9,
            le_canonical(old(v)@),
            forall|k: int| i <= k < n ==> v@[k] == old(v)@[k],
            val_le(v@.take(i as int)) + (carry + 10 * val_le(old(v)@.skip(i as int))) * pow256(
                i as nat,
            ) == 10 * val_le(old(v)@) + d,
            carry == 0 && i == n && i > 0 ==> v@[i - 1] != 0,
        decreases n - i,
    {
        let cur: u16 = (v[i] as u16) * 10 + carry;
        let low: u8 = (cur % 256) as u8;
        proof {
            let p = pow256(i as nat);
            let rest = val_le(old(v)@.skip(i as int + 1));
            let ob = old(v)@[i as int];
            assert(old(v)@.skip(i as int)[0] == ob);
            assert(old(v)@.skip(i as int).skip(1) =~= old(v)@.skip(i as int + 1));
            assert(val_le(old(v)@.skip(i as int)) == ob + 256 * rest);
            assert(cur == 10 * ob + carry);
            assert(cur == 256 * (cur / 256) + cur % 256) by {
                vstd::arithmetic::div_mod::lemma_fundamental_div_mod(cur as int, 256);
            }
            // The written byte and the new carry keep the account.
            assert((carry + 10 * (ob + 256 * rest)) * p == (cur % 256) * p + ((cur / 256) + 10
                * rest) * (256 * p)) by (nonlinear_arith)
                requires
                    cur == 10 * ob + carry,
                    cur == 256 * (cur / 256) + cur % 256,
            ;
        }
        let ghost vpre = v@;
        v[i] = low;
        carry = cur / 256;
        proof {
            assert(v@.take(i as int) =~= vpre.take(i as int));
            assert(v@.take(i + 1) =~= vpre.take(i as int).push(low));
            lemma_val_le_push(vpre.take(i as int), low);
            assert(pow256((i + 1) as nat) == 256 * pow256(i as nat));
            if carry == 0 {
                // Only the top byte matters for canonical form; when it
                // was just written without carry, it kept its size.
                if i + 1 == n {
                    assert(old(v)@[i as int] != 0);
                    assert(cur >= 10);
                    assert(cur < 256);
                    assert(v@[i as int] == cur);
                }
            }
        }
        i = i + 1;
    }
    let ghost vmid = v@;
    proof {
        assert(vmid.take(n as int) =~= vmid);
        assert(old(v)@.skip(n as int) =~= Seq::<u8>::empty());
        assert(val_le(Seq::<u8>::empty()) == 0);
        assert(val_le(vmid) + (carry + 10 * 0) * pow256(n as nat) == 10 * val_le(old(v)@) + d);
        assert((carry + 10 * 0) * pow256(n as nat) == carry * pow256(n as nat))
            by (nonlinear_arith);
    }
    if carry > 0 {
        let c8: u8 = carry as u8;
        v.push(c8);
        proof {
            lemma_val_le_push(vmid, c8);
            assert(v@.last() == c8);
            assert(vmid.len() == n);
            assert(val_le(v@) == val_le(vmid) + c8 * pow256(n as nat));
            assert(val_le(v@) == 10 * val_le(old(v)@) + d);
        }
    } else {
        proof {
            assert(v@ == vmid);
            assert(carry * pow256(n as nat) == 0) by (nonlinear_arith)
                requires
                    carry == 0,
            ;
            assert(val_le(v@) == 10 * val_le(old(v)@) + d);
        }
    }
}

/// A canonical nonempty little-endian magnitude is at least one.
pub proof fn lemma_val_le_lower(s: Seq<u8>)
    requires
        le_canonical(s),
        s.len() > 0,
    ensures
        val_le(s) >= 1,
    decreases s.len(),
{
    if s.len() == 1 {
        assert(s[0] == s.last());
    } else {
        assert(s.skip(1).last() == s.last());
        lemma_val_le_lower(s.skip(1));
    }
}

/// Divides a little-endian magnitude by ten in place and returns the
/// remainder.
fn divmod10(v: &mut Vec<u8>) -> (rem: u8)
    requires
        le_canonical(old(v)@),
    ensures
        le_canonical(final(v)@),
        rem < 10,
        val_le(old(v)@) == 10 * val_le(final(v)@) + rem,
{
    let n = v.len();
    let mut r: u16 = 0;
    let mut i: usize = n;
    proof {
        assert(old(v)@.skip(n as int) =~= Seq::<u8>::empty());
        assert(v@.skip(n as int) =~= Seq::<u8>::empty());
    }
    while i > 0
        invariant
            i <= n,
            n == v@.len(),
            n == old(v)@.len(),
            r <= 9,
            le_canonical(old(v)@),
            forall|k: int| 0 <= k < i ==> v@[k] == old(v)@[k],
            val_le(old(v)@.skip(i as int)) == 10 * val_le(v@.skip(i as int)) + r,
            i == n - 1 && n >= 1 && v@[n - 1] == 0 ==> r >= 1,
            i <= n - 2 && n >= 2 && v@[n - 1] == 0 ==> v@[n - 2] != 0,
        decreases i,
    {
        i = i - 1;
        let cur: u16 = r * 256 + v[i] as u16;
        let q: u8 = (cur / 10) as u8;
        let ghost vpre = v@;
        let ghost rpre = r;
        v[i] = q;
        r = cur % 10;
        proof {
            let x = val_le(vpre.skip(i + 1));
            let ob = old(v)@[i as int];
            assert(old(v)@.skip(i as int)[0] == ob);
            assert(old(v)@.skip(i as int).skip(1) =~= old(v)@.skip(i + 1));
            assert(v@.skip(i + 1) =~= vpre.skip(i + 1));
            assert(val_le(old(v)@.skip(i + 1)) == 10 * x + rpre);
            assert(v@.skip(i as int)[0] == q);
            assert(v@.skip(i as int).skip(1) =~= vpre.skip(i + 1));
            assert(val_le(v@.skip(i as int)) == q + 256 * x);
            assert(cur == rpre * 256 + ob);
            assert(cur == 10 * (cur / 10) + cur % 10) by {
                vstd::arithmetic::div_mod::lemma_fundamental_div_mod(cur as int, 10);
            }
            assert(ob + 256 * (10 * x + rpre) == 10 * ((cur / 10) + 256 * x) + cur % 10)
                by (nonlinear_arith)
                requires
                    cur == rpre * 256 + ob,
                    cur == 10 * (cur / 10) + cur % 10,
            ;
            // Canonical-form bookkeeping for the top two bytes.
            if i == n - 1 && q == 0 {
                assert(ob != 0);
                assert(cur == ob);
                assert(cur < 10);
                assert(r == cur);
            }
            if n >= 2 && i == n - 2 && v@[n - 1] == 0 {
                assert(rpre >= 1);
                assert(cur >= 256);
                assert(q >= 25);
            }
        }
    }
    proof {
        assert(old(v)@.skip(0) =~= old(v)@);
        assert(v@.skip(0) =~= v@);
    }
    let rem = r as u8;
    if v.len() > 0 {
        let last = v[v.len() - 1];
        if last == 0 {
            let ghost vpre = v@;
            v.pop();
            proof {
                assert(v@ =~= vpre.drop_last());
                assert(vpre =~= v@.push(0u8));
                lemma_val_le_push(v@, 0u8);
                assert(0 * pow256(v@.len()) == 0) by (nonlinear_arith);
                if v@.len() > 0 {
                    assert(v@.last() == vpre[vpre.len() - 2]);
                }
            }
        }
    }
    rem
}

/// A digit string has a non-negative value.
pub proof fn lemma_digits_val_nonneg(s: Seq<char>)
    requires
        forall|k: int| 0 <= k < s.len() ==> is_digit(s[k]),
    ensures
        digits_val(s) >= 0,
    decreases s.len(),
{
    if s.len() > 0 {
        lemma_digits_val_nonneg(s.drop_last());
        assert(is_digit(s.last()));
    }
}

/// The value of a decimal digit character.
pub fn char_digit(c: char) -> (d: u8)
    requires
        is_digit(c),
    ensures
        d == digit_val(c),
        d < 10,
{
    match c {
        '0' => 0,
        '1' => 1,
        '2' => 2,
        '3' => 3,
        '4' => 4,
        '5' => 5,
        '6' => 6,
        '7' => 7,
        '8' => 8,
        '9' => 9,
        _ => {
            proof {
                assert(false);
            }
            0
        },
    }
}

/// Appends the character of a digit value to a string.
pub fn push_digit(out: &mut String, d: u8)
    requires
        d < 10,
    ensures
        final(out)@ == old(out)@.push(digit_char(d as int)),
{
    match d {
        0 => {
            out.append("0");
            proof {
                reveal_strlit("0");
                assert(old(out)@ + "0"@ =~= old(out)@.push('0'));
            }
        },
        1 => {
            out.append("1");
            proof {
                reveal_strlit("1");
                assert(old(out)@ + "1"@ =~= old(out)@.push('1'));
            }
        },
        2 => {
            out.append("2");
            proof {
                reveal_strlit("2");
                assert(old(out)@ + "2"@ =~= old(out)@.push('2'));
            }
        },
        3 => {
            out.append("3");
            proof {
                reveal_strlit("3");
                assert(old(out)@ + "3"@ =~= old(out)@.push('3'));
            }
        },
        4 => {
            out.append("4");
            proof {
                reveal_strlit("4");
                assert(old(out)@ + "4"@ =~= old(out)@.push('4'));
            }
        },
        5 => {
            out.append("5");
            proof {
                reveal_strlit("5");
                assert(old(out)@ + "5"@ =~= old(out)@.push('5'));
            }
        },
        6 => {
            out.append("6");
            proof {
                reveal_strlit("6");
                assert(old(out)@ + "6"@ =~= old(out)@.push('6'));
            }
        },
        7 => {
            out.append("7");
            proof {
                reveal_strlit("7");
                assert(old(out)@ + "7"@ =~= old(out)@.push('7'));
            }
        },
        8 => {
            out.append("8");
            proof {
                reveal_strlit("8");
                assert(old(out)@ + "8"@ =~= old(out)@.push('8'));
            }
        },
        _ => {
            out.append("9");
            proof {
                reveal_strlit("9");
                assert(old(out)@ + "9"@ =~= old(out)@.push('9'));
            }
        },
    }
}

/// The bytes of a vector in reverse order.
fn rev_bytes(v: &Vec<u8>) -> (r: Vec<u8>)
    ensures
        r@ == v@.reverse(),
{
    let mut out: Vec<u8> = Vec::new();
    let mut j: usize = v.len();
    while j > 0
        invariant
            j <= v@.len(),
            out@ =~= v@.skip(j as int).reverse(),
        decreases j,
    {
        j = j - 1;
        out.push(v[j]);
        proof {
            assert(out@ =~= v@.skip(j as int).reverse());
        }
    }
    proof {
        assert(v@.skip(0) =~= v@);
    }
    out
}

/// Reads the decimal digits `s[from..to]` into a canonical big-endian
/// magnitude of the same value.
pub fn parse_digits(s: &str, from: usize, to: usize) -> (r: Vec<u8>)
    requires
        from <= to <= s@.len(),
        forall|k: int| from <= k < to ==> is_digit(s@[k]),
    ensures
        r@.len() > 0 ==> r@[0] != 0,
        mag_val(r@) == digits_val(s@.subrange(from as int, to as int)),
{
    let mut le: Vec<u8> = Vec::new();
    let mut i: usize = from;
    proof {
        assert(s@.subrange(from as int, from as int) =~= Seq::<char>::empty());
    }
    while i < to
        invariant
            from <= i <= to <= s@.len(),
            forall|k: int| from <= k < to ==> is_digit(s@[k]),
            le_canonical(le@),
            val_le(le@) == digits_val(s@.subrange(from as int, i as int)),
        decreases to - i,
    {
        let c = s.get_char(i);
        let d = char_digit(c);
        proof {
            lemma_digits_val_nonneg(s@.subrange(from as int, i as int));
            assert(s@.subrange(from as int, i + 1).drop_last() =~= s@.subrange(
                from as int,
                i as int,
            ));
            assert(s@.subrange(from as int, i + 1).last() == s@[i as int]);
        }
        mul10_add(&mut le, d);
        i = i + 1;
    }
    let r = rev_bytes(&le);
    proof {
        lemma_val_le_reverse(le@);
        assert(le@.reverse().reverse() =~= le@);
        if r@.len() > 0 {
            assert(r@[0] == le@.last());
        }
    }
    r
}

/// Writes a canonical big-endian magnitude as its decimal digits; zero
/// becomes the single digit zero.
pub fn digits_string(mag: &Vec<u8>) -> (r: String)
    requires
        mag@.len() > 0 ==> mag@[0] != 0,
    ensures
        r@ == dec_digits(mag_val(mag@)),
{
    let ghost val0 = mag_val(mag@);
    if mag.len() == 0 {
        let s = String::from_str("0");
        proof {
            reveal_strlit("0");
            assert(s@ =~= dec_digits(0));
        }
        return s;
    }
    let mut le = rev_bytes(mag);
    proof {
        lemma_val_le_reverse(le@);
        assert(le@.reverse().reverse() =~= le@);
        assert(le@.reverse() =~= mag@);
        assert(le@.last() == mag@[0]);
        assert(digit_seq(Seq::<u8>::empty().reverse()) =~= Seq::<char>::empty());
        assert(dec_digits(val0) =~= dec_digits(val_le(le@)) + digit_seq(
            Seq::<u8>::empty().reverse(),
        ));
        lemma_val_le_lower(le@);
    }
    let mut digs: Vec<u8> = Vec::new();
    while le.len() > 0
        invariant
            le_canonical(le@),
            forall|k: int| 0 <= k < digs@.len() ==> digs@[k] < 10,
            val_le(le@) > 0 ==> dec_digits(val0) =~= dec_digits(val_le(le@)) + digit_seq(
                digs@.reverse(),
            ),
            val_le(le@) == 0 ==> dec_digits(val0) =~= digit_seq(digs@.reverse()),
        decreases val_le(le@),
    {
        proof {
            lemma_val_le_lower(le@);
        }
        let ghost vbefore = val_le(le@);
        let d = divmod10(&mut le);
        let ghost vafter = val_le(le@);
        digs.push(d);
        proof {
            vstd::arithmetic::div_mod::lemma_fundamental_div_mod_converse(
                vbefore as int,
                10,
                vafter as int,
                d as int,
            );
            assert(digs@.reverse() =~= seq![d] + digs@.drop_last().reverse());
            assert(digit_seq(digs@.reverse()) =~= seq![digit_char(d as int)] + digit_seq(
                digs@.drop_last().reverse(),
            ));
            if vbefore >= 10 {
                assert(dec_digits(vbefore) == dec_digits(vafter).push(
                    digit_char((vbefore % 10) as int),
                ));
                assert(dec_digits(vafter).push(digit_char(d as int)) + digit_seq(
                    digs@.drop_last().reverse(),
                ) =~= dec_digits(vafter) + (seq![digit_char(d as int)] + digit_seq(
                    digs@.drop_last().reverse(),
                )));
            } else {
                assert(dec_digits(vbefore) =~= seq![digit_char(d as int)]);
            }
        }
    }
    let mut out = String::new();
    let mut j: usize = digs.len();
    while j > 0
        invariant
            j <= digs@.len(),
            forall|k: int| 0 <= k < digs@.len() ==> digs@[k] < 10,
            out@ =~= digit_seq(digs@.skip(j as int).reverse()),
        decreases j,
    {
        j = j - 1;
        push_digit(&mut out, digs[j]);
        proof {
            assert(digs@.skip(j as int).reverse() =~= digs@.skip(j + 1).reverse().push(
                digs@[j as int],
            ));
            assert(digit_seq(digs@.skip(j as int).reverse()) =~= digit_seq(
                digs@.skip(j + 1).reverse(),
            ).push(digit_char(digs@[j as int] as int)));
        }
    }
    proof {
        assert(digs@.skip(0) =~= digs@);
    }
    out
}

/// The digit characters of a sequence of digit values.
pub open spec fn digit_seq(ds: Seq<u8>) -> Seq<char> {
    ds.map_values(|d: u8| digit_char(d as int))
}

} // verus!
