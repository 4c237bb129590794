//! Fixed-width codecs: 32- and 64-bit integers with a sign-bit flip,
//! and IEEE-754 floats whose bit pattern is transformed so that the
//! big-endian bytes sort in numeric order.
//!
//! Integers are written big-endian after adding the offset that maps
//! the signed range onto the unsigned one (equivalent to flipping the
//! top bit of the two's-complement form).  Float bit patterns with the
//! sign bit set are complemented, others get the sign bit set; the
//! decoder inverts the transform, so every pattern, NaNs included,
//! round-trips bit-exactly.

use vstd::prelude::*;
use vstd::string::StringExecFns;

use crate::bigint::{mag_val, pow256};
use crate::{aspect_byte, aspect_byte_spec, aspect_storage_opt, aspect_storage_total, Aspect,
    LexDataError, StorageType, Value};

verus! {

/// The `n` big-endian bytes of a value below 256 to the `n`.
pub open spec fn be_seq(x: nat, n: nat) -> Seq<u8>
    decreases n,
{
    if n == 0 {
        Seq::<u8>::empty()
    } else {
        be_seq(x / 256, (n - 1) as nat).push((x % 256) as u8)
    }
}

/// The big-endian bytes of a value read back as a magnitude give the
/// value.
pub proof fn lemma_be_seq_val(x: nat, n: nat)
    requires
        x < pow256(n),
    ensures
        be_seq(x, n).len() == n,
        mag_val(be_seq(x, n)) == x,
    decreases n,
{
    if n == 0 {
    } else {
        vstd::arithmetic::div_mod::lemma_fundamental_div_mod(x as int, 256);
        assert(x / 256 < pow256((n - 1) as nat)) by {
            if x / 256 >= pow256((n - 1) as nat) {
                assert(256 * (x / 256) >= 256 * pow256((n - 1) as nat)) by (nonlinear_arith)
                    requires
                        x / 256 >= pow256((n - 1) as nat),
                ;
            }
        }
        lemma_be_seq_val(x / 256, (n - 1) as nat);
        let s = be_seq(x, n);
        assert(s.drop_last() =~= be_seq(x / 256, (n - 1) as nat));
        assert(s.last() == (x % 256) as u8);
    }
}

/// Writes the low `n` bytes of `x` big-endian.
pub fn be_bytes(x: u64, n: usize) -> (r: Vec<u8>)
    requires
        n <= 8,
        x < pow256(n as nat),
    ensures
        r@ == be_seq(x as nat, n as nat),
{
    let mut le: Vec<u8> = Vec::new();
    let mut cur: u64 = x;
    let mut i: usize = 0;
    while i < n
        invariant
            i <= n,
            le@.len() == i,
            be_seq(x as nat, n as nat) =~= be_seq(cur as nat, (n - i) as nat) + le@.reverse(),
        decreases n - i,
    {
        let b: u8 = (cur % 256) as u8;
        proof {
            assert(be_seq(cur as nat, (n - i) as nat) =~= be_seq(
                (cur / 256) as nat,
                (n - i - 1) as nat,
            ).push(b));
            assert(le@.push(b).reverse() =~= seq![b] + le@.reverse());
            assert(be_seq((cur / 256) as nat, (n - i - 1) as nat).push(b) + le@.reverse()
                =~= be_seq((cur / 256) as nat, (n - i - 1) as nat) + (seq![b] + le@.reverse()));
        }
        le.push(b);
        cur = cur / 256;
        i = i + 1;
    }
    proof {
        assert(be_seq(cur as nat, 0) =~= Seq::<u8>::empty());
        assert(be_seq(x as nat, n as nat) =~= le@.reverse());
    }
    let mut out: Vec<u8> = Vec::new();
    let mut j: usize = le.len();
    while j > 0
        invariant
            j <= le@.len(),
            out@ =~= le@.skip(j as int).reverse(),
        decreases j,
    {
        j = j - 1;
        out.push(le[j]);
        proof {
            assert(out@ =~= le@.skip(j as int).reverse());
        }
    }
    proof {
        assert(le@.skip(0) =~= le@);
    }
    out
}

/// Reads the first `n` bytes of `s` as a big-endian value.
pub fn be_read(s: &[u8], n: usize) -> (r: u64)
    requires
        n <= 8,
        n <= s@.len(),
    ensures
        r as nat == mag_val(s@.take(n as int)),
{
    let mut acc: u64 = 0;
    let mut i: usize = 0;
    proof {
        assert(s@.take(0) =~= Seq::<u8>::empty());
    }
    while i < n
        invariant
            i <= n <= 8,
            n <= s@.len(),
            acc as nat == mag_val(s@.take(i as int)),
            acc < pow256(i as nat),
        decreases n - i,
    {
        proof {
            assert(s@.take(i + 1).drop_last() =~= s@.take(i as int));
            assert(s@.take(i + 1).last() == s@[i as int]);
            lemma_pow256_u64(i as nat);
            lemma_pow256_u64((i + 1) as nat);
            assert(acc * 256 + 255 < pow256((i + 1) as nat)) by (nonlinear_arith)
                requires
                    acc < pow256(i as nat),
                    pow256((i + 1) as nat) == 256 * pow256(i as nat),
            ;
        }
        acc = acc * 256 + s[i] as u64;
        i = i + 1;
    }
    acc
}

/// The powers of 256 up to the eighth fit the bounds of a 64-bit word.
proof fn lemma_pow256_u64(i: nat)
    requires
        i <= 8,
    ensures
        pow256(i) <= 0x1_0000_0000_0000_0000,
        pow256((i + 1) as nat) == 256 * pow256(i),
{
    crate::bigint::lemma_pow256_monotone(i, 8);
    lemma_pow256_values();
}

/// The order key of a signed 32-bit integer: its value shifted into the
/// unsigned range.
pub open spec fn i32_key(i: i32) -> nat {
    (i + 0x8000_0000) as nat
}

/// The order key of a signed 64-bit integer.
pub open spec fn i64_key(i: i64) -> nat {
    (i + 0x8000_0000_0000_0000) as nat
}

/// The order key of an IEEE binary32 bit pattern: negative patterns are
/// complemented, others get the sign bit set.  For every non-NaN
/// pattern the key order is the numeric order of the floats.
pub open spec fn f32_key(b: u32) -> nat {
    if b >= 0x8000_0000 {
        (0xffff_ffff - b) as nat
    } else {
        (b + 0x8000_0000) as nat
    }
}

/// The order key of an IEEE binary64 bit pattern.
pub open spec fn f64_key(b: u64) -> nat {
    if b >= 0x8000_0000_0000_0000 {
        (0xffff_ffff_ffff_ffff - b) as nat
    } else {
        (b + 0x8000_0000_0000_0000) as nat
    }
}

/// The numeric order of two IEEE binary32 bit patterns that are not
/// NaNs: a set sign bit puts the value below every non-negative one
/// (with the negative zero below the positive zero, as the wire order
/// places it), and values of one sign compare by their magnitude bits —
/// sign, biased exponent, then mantissa.
pub open spec fn f32_lt(a: u32, b: u32) -> bool {
    let sa = a >= 0x8000_0000;
    let sb = b >= 0x8000_0000;
    let ma = a % 0x8000_0000;
    let mb = b % 0x8000_0000;
    if sa && !sb {
        true
    } else if !sa && sb {
        false
    } else if !sa {
        ma < mb
    } else {
        mb < ma
    }
}

/// The numeric order of two IEEE binary64 bit patterns that are not
/// NaNs.
pub open spec fn f64_lt(a: u64, b: u64) -> bool {
    let sa = a >= 0x8000_0000_0000_0000;
    let sb = b >= 0x8000_0000_0000_0000;
    let ma = a % 0x8000_0000_0000_0000;
    let mb = b % 0x8000_0000_0000_0000;
    if sa && !sb {
        true
    } else if !sa && sb {
        false
    } else if !sa {
        ma < mb
    } else {
        mb < ma
    }
}

/// The order key of a binary32 pattern follows its numeric order.
pub proof fn lemma_f32_key_order(a: u32, b: u32)
    requires
        f32_lt(a, b),
    ensures
        f32_key(a) < f32_key(b),
{
    vstd::arithmetic::div_mod::lemma_fundamental_div_mod(a as int, 0x8000_0000);
    vstd::arithmetic::div_mod::lemma_fundamental_div_mod(b as int, 0x8000_0000);
    assert(a / 0x8000_0000 == if a >= 0x8000_0000 {
        1int
    } else {
        0int
    });
    assert(b / 0x8000_0000 == if b >= 0x8000_0000 {
        1int
    } else {
        0int
    });
}

/// The order key of a binary64 pattern follows its numeric order.
pub proof fn lemma_f64_key_order(a: u64, b: u64)
    requires
        f64_lt(a, b),
    ensures
        f64_key(a) < f64_key(b),
{
    vstd::arithmetic::div_mod::lemma_fundamental_div_mod(a as int, 0x8000_0000_0000_0000);
    vstd::arithmetic::div_mod::lemma_fundamental_div_mod(b as int, 0x8000_0000_0000_0000);
    assert(a / 0x8000_0000_0000_0000 == if a >= 0x8000_0000_0000_0000 {
        1int
    } else {
        0int
    });
    assert(b / 0x8000_0000_0000_0000 == if b >= 0x8000_0000_0000_0000 {
        1int
    } else {
        0int
    });
}

/// The signed 64-bit integer whose order key is `k`.
pub open spec fn i64_of_key(k: nat) -> i64 {
    (k - 0x8000_0000_0000_0000) as i64
}

/// The payload of an `Int32` record.
pub open spec fn int32_payload(i: i32) -> Seq<u8> {
    be_seq(i32_key(i), 4)
}

/// The payload of an `Int64` or `DateTime` record.
pub open spec fn int64_payload(i: i64) -> Seq<u8> {
    be_seq(i64_key(i), 8)
}

/// The payload of a `Float32` record.
pub open spec fn float32_payload(b: u32) -> Seq<u8> {
    be_seq(f32_key(b), 4)
}

/// The payload of a `Float64` record.
pub open spec fn float64_payload(b: u64) -> Seq<u8> {
    be_seq(f64_key(b), 8)
}

/// Encodes a 32-bit integer under an aspect with `Int32` storage.
pub fn int32_to_storage(i: i32, a: Aspect) -> (r: Result<Vec<u8>, LexDataError>)
    ensures
        match r {
            Ok(v) => aspect_storage_opt(a) == Some(StorageType::Int32) && v@ == seq![
                aspect_byte_spec(a),
            ] + int32_payload(i),
            Err(e) => aspect_storage_opt(a) != Some(StorageType::Int32)
                && e is UnexpectedAspect,
        },
{
    match aspect_storage_total(a) {
        Some(StorageType::Int32) => {},
        _ => {
            return Err(
                LexDataError::UnexpectedAspect(
                    String::from_str("the aspect does not have int32 storage"),
                ),
            );
        },
    }
    let key: u64 = (i as i64 + 0x8000_0000i64) as u64;
    proof {
        lemma_pow256_u64(4);
        lemma_pow256_values();
    }
    let mut out: Vec<u8> = Vec::new();
    out.push(aspect_byte(a));
    let mut payload = be_bytes(key, 4);
    out.append(&mut payload);
    proof {
        assert(out@ =~= seq![aspect_byte_spec(a)] + int32_payload(i));
    }
    Ok(out)
}

/// Decodes an `Int32` payload: the first four bytes, big-endian, less
/// the sign offset.
pub fn storage_to_int32(bytes: &[u8]) -> (r: Result<Value, LexDataError>)
    ensures
        match r {
            Ok(v) => v matches Value::Int32(i) && bytes@.len() >= 4 && i32_key(i) == mag_val(
                bytes@.take(4),
            ),
            Err(e) => bytes@.len() < 4 && e is BadInt32Layout,
        },
{
    if bytes.len() < 4 {
        return Err(
            LexDataError::BadInt32Layout(
                String::from_str("int32 storage needs four bytes"),
            ),
        );
    }
    let key = be_read(bytes, 4);
    proof {
        lemma_mag_val_upper_take(bytes@, 4);
        lemma_pow256_values();
    }
    let i: i32 = (key as i64 - 0x8000_0000i64) as i32;
    Ok(Value::Int32(i))
}

/// Encodes a 64-bit integer under an aspect with `Int64` or `DateTime`
/// storage.
pub fn int64_to_storage(i: i64, a: Aspect) -> (r: Result<Vec<u8>, LexDataError>)
    ensures
        match r {
            Ok(v) => (aspect_storage_opt(a) == Some(StorageType::Int64) || aspect_storage_opt(
                a,
            ) == Some(StorageType::DateTime)) && v@ == seq![aspect_byte_spec(a)]
                + int64_payload(i),
            Err(e) => aspect_storage_opt(a) != Some(StorageType::Int64) && aspect_storage_opt(
                a,
            ) != Some(StorageType::DateTime) && e is UnexpectedAspect,
        },
{
    match aspect_storage_total(a) {
        Some(StorageType::Int64) => {},
        Some(StorageType::DateTime) => {},
        _ => {
            return Err(
                LexDataError::UnexpectedAspect(
                    String::from_str("the aspect does not have int64 storage"),
                ),
            );
        },
    }
    let key: u64 = if i >= 0 {
        i as u64 + 0x8000_0000_0000_0000u64
    } else {
        ((i + 0x7fff_ffff_ffff_ffffi64) + 1) as u64
    };
    proof {
        lemma_pow256_u64(8);
        lemma_pow256_values();
        assert(key == i64_key(i));
    }
    let mut out: Vec<u8> = Vec::new();
    out.push(aspect_byte(a));
    let mut payload = be_bytes(key, 8);
    out.append(&mut payload);
    proof {
        assert(out@ =~= seq![aspect_byte_spec(a)] + int64_payload(i));
    }
    Ok(out)
}

/// Decodes an `Int64` payload: the first eight bytes, big-endian, less
/// the sign offset.
pub fn storage_to_int64(bytes: &[u8]) -> (r: Result<Value, LexDataError>)
    ensures
        match r {
            Ok(v) => v matches Value::Int64(i) && bytes@.len() >= 8 && i64_key(i) == mag_val(
                bytes@.take(8),
            ),
            Err(e) => bytes@.len() < 8 && e is BadInt64Layout,
        },
{
    if bytes.len() < 8 {
        return Err(
            LexDataError::BadInt64Layout(
                String::from_str("int64 storage needs eight bytes"),
            ),
        );
    }
    let key = be_read(bytes, 8);
    proof {
        lemma_mag_val_upper_take(bytes@, 8);
        lemma_pow256_values();
    }
    let i: i64 = if key >= 0x8000_0000_0000_0000u64 {
        (key - 0x8000_0000_0000_0000u64) as i64
    } else {
        -((0x8000_0000_0000_0000u64 - key - 1) as i64) - 1
    };
    proof {
        assert(i64_key(i) == key);
    }
    Ok(Value::Int64(i))
}

/// Encodes an IEEE binary32 bit pattern under an aspect with `Float32`
/// storage.
pub fn float32_to_storage(bits: u32, a: Aspect) -> (r: Result<Vec<u8>, LexDataError>)
    ensures
        match r {
            Ok(v) => aspect_storage_opt(a) == Some(StorageType::Float32) && v@ == seq![
                aspect_byte_spec(a),
            ] + float32_payload(bits),
            Err(e) => aspect_storage_opt(a) != Some(StorageType::Float32)
                && e is UnexpectedAspect,
        },
{
    match aspect_storage_total(a) {
        Some(StorageType::Float32) => {},
        _ => {
            return Err(
                LexDataError::UnexpectedAspect(
                    String::from_str("the aspect does not have float32 storage"),
                ),
            );
        },
    }
    let key: u32 = if bits >= 0x8000_0000u32 {
        0xffff_ffffu32 - bits
    } else {
        bits + 0x8000_0000u32
    };
    proof {
        lemma_pow256_u64(4);
        lemma_pow256_values();
        assert(key == f32_key(bits));
    }
    let mut out: Vec<u8> = Vec::new();
    out.push(aspect_byte(a));
    let mut payload = be_bytes(key as u64, 4);
    out.append(&mut payload);
    proof {
        assert(out@ =~= seq![aspect_byte_spec(a)] + float32_payload(bits));
    }
    Ok(out)
}

/// Decodes a `Float32` payload back to the original bit pattern.
pub fn storage_to_float32(bytes: &[u8]) -> (r: Result<Value, LexDataError>)
    ensures
        match r {
            Ok(v) => v matches Value::Float32(b) && bytes@.len() >= 4 && f32_key(b) == mag_val(
                bytes@.take(4),
            ),
            Err(e) => bytes@.len() < 4 && e is BadFloat32Layout,
        },
{
    if bytes.len() < 4 {
        return Err(
            LexDataError::BadFloat32Layout(
                String::from_str("float32 storage needs four bytes"),
            ),
        );
    }
    let key64 = be_read(bytes, 4);
    proof {
        lemma_mag_val_upper_take(bytes@, 4);
        lemma_pow256_values();
    }
    let key: u32 = key64 as u32;
    let bits: u32 = if key >= 0x8000_0000u32 {
        key - 0x8000_0000u32
    } else {
        0xffff_ffffu32 - key
    };
    proof {
        assert(f32_key(bits) == key);
    }
    Ok(Value::Float32(bits))
}

/// Encodes an IEEE binary64 bit pattern under an aspect with `Float64`
/// storage.
pub fn float64_to_storage(bits: u64, a: Aspect) -> (r: Result<Vec<u8>, LexDataError>)
    ensures
        match r {
            Ok(v) => aspect_storage_opt(a) == Some(StorageType::Float64) && v@ == seq![
                aspect_byte_spec(a),
            ] + float64_payload(bits),
            Err(e) => aspect_storage_opt(a) != Some(StorageType::Float64)
                && e is UnexpectedAspect,
        },
{
    match aspect_storage_total(a) {
        Some(StorageType::Float64) => {},
        _ => {
            return Err(
                LexDataError::UnexpectedAspect(
                    String::from_str("the aspect does not have float64 storage"),
                ),
            );
        },
    }
    let key: u64 = if bits >= 0x8000_0000_0000_0000u64 {
        0xffff_ffff_ffff_ffffu64 - bits
    } else {
        bits + 0x8000_0000_0000_0000u64
    };
    proof {
        lemma_pow256_u64(8);
        lemma_pow256_values();
        assert(key == f64_key(bits));
    }
    let mut out: Vec<u8> = Vec::new();
    out.push(aspect_byte(a));
    let mut payload = be_bytes(key, 8);
    out.append(&mut payload);
    proof {
        assert(out@ =~= seq![aspect_byte_spec(a)] + float64_payload(bits));
    }
    Ok(out)
}

/// Decodes a `Float64` payload back to the original bit pattern.
pub fn storage_to_float64(bytes: &[u8]) -> (r: Result<Value, LexDataError>)
    ensures
        match r {
            Ok(v) => v matches Value::Float64(b) && bytes@.len() >= 8 && f64_key(b) == mag_val(
                bytes@.take(8),
            ),
            Err(e) => bytes@.len() < 8 && e is BadFloat64Layout,
        },
{
    if bytes.len() < 8 {
        return Err(
            LexDataError::BadFloat64Layout(
                String::from_str("float64 storage needs eight bytes"),
            ),
        );
    }
    let key = be_read(bytes, 8);
    proof {
        lemma_mag_val_upper_take(bytes@, 8);
        lemma_pow256_values();
    }
    let bits: u64 = if key >= 0x8000_0000_0000_0000u64 {
        key - 0x8000_0000_0000_0000u64
    } else {
        0xffff_ffff_ffff_ffffu64 - key
    };
    proof {
        assert(f64_key(bits) == key);
    }
    Ok(Value::Float64(bits))
}

/// Big-endian bytes of one width sort as their values do, and neither
/// sequence is a prefix of the other.
pub proof fn lemma_be_seq_order(x: nat, y: nat, n: nat)
    requires
        x < y,
        y < pow256(n),
    ensures
        crate::order::lex_lt(be_seq(x, n), be_seq(y, n)),
        !be_seq(x, n).is_prefix_of(be_seq(y, n)),
{
    lemma_be_seq_val(x, n);
    lemma_be_seq_val(y, n);
    let bx = be_seq(x, n);
    let by = be_seq(y, n);
    assert(bx != by);
    crate::bigint::lemma_lex_total(bx, by);
    if crate::order::lex_lt(by, bx) {
        crate::bigint::lemma_mag_val_lex(by, bx);
    }
    assert(crate::order::lex_lt(bx, by));
    assert(!bx.is_prefix_of(by)) by {
        if bx.is_prefix_of(by) {
            assert(by.subrange(0, bx.len() as int) =~= by);
            crate::bigint::lemma_lex_irrefl(bx);
        }
    }
}

/// The low powers of 256, written out.
pub proof fn lemma_pow256_values()
    ensures
        pow256(4) == 0x1_0000_0000,
        pow256(8) == 0x1_0000_0000_0000_0000,
{
    assert(pow256(0) == 1);
    assert(pow256(1) == 256);
    assert(pow256(2) == 0x1_0000);
    assert(pow256(3) == 0x100_0000);
    assert(pow256(4) == 0x1_0000_0000);
    assert(pow256(5) == 0x100_0000_0000);
    assert(pow256(6) == 0x1_0000_0000_0000);
    assert(pow256(7) == 0x100_0000_0000_0000);
    assert(pow256(8) == 0x1_0000_0000_0000_0000);
}

/// The first bytes of a buffer read as a magnitude stay below 256 to
/// their count.
proof fn lemma_mag_val_upper_take(s: Seq<u8>, n: int)
    requires
        0 <= n <= s.len(),
    ensures
        mag_val(s.take(n)) < pow256(n as nat),
{
    crate::bigint::lemma_mag_val_upper(s.take(n));
}

} // verus!
