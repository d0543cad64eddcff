//! Facts about powers of two, little-endian byte strings and the windows of
//! bits that are read out of them.

use crate::field::{
    le_value, lemma_shl_pow_64, lemma_shl_pow_adds, lemma_shl_pow_positive, shl_pow,
};
use vstd::arithmetic::div_mod::*;
use vstd::arithmetic::mul::*;
use vstd::prelude::*;

verus! {

/// Powers of two grow with the exponent.
pub proof fn lemma_shl_pow_monotonic(a: nat, b: nat)
    requires
        a <= b,
    ensures
        shl_pow(a) <= shl_pow(b),
    decreases b - a,
{
    if a < b {
        lemma_shl_pow_monotonic(a, (b - 1) as nat);
        lemma_shl_pow_positive((b - 1) as nat);
    }
}

/// One shifted left by `c` is two to the `c`.
pub proof fn lemma_one_shl(c: u64)
    requires
        c < 64,
    ensures
        (1u64 << c) as nat == shl_pow(c as nat),
    decreases c,
{
    if c == 0 {
        assert(1u64 << 0u64 == 1) by (bit_vector);
    } else {
        let d = (c - 1) as u64;
        lemma_one_shl(d);
        assert(1u64 << c == 2 * (1u64 << d)) by (bit_vector)
            requires
                0 < c < 64,
                d == c - 1,
        ;
    }
}

/// A byte string of `n` bytes denotes a number below `2^(8n)`.
pub proof fn lemma_le_value_bound(bytes: Seq<u8>)
    ensures
        le_value(bytes) < shl_pow(8 * bytes.len()),
    decreases bytes.len(),
{
    if bytes.len() == 0 {
        assert(shl_pow(0) == 1);
    } else {
        let rest = bytes.skip(1);
        lemma_le_value_bound(rest);
        lemma_shl_pow_adds(8, 8 * rest.len());
        lemma_shl_pow_64();
        assert(8 * bytes.len() == 8 + 8 * rest.len());
        let t = le_value(rest);
        let p = shl_pow(8 * rest.len());
        assert(bytes[0] as nat + 256 * t < 256 * p) by (nonlinear_arith)
            requires
                t < p,
                bytes[0] < 256,
        ;
    }
}

/// The number that a concatenation denotes.
pub proof fn lemma_le_value_append(a: Seq<u8>, b: Seq<u8>)
    ensures
        le_value(a + b) == le_value(a) + shl_pow(8 * a.len()) * le_value(b),
    decreases a.len(),
{
    if a.len() == 0 {
        assert(a + b =~= b);
        assert(shl_pow(0) == 1);
        assert(1 * le_value(b) == le_value(b)) by (nonlinear_arith);
    } else {
        let rest = a.skip(1);
        lemma_le_value_append(rest, b);
        assert((a + b).skip(1) =~= rest + b);
        assert((a + b)[0] == a[0]);
        lemma_shl_pow_adds(8, 8 * rest.len());
        lemma_shl_pow_64();
        assert(8 * a.len() == 8 + 8 * rest.len());
        let p = shl_pow(8 * rest.len());
        let vb = le_value(b);
        assert(256 * (le_value(rest) + p * vb) == 256 * le_value(rest) + (256 * p) * vb)
            by (nonlinear_arith);
    }
}

/// Dropping the first `k` bytes divides by `2^(8k)`.
pub proof fn lemma_le_value_skip(bytes: Seq<u8>, k: nat)
    requires
        k <= bytes.len(),
    ensures
        le_value(bytes) / shl_pow(8 * k) == le_value(bytes.skip(k as int)),
{
    let a = bytes.take(k as int);
    let b = bytes.skip(k as int);
    assert(bytes =~= a + b);
    lemma_le_value_append(a, b);
    lemma_le_value_bound(a);
    let p = shl_pow(8 * k);
    lemma_shl_pow_positive(8 * k);
    assert(le_value(bytes) == le_value(b) * p + le_value(a)) by (nonlinear_arith)
        requires
            le_value(bytes) == le_value(a) + p * le_value(b),
    ;
    lemma_fundamental_div_mod_converse(
        le_value(bytes) as int,
        p as int,
        le_value(b) as int,
        le_value(a) as int,
    );
}

/// Bytes of zeros at the end do not change the number.
pub proof fn lemma_le_value_zero_tail(a: Seq<u8>, b: Seq<u8>)
    requires
        forall|i: int| 0 <= i < b.len() ==> b[i] == 0,
    ensures
        le_value(a + b) == le_value(a),
{
    lemma_le_value_append(a, b);
    crate::field::lemma_le_value_zeros(b);
    assert(shl_pow(8 * a.len()) * 0 == 0) by (nonlinear_arith);
}

/// The quotient by a product of two powers of two is reached in two steps.
pub proof fn lemma_div_shl_pow(x: nat, a: nat, b: nat)
    ensures
        x / shl_pow(a + b) == (x / shl_pow(a)) / shl_pow(b),
{
    lemma_shl_pow_adds(a, b);
    lemma_shl_pow_positive(a);
    lemma_shl_pow_positive(b);
    lemma_div_denominator(x as int, shl_pow(a) as int, shl_pow(b) as int);
}

/// A window of `c` bits, `t` bits up, is read within the lowest `64` bits
/// where it ends there: the rest of the number does not matter.
pub proof fn lemma_window_within_word(y: nat, t: nat, c: nat)
    requires
        t + c <= 64,
    ensures
        (y / shl_pow(t)) % shl_pow(c) == ((y % shl_pow(64)) / shl_pow(t)) % shl_pow(c),
{
    let a = shl_pow(t) as int;
    let b = shl_pow(c) as int;
    let w = shl_pow(64) as int;
    lemma_shl_pow_positive(t);
    lemma_shl_pow_positive(c);
    lemma_shl_pow_positive(64);
    lemma_shl_pow_adds(t, c);
    lemma_shl_pow_adds(t + c, (64 - t - c) as nat);
    lemma_shl_pow_positive((64 - t - c) as nat);
    let ab = a * b;
    let rest = shl_pow((64 - t - c) as nat) as int;
    assert(w == ab * rest);
    lemma_window_is_mod_div(y as int, a, b);
    let low = (y % shl_pow(64)) as int;
    lemma_window_is_mod_div(low, a, b);
    // low % (a * b) == y % (a * b), as a * b divides 2^64
    lemma_mod_mod(y as int, ab, rest);
}

/// The digit of `x` in base `b` above `a` is what is left of `x` modulo
/// `a * b`, divided by `a`.
pub proof fn lemma_window_is_mod_div(x: int, a: int, b: int)
    requires
        0 <= x,
        0 < a,
        0 < b,
    ensures
        (x / a) % b == (x % (a * b)) / a,
{
    lemma_breakdown(x, a, b);
    lemma_mul_strictly_positive(a, b);
    let d = (x / a) % b;
    let r = x % a;
    lemma_mod_bound(x, a);
    lemma_mod_bound(x / a, b);
    assert(x % (a * b) == d * a + r) by (nonlinear_arith)
        requires
            x % (a * b) == a * d + r,
    ;
    lemma_fundamental_div_mod_converse(x % (a * b), a, d, r);
}

/// A number is its quotient by `base` times `base`, plus its remainder.
pub proof fn lemma_digit_split(x: nat, shift: nat, c: nat)
    ensures
        x / shl_pow(shift) == shl_pow(c) * (x / shl_pow(shift + c)) + (x / shl_pow(shift))
            % shl_pow(c),
{
    lemma_div_shl_pow(x, shift, c);
    lemma_shl_pow_positive(c);
    lemma_shl_pow_positive(shift);
    let q = x / shl_pow(shift);
    let d = shl_pow(c);
    lemma_fundamental_div_mod(q as int, d as int);
    assert(q == d * (q / d) + q % d);
}

/// A number below a power of two has quotient zero by that power and by any
/// larger one.
pub proof fn lemma_small_quotient(x: nat, bits: nat, shift: nat)
    requires
        x < shl_pow(bits),
        bits <= shift,
    ensures
        x / shl_pow(shift) == 0,
{
    lemma_shl_pow_monotonic(bits, shift);
    lemma_basic_div(x as int, shl_pow(shift) as int);
}

} // verus!
