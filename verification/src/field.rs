//! Elements of the BN254 scalar field, held as canonical little-endian bytes.
//!
//! The arithmetic itself is done by `halo2curves`; this module states what each
//! operation returns as a number modulo the field's order, and proves the ring
//! laws that the rest of the library reasons with.

use ff::{BatchInvert, Field, PrimeField};
use vstd::arithmetic::div_mod::*;
use vstd::arithmetic::mul::*;
use vstd::prelude::*;

verus! {

/// The natural number that a little-endian byte string denotes.
pub open spec fn le_value(bytes: Seq<u8>) -> nat
    decreases bytes.len(),
{
    if bytes.len() == 0 {
        0
    } else {
        bytes[0] as nat + 256 * le_value(bytes.skip(1))
    }
}

/// Two byte strings of one length that denote the same number are equal.
pub proof fn lemma_le_value_injective(a: Seq<u8>, b: Seq<u8>)
    requires
        a.len() == b.len(),
        le_value(a) == le_value(b),
    ensures
        a =~= b,
    decreases a.len(),
{
    if a.len() > 0 {
        let ta = le_value(a.skip(1));
        let tb = le_value(b.skip(1));
        assert(a[0] as nat + 256 * ta == b[0] as nat + 256 * tb);
        assert(a[0] == b[0] && ta == tb) by (nonlinear_arith)
            requires
                a[0] as nat + 256 * ta == b[0] as nat + 256 * tb,
                a[0] < 256,
                b[0] < 256,
        ;
        lemma_le_value_injective(a.skip(1), b.skip(1));
        assert forall|i: int| 0 <= i < a.len() implies a[i] == b[i] by {
            if i > 0 {
                assert(a[i] == a.skip(1)[i - 1]);
                assert(b[i] == b.skip(1)[i - 1]);
            }
        }
    }
}

/// A byte string of zeros denotes zero.
pub proof fn lemma_le_value_zeros(bytes: Seq<u8>)
    requires
        forall|i: int| 0 <= i < bytes.len() ==> bytes[i] == 0,
    ensures
        le_value(bytes) == 0,
    decreases bytes.len(),
{
    if bytes.len() > 0 {
        lemma_le_value_zeros(bytes.skip(1));
    }
}

/// The order of the scalar field,
/// `0x30644e72e131a029b85045b68181585d2833e84879b9709143e1f593f0000001`.
#[verifier::opaque]
pub open spec fn fr_modulus() -> nat {
    0x43e1f593f0000001u64 as nat + 0x2833e84879b97091u64 as nat * 0x1_0000_0000_0000_0000nat
        + 0xb85045b68181585du64 as nat * 0x1_0000_0000_0000_0000nat * 0x1_0000_0000_0000_0000nat
        + 0x30644e72e131a029u64 as nat * 0x1_0000_0000_0000_0000nat * 0x1_0000_0000_0000_0000nat
        * 0x1_0000_0000_0000_0000nat
}

/// The modulus is larger than any 64-bit number.
pub proof fn lemma_modulus_large()
    ensures
        fr_modulus() > 0xffff_ffff_ffff_ffff,
{
    reveal(fr_modulus);
    assert(0x2833e84879b97091u64 as nat * 0x1_0000_0000_0000_0000nat > 0xffff_ffff_ffff_ffff)
        by (nonlinear_arith);
    assert(0xb85045b68181585du64 as nat * 0x1_0000_0000_0000_0000nat * 0x1_0000_0000_0000_0000nat
        >= 0) by (nonlinear_arith);
    assert(0x30644e72e131a029u64 as nat * 0x1_0000_0000_0000_0000nat * 0x1_0000_0000_0000_0000nat
        * 0x1_0000_0000_0000_0000nat >= 0) by (nonlinear_arith);
}

/// The sum of two residues.
pub open spec fn fadd(a: nat, b: nat) -> nat {
    (a + b) % fr_modulus()
}

/// The difference of two residues.
pub open spec fn fsub(a: nat, b: nat) -> nat {
    ((a as int - b as int) % (fr_modulus() as int)) as nat
}

/// The product of two residues.
pub open spec fn fmul(a: nat, b: nat) -> nat {
    (a * b) % fr_modulus()
}

/// The additive inverse of a residue.
pub open spec fn fneg(a: nat) -> nat {
    ((0 - a as int) % (fr_modulus() as int)) as nat
}

/// `base` raised to `exp`, reduced.
pub open spec fn fpow(base: nat, exp: nat) -> nat
    decreases exp,
{
    if exp == 0 {
        1
    } else {
        fmul(base, fpow(base, (exp - 1) as nat))
    }
}

/// A scalar of the BN254 curve.
#[derive(Clone, Copy, Debug)]
pub struct Fr {
    repr: [u8; 32],
}

impl View for Fr {
    type V = nat;

    closed spec fn view(&self) -> nat {
        le_value(self.repr@)
    }
}

impl PartialEq for Fr {
    fn eq(&self, other: &Fr) -> (r: bool) {
        let mut i: usize = 0;
        while i < 32
            invariant
                i <= 32,
                forall|j: int| 0 <= j < i ==> self.repr@[j] == other.repr@[j],
            decreases 32 - i,
        {
            if self.repr[i] != other.repr[i] {
                proof {
                    if self@ == other@ {
                        lemma_le_value_injective(self.repr@, other.repr@);
                    }
                }
                return false;
            }
            i += 1;
        }
        assert(self.repr@ =~= other.repr@);
        true
    }
}

impl vstd::std_specs::cmp::PartialEqSpecImpl for Fr {
    open spec fn obeys_eq_spec() -> bool {
        true
    }

    open spec fn eq_spec(&self, other: &Fr) -> bool {
        self@ == other@
    }
}

impl Eq for Fr {

}

impl Fr {
    /// The bytes are a canonical encoding: they denote a number below the modulus.
    pub open spec fn wf(&self) -> bool {
        self@ < fr_modulus()
    }

    /// The little-endian encoding that the element holds.
    pub closed spec fn bytes(&self) -> Seq<u8> {
        self.repr@
    }

    /// An element is its encoding: the encoding has 32 bytes and denotes the view.
    pub proof fn lemma_bytes(&self)
        ensures
            self.bytes().len() == 32,
            le_value(self.bytes()) == self@,
    {
    }

    /// Elements with one view are one element.
    pub proof fn lemma_view_injective(&self, other: &Fr)
        requires
            self@ == other@,
        ensures
            *self == *other,
    {
        lemma_le_value_injective(self.repr@, other.repr@);
        assert(self.repr =~= other.repr);
    }

    /// The element that `v` denotes.
    pub fn from_u64(v: u64) -> (r: Fr)
        ensures
            r.wf(),
            r@ == v,
    {
        proof {
            lemma_modulus_large();
        }
        fr_from_u64(v)
    }

    /// The additive identity.
    pub fn zero() -> (r: Fr)
        ensures
            r.wf(),
            r@ == 0,
    {
        Fr::from_u64(0)
    }

    /// The multiplicative identity.
    pub fn one() -> (r: Fr)
        ensures
            r.wf(),
            r@ == 1,
    {
        Fr::from_u64(1)
    }

    /// Decodes 32 little-endian bytes; `None` when they denote a number that is
    /// not below the modulus.
    pub fn from_repr(bytes: [u8; 32]) -> (r: Option<Fr>)
        ensures
            r.is_some() <==> le_value(bytes@) < fr_modulus(),
            r.is_some() ==> r.unwrap().wf() && r.unwrap().bytes() == bytes@ && r.unwrap()@
                == le_value(bytes@),
    {
        if fr_is_canonical(&bytes) {
            Some(Fr { repr: bytes })
        } else {
            None
        }
    }

    /// The canonical little-endian encoding.
    pub fn to_repr(&self) -> (r: [u8; 32])
        ensures
            r@ == self.bytes(),
            le_value(r@) == self@,
    {
        self.repr
    }

    /// The sum in the field.
    pub fn add(&self, rhs: &Fr) -> (r: Fr)
        requires
            self.wf(),
            rhs.wf(),
        ensures
            r.wf(),
            r@ == fadd(self@, rhs@),
    {
        fr_add(self, rhs)
    }

    /// The difference in the field.
    pub fn sub(&self, rhs: &Fr) -> (r: Fr)
        requires
            self.wf(),
            rhs.wf(),
        ensures
            r.wf(),
            r@ == fsub(self@, rhs@),
    {
        fr_sub(self, rhs)
    }

    /// The product in the field.
    pub fn mul(&self, rhs: &Fr) -> (r: Fr)
        requires
            self.wf(),
            rhs.wf(),
        ensures
            r.wf(),
            r@ == fmul(self@, rhs@),
    {
        fr_mul(self, rhs)
    }

    /// The additive inverse.
    pub fn neg(&self) -> (r: Fr)
        requires
            self.wf(),
        ensures
            r.wf(),
            r@ == fneg(self@),
    {
        fr_neg(self)
    }

    /// The square.
    pub fn square(&self) -> (r: Fr)
        requires
            self.wf(),
        ensures
            r.wf(),
            r@ == fmul(self@, self@),
    {
        fr_mul(self, self)
    }

    /// The multiplicative inverse; `None` for zero.
    pub fn invert(&self) -> (r: Option<Fr>)
        requires
            self.wf(),
        ensures
            r.is_none() <==> self@ == 0,
            r.is_some() ==> r.unwrap().wf() && fmul(r.unwrap()@, self@) == 1,
    {
        fr_invert(self)
    }

    /// The element raised to `exp`, by squaring and multiplying.
    pub fn pow(&self, exp: u64) -> (r: Fr)
        requires
            self.wf(),
        ensures
            r.wf(),
            r@ == fpow(self@, exp as nat),
    {
        let mut acc = Fr::one();
        let mut i: u32 = 64;
        proof {
            lemma_modulus_large();
            lemma_shl_pow_64();
            assert(exp as nat / pow2_64() == 0) by {
                lemma_basic_div(exp as int, pow2_64() as int);
            }
        }
        while i > 0
            invariant
                self.wf(),
                acc.wf(),
                i <= 64,
                acc@ == fpow(self@, exp as nat / shl_pow(i as nat)),
            decreases i,
        {
            i -= 1;
            let sq = fr_mul(&acc, &acc);
            let bit = (exp >> i) & 1;
            proof {
                lemma_shift_bit(exp, i);
                let hi = exp as nat / shl_pow((i + 1) as nat);
                lemma_fpow_adds(self@, hi, hi);
                assert(hi + hi == 2 * hi);
                lemma_fpow_succ(self@, 2 * hi);
            }
            if bit == 1 {
                acc = fr_mul(&sq, self);
                proof {
                    lemma_fmul_commutes(sq@, self@);
                }
            } else {
                acc = sq;
            }
        }
        assert(exp as nat / shl_pow(0) == exp as nat) by {
            reveal_with_fuel(shl_pow, 1);
            lemma_div_basics_2(exp as int);
        }
        acc
    }
}

/// The values of a list of field elements.
pub open spec fn values_of(v: Seq<Fr>) -> Seq<nat> {
    v.map_values(|x: Fr| x@)
}

/// Every element of the list is canonically encoded.
pub open spec fn all_wf(v: Seq<Fr>) -> bool {
    forall|i: int| 0 <= i < v.len() ==> (#[trigger] v[i]).wf()
}

/// Two to the power 64.
pub open spec fn pow2_64() -> nat {
    0x1_0000_0000_0000_0000
}

/// Two to the power `n`.
pub open spec fn shl_pow(n: nat) -> nat
    decreases n,
{
    if n == 0 {
        1
    } else {
        2 * shl_pow((n - 1) as nat)
    }
}

/// A power of two is positive.
pub proof fn lemma_shl_pow_positive(n: nat)
    ensures
        shl_pow(n) > 0,
    decreases n,
{
    if n > 0 {
        lemma_shl_pow_positive((n - 1) as nat);
    }
}

/// Powers of two multiply by adding exponents.
pub proof fn lemma_shl_pow_adds(a: nat, b: nat)
    ensures
        shl_pow(a + b) == shl_pow(a) * shl_pow(b),
    decreases a,
{
    if a == 0 {
        assert(shl_pow(0) == 1);
        assert(1 * shl_pow(b) == shl_pow(b));
    } else {
        lemma_shl_pow_adds((a - 1) as nat, b);
        assert(shl_pow(a + b) == 2 * shl_pow((a - 1 + b) as nat));
        assert(2 * (shl_pow((a - 1) as nat) * shl_pow(b)) == (2 * shl_pow((a - 1) as nat))
            * shl_pow(b)) by (nonlinear_arith);
    }
}

/// `shl_pow(64)` is two to the 64.
pub proof fn lemma_shl_pow_64()
    ensures
        shl_pow(64) == pow2_64(),
        shl_pow(8) == 256,
        shl_pow(32) == 0x1_0000_0000,
{
    reveal_with_fuel(shl_pow, 9);
    assert(shl_pow(8) == 256);
    lemma_shl_pow_adds(8, 8);
    assert(shl_pow(16) == 0x1_0000) by (nonlinear_arith)
        requires
            shl_pow(16) == shl_pow(8) * shl_pow(8),
            shl_pow(8) == 256,
    ;
    lemma_shl_pow_adds(16, 16);
    assert(shl_pow(32) == 0x1_0000_0000) by (nonlinear_arith)
        requires
            shl_pow(32) == shl_pow(16) * shl_pow(16),
            shl_pow(16) == 0x1_0000,
    ;
    lemma_shl_pow_adds(32, 32);
    assert(shl_pow(64) == 0x1_0000_0000_0000_0000) by (nonlinear_arith)
        requires
            shl_pow(64) == shl_pow(32) * shl_pow(32),
            shl_pow(32) == 0x1_0000_0000,
    ;
}

/// Shifting right by `i` divides by two to the `i`; the lowest bit of the
/// shifted value is what separates the quotients by successive powers.
proof fn lemma_shift_bit(exp: u64, i: u32)
    requires
        i < 64,
    ensures
        exp as nat / shl_pow(i as nat) == 2 * (exp as nat / shl_pow((i + 1) as nat)) + ((exp >> i)
            & 1) as nat,
        (exp >> i) & 1 == 0 || (exp >> i) & 1 == 1,
        i == 63 ==> exp as nat / shl_pow(64) == 0,
{
    lemma_shr_is_div(exp, i);
    let q = (exp >> i);
    assert(q & 1 == q % 2) by (bit_vector);
    lemma_shl_pow_positive(i as nat);
    let d = shl_pow(i as nat) as int;
    assert(shl_pow((i + 1) as nat) == 2 * shl_pow(i as nat));
    // exp / (d * 2) == (exp / d) / 2
    lemma_div_denominator(exp as int, d, 2);
    assert(d * 2 == 2 * d);
    lemma_fundamental_div_mod(q as int, 2);
    if i == 63 {
        lemma_shl_pow_64();
        lemma_basic_div(exp as int, pow2_64() as int);
    }
}

/// A right shift of a 64-bit number is a division by a power of two.
pub proof fn lemma_shr_is_div(x: u64, i: u32)
    requires
        i < 64,
    ensures
        (x >> i) as nat == x as nat / shl_pow(i as nat),
    decreases i,
{
    if i == 0 {
        assert(x >> 0u32 == x) by (bit_vector);
        assert(shl_pow(0) == 1);
    } else {
        let j = (i - 1) as u32;
        lemma_shr_is_div(x, j);
        assert(x >> i == (x >> j) / 2) by (bit_vector)
            requires
                0 < i < 64,
                j == i - 1,
        ;
        lemma_shl_pow_positive(j as nat);
        lemma_div_denominator(x as int, shl_pow(j as nat) as int, 2);
        assert(shl_pow(i as nat) == 2 * shl_pow(j as nat));
        assert(shl_pow(j as nat) * 2 == 2 * shl_pow(j as nat));
    }
}

/// Multiplication of residues commutes.
pub proof fn lemma_fmul_commutes(a: nat, b: nat)
    ensures
        fmul(a, b) == fmul(b, a),
{
    assert(a * b == b * a) by (nonlinear_arith);
}

/// Multiplication of residues is associative.
pub proof fn lemma_fmul_associates(a: nat, b: nat, c: nat)
    ensures
        fmul(fmul(a, b), c) == fmul(a, fmul(b, c)),
{
    lemma_modulus_large();
    let m = fr_modulus() as int;
    lemma_mul_mod_noop_left((a * b) as int, c as int, m);
    lemma_mul_mod_noop_right(a as int, (b * c) as int, m);
    assert((a * b) * c == a * (b * c)) by (nonlinear_arith);
}

/// Addition of residues commutes.
pub proof fn lemma_fadd_commutes(a: nat, b: nat)
    ensures
        fadd(a, b) == fadd(b, a),
{
}

/// Addition of residues is associative.
pub proof fn lemma_fadd_associates(a: nat, b: nat, c: nat)
    ensures
        fadd(fadd(a, b), c) == fadd(a, fadd(b, c)),
{
    lemma_modulus_large();
    let m = fr_modulus() as int;
    lemma_add_mod_noop_right(c as int, (a + b) as int, m);
    lemma_add_mod_noop_right(a as int, (b + c) as int, m);
}

/// Multiplication distributes over addition.
pub proof fn lemma_fmul_distributes(a: nat, b: nat, c: nat)
    ensures
        fmul(a, fadd(b, c)) == fadd(fmul(a, b), fmul(a, c)),
{
    lemma_modulus_large();
    let m = fr_modulus() as int;
    lemma_mul_mod_noop_right(a as int, (b + c) as int, m);
    lemma_add_mod_noop((a * b) as int, (a * c) as int, m);
    assert(a * (b + c) == a * b + a * c) by (nonlinear_arith);
}

/// Multiplication distributes over subtraction.
pub proof fn lemma_fmul_distributes_sub(a: nat, b: nat, c: nat)
    ensures
        fmul(a, fsub(b, c)) == fsub(fmul(a, b), fmul(a, c)),
{
    lemma_modulus_large();
    let m = fr_modulus() as int;
    lemma_mul_mod_noop_right(a as int, b as int - c as int, m);
    lemma_sub_mod_noop((a * b) as int, (a * c) as int, m);
    assert(a as int * (b as int - c as int) == (a * b) as int - (a * c) as int) by (nonlinear_arith);
}

/// Zero and one are neutral, and zero absorbs.
pub proof fn lemma_field_units(a: nat)
    requires
        a < fr_modulus(),
    ensures
        fadd(a, 0) == a,
        fadd(0, a) == a,
        fmul(a, 1) == a,
        fmul(1, a) == a,
        fmul(a, 0) == 0,
        fmul(0, a) == 0,
        fsub(a, 0) == a,
        fsub(a, a) == 0,
{
    lemma_small_mod(a, fr_modulus());
    lemma_small_mod(0, fr_modulus());
    assert(a * 1 == a && 1 * a == a && a * 0 == 0 && 0 * a == 0) by (nonlinear_arith);
}

/// Every residue is below the modulus.
pub proof fn lemma_residues_bounded(a: nat, b: nat)
    ensures
        fadd(a, b) < fr_modulus(),
        fsub(a, b) < fr_modulus(),
        fmul(a, b) < fr_modulus(),
        fneg(a) < fr_modulus(),
{
    lemma_modulus_large();
    let m = fr_modulus() as int;
    lemma_mod_bound((a + b) as int, m);
    lemma_mod_bound(a as int - b as int, m);
    lemma_mod_bound((a * b) as int, m);
    lemma_mod_bound(0 - a as int, m);
}

/// Subtracting is adding the negation, and what was added can be taken away.
pub proof fn lemma_fsub_laws(a: nat, b: nat)
    ensures
        fsub(a, b) == fadd(a, fneg(b)),
        fsub(fadd(a, b), b) == a % fr_modulus(),
        fadd(fsub(a, b), b) == a % fr_modulus(),
{
    lemma_modulus_large();
    let m = fr_modulus() as int;
    lemma_add_mod_noop_right(a as int, 0 - b as int, m);
    lemma_add_mod_noop_right(0 - b as int, (a + b) as int, m);
    lemma_add_mod_noop_right(b as int, a as int - b as int, m);
}

/// A power with one more factor.
pub proof fn lemma_fpow_succ(base: nat, exp: nat)
    ensures
        fpow(base, exp + 1) == fmul(base, fpow(base, exp)),
{
}

/// Powers multiply by adding exponents.
pub proof fn lemma_fpow_adds(base: nat, a: nat, b: nat)
    ensures
        fpow(base, a + b) == fmul(fpow(base, a), fpow(base, b)),
    decreases a,
{
    lemma_modulus_large();
    if a == 0 {
        let p = fpow(base, b);
        assert(p < fr_modulus()) by {
            if b > 0 {
                lemma_residues_bounded(base, fpow(base, (b - 1) as nat));
            }
        }
        lemma_field_units(p);
    } else {
        lemma_fpow_adds(base, (a - 1) as nat, b);
        let x = fpow(base, (a - 1) as nat);
        let y = fpow(base, b);
        assert(fpow(base, a + b) == fmul(base, fpow(base, (a - 1 + b) as nat)));
        lemma_fmul_associates(base, x, y);
    }
}

/// A power is a residue.
pub proof fn lemma_fpow_bounded(base: nat, exp: nat)
    ensures
        fpow(base, exp) < fr_modulus(),
{
    lemma_modulus_large();
    if exp > 0 {
        lemma_residues_bounded(base, fpow(base, (exp - 1) as nat));
    }
}

/// Every power of one is one.
pub proof fn lemma_fpow_one(exp: nat)
    ensures
        fpow(1, exp) == 1,
    decreases exp,
{
    lemma_modulus_large();
    if exp > 0 {
        lemma_fpow_one((exp - 1) as nat);
        lemma_field_units(1);
    }
}

/// The first power of a residue is the residue.
pub proof fn lemma_fpow_first(base: nat)
    requires
        base < fr_modulus(),
    ensures
        fpow(base, 1) == base,
{
    reveal_with_fuel(fpow, 2);
    lemma_field_units(base);
}

/// A power of a power multiplies the exponents.
pub proof fn lemma_fpow_muls(base: nat, a: nat, b: nat)
    ensures
        fpow(base, a * b) == fpow(fpow(base, a), b),
    decreases b,
{
    if b == 0 {
        assert(a * 0 == 0) by (nonlinear_arith);
    } else {
        lemma_fpow_muls(base, a, (b - 1) as nat);
        assert(a * b == a + a * (b - 1)) by (nonlinear_arith)
            requires
                b >= 1,
        ;
        lemma_fpow_adds(base, a, (a * ((b - 1) as nat)) as nat);
    }
}

/// The powers of a square are the even powers.
pub proof fn lemma_fpow_square(base: nat, exp: nat)
    ensures
        fpow(fmul(base, base), exp) == fpow(base, 2 * exp),
{
    lemma_modulus_large();
    reveal_with_fuel(fpow, 3);
    assert(fpow(base, 2) == fmul(base, base)) by {
        lemma_mul_mod_noop_right(base as int, base as int * 1, fr_modulus() as int);
        assert(base * 1 == base) by (nonlinear_arith);
    }
    lemma_fpow_muls(base, 2, exp);
}

/// Negating is multiplying by the residue of minus one.
pub proof fn lemma_fneg_is_scaling(x: nat)
    ensures
        fneg(x) == fmul((fr_modulus() - 1) as nat, x),
        fmul((fr_modulus() - 1) as nat, (fr_modulus() - 1) as nat) == 1,
        fneg(1) == (fr_modulus() - 1) as nat,
{
    lemma_modulus_large();
    let m = fr_modulus() as int;
    assert((m - 1) * x == m * x + (0 - x)) by (nonlinear_arith);
    lemma_mod_multiples_vanish(x as int, 0 - x as int, m);
    assert((m - 1) * (m - 1) == m * (m - 2) + 1) by (nonlinear_arith);
    lemma_mod_multiples_vanish(m - 2, 1, m);
    lemma_small_mod(1, fr_modulus());
    lemma_mod_multiples_vanish(-1, m - 1, m);
    lemma_small_mod((m - 1) as nat, fr_modulus());
    assert(m * (-1) + (m - 1) == 0 - 1) by (nonlinear_arith);
}

/// The field holds roots of unity of every order `2^k` up to `k = 28`.
pub const TWO_ADICITY: u32 = 28;

/// The root of unity of order `2^28` that the field's transforms start from,
/// `0x03ddb9f5166d18b798865ea93dd31f743215cf6dd39329c8d34f1ed960c37c9c`.
pub open spec fn root_of_unity() -> nat {
    0xd34f1ed960c37c9cu64 as nat + 0x3215cf6dd39329c8u64 as nat * 0x1_0000_0000_0000_0000nat
        + 0x98865ea93dd31f74u64 as nat * 0x1_0000_0000_0000_0000nat * 0x1_0000_0000_0000_0000nat
        + 0x03ddb9f5166d18b7u64 as nat * 0x1_0000_0000_0000_0000nat * 0x1_0000_0000_0000_0000nat
        * 0x1_0000_0000_0000_0000nat
}

/// The inverse of `root_of_unity`,
/// `0x048127174daabc261bbe587180f34361b22625f59115aba70ed3e50a414e6dba`.
pub open spec fn root_of_unity_inv() -> nat {
    0x0ed3e50a414e6dbau64 as nat + 0xb22625f59115aba7u64 as nat * 0x1_0000_0000_0000_0000nat
        + 0x1bbe587180f34361u64 as nat * 0x1_0000_0000_0000_0000nat * 0x1_0000_0000_0000_0000nat
        + 0x048127174daabc26u64 as nat * 0x1_0000_0000_0000_0000nat * 0x1_0000_0000_0000_0000nat
        * 0x1_0000_0000_0000_0000nat
}

/// One half,
/// `0x183227397098d014dc2822db40c0ac2e9419f4243cdcb848a1f0fac9f8000001`.
pub open spec fn two_inv() -> nat {
    0xa1f0fac9f8000001u64 as nat + 0x9419f4243cdcb848u64 as nat * 0x1_0000_0000_0000_0000nat
        + 0xdc2822db40c0ac2eu64 as nat * 0x1_0000_0000_0000_0000nat * 0x1_0000_0000_0000_0000nat
        + 0x183227397098d014u64 as nat * 0x1_0000_0000_0000_0000nat * 0x1_0000_0000_0000_0000nat
        * 0x1_0000_0000_0000_0000nat
}

impl Fr {
    /// The root of unity of order `2^28`.
    pub fn root_of_unity() -> (r: Fr)
        ensures
            r.wf(),
            r@ == root_of_unity(),
            fpow(r@, shl_pow(27)) == fr_modulus() - 1,
    {
        fr_root_of_unity()
    }

    /// The inverse of the root of unity of order `2^28`.
    pub fn root_of_unity_inv() -> (r: Fr)
        ensures
            r.wf(),
            r@ == root_of_unity_inv(),
            fmul(r@, root_of_unity()) == 1,
            fpow(r@, shl_pow(27)) == fr_modulus() - 1,
    {
        fr_root_of_unity_inv()
    }

    /// One half.
    pub fn two_inv() -> (r: Fr)
        ensures
            r.wf(),
            r@ == two_inv(),
            fmul(r@, 2) == 1,
    {
        fr_two_inv()
    }
}

/// Reads `PrimeField::ROOT_OF_UNITY` of `halo2curves::bn256::Fr`: the constant
/// that the crate gives, a root of unity of order `2^28` and of no lower order,
/// so that its power `2^27` is minus one.
#[verifier::external_body]
fn fr_root_of_unity() -> (r: Fr)
    ensures
        r.wf(),
        r@ == root_of_unity(),
        fpow(r@, shl_pow(27)) == fr_modulus() - 1,
{
    Fr { repr: halo2curves::bn256::Fr::ROOT_OF_UNITY.to_repr() }
}

/// Reads `PrimeField::ROOT_OF_UNITY_INV` of `halo2curves::bn256::Fr`: the
/// constant that the crate gives, the inverse of `ROOT_OF_UNITY` and so a root
/// of unity of the same order.
#[verifier::external_body]
fn fr_root_of_unity_inv() -> (r: Fr)
    ensures
        r.wf(),
        r@ == root_of_unity_inv(),
        fmul(r@, root_of_unity()) == 1,
        fpow(r@, shl_pow(27)) == fr_modulus() - 1,
{
    Fr { repr: halo2curves::bn256::Fr::ROOT_OF_UNITY_INV.to_repr() }
}

/// Reads `PrimeField::TWO_INV` of `halo2curves::bn256::Fr`: the constant that
/// the crate gives, the inverse of two.
#[verifier::external_body]
fn fr_two_inv() -> (r: Fr)
    ensures
        r.wf(),
        r@ == two_inv(),
        fmul(r@, 2) == 1,
{
    Fr { repr: halo2curves::bn256::Fr::TWO_INV.to_repr() }
}

/// `after` holds the inverses of `before`: every element that is not zero has
/// been replaced by its inverse, and every zero is left a zero.
pub open spec fn inverted(before: Seq<Fr>, after: Seq<Fr>) -> bool {
    &&& after.len() == before.len()
    &&& forall|i: int|
        0 <= i < before.len() ==> (#[trigger] after[i]).wf() && if before[i]@ == 0 {
            after[i]@ == 0
        } else {
            fmul(after[i]@, before[i]@) == 1
        }
}

/// Replaces every element that is not zero by its inverse; zeros are left as
/// they are.
pub fn batch_invert(values: &mut Vec<Fr>)
    requires
        forall|i: int| 0 <= i < old(values).len() ==> (#[trigger] old(values)@[i]).wf(),
    ensures
        inverted(old(values)@, final(values)@),
{
    fr_batch_invert(values)
}

/// Calls `BatchInvert::batch_invert` of `ff` on the elements: each element
/// that is not zero is replaced by its inverse, and zeros are left as zeros.
#[verifier::external_body]
fn fr_batch_invert(values: &mut Vec<Fr>)
    requires
        forall|i: int| 0 <= i < old(values).len() ==> (#[trigger] old(values)@[i]).wf(),
    ensures
        inverted(old(values)@, final(values)@),
{
    let mut elements: Vec<halo2curves::bn256::Fr> =
        values.iter().map(|v| halo2curves::bn256::Fr::from_repr(v.repr).unwrap()).collect();
    elements.iter_mut().batch_invert();
    for (value, element) in values.iter_mut().zip(elements.iter()) {
        value.repr = element.to_repr();
    }
}

/// Calls `From<u64>` of `halo2curves::bn256::Fr`: the element that the number
/// denotes, encoded canonically.
#[verifier::external_body]
fn fr_from_u64(v: u64) -> (r: Fr)
    ensures
        r@ == v,
{
    Fr { repr: halo2curves::bn256::Fr::from(v).to_repr() }
}

/// Calls `PrimeField::from_repr` of `halo2curves::bn256::Fr`, which accepts
/// exactly the encodings of numbers below the modulus.
#[verifier::external_body]
fn fr_is_canonical(bytes: &[u8; 32]) -> (r: bool)
    ensures
        r == (le_value(bytes@) < fr_modulus()),
{
    bool::from(halo2curves::bn256::Fr::from_repr(*bytes).is_some())
}

/// Calls `Add::add` of `halo2curves::bn256::Fr`: the sum modulo the field's order.
#[verifier::external_body]
fn fr_add(a: &Fr, b: &Fr) -> (r: Fr)
    requires
        a.wf(),
        b.wf(),
    ensures
        r.wf(),
        r@ == fadd(a@, b@),
{
    let x = halo2curves::bn256::Fr::from_repr(a.repr).unwrap();
    let y = halo2curves::bn256::Fr::from_repr(b.repr).unwrap();
    Fr { repr: (x + y).to_repr() }
}

/// Calls `Sub::sub` of `halo2curves::bn256::Fr`: the difference modulo the
/// field's order.
#[verifier::external_body]
fn fr_sub(a: &Fr, b: &Fr) -> (r: Fr)
    requires
        a.wf(),
        b.wf(),
    ensures
        r.wf(),
        r@ == fsub(a@, b@),
{
    let x = halo2curves::bn256::Fr::from_repr(a.repr).unwrap();
    let y = halo2curves::bn256::Fr::from_repr(b.repr).unwrap();
    Fr { repr: (x - y).to_repr() }
}

/// Calls `Mul::mul` of `halo2curves::bn256::Fr`: the product modulo the
/// field's order.
#[verifier::external_body]
fn fr_mul(a: &Fr, b: &Fr) -> (r: Fr)
    requires
        a.wf(),
        b.wf(),
    ensures
        r.wf(),
        r@ == fmul(a@, b@),
{
    let x = halo2curves::bn256::Fr::from_repr(a.repr).unwrap();
    let y = halo2curves::bn256::Fr::from_repr(b.repr).unwrap();
    Fr { repr: (x * y).to_repr() }
}

/// Calls `Neg::neg` of `halo2curves::bn256::Fr`: the additive inverse modulo
/// the field's order.
#[verifier::external_body]
fn fr_neg(a: &Fr) -> (r: Fr)
    requires
        a.wf(),
    ensures
        r.wf(),
        r@ == fneg(a@),
{
    let x = halo2curves::bn256::Fr::from_repr(a.repr).unwrap();
    Fr { repr: (-x).to_repr() }
}

/// Calls `Field::invert` of `halo2curves::bn256::Fr`: nothing for zero, else the
/// element whose product with the argument is one.
#[verifier::external_body]
fn fr_invert(a: &Fr) -> (r: Option<Fr>)
    requires
        a.wf(),
    ensures
        r.is_none() <==> a@ == 0,
        r.is_some() ==> r.unwrap().wf() && fmul(r.unwrap()@, a@) == 1,
{
    let x = halo2curves::bn256::Fr::from_repr(a.repr).unwrap();
    let inv: Option<halo2curves::bn256::Fr> = x.invert().into();
    inv.map(|i| Fr { repr: i.to_repr() })
}

} // verus!
