//! Points of the BN254 curve `y^2 = x^3 + 3`, held by their affine coordinates
//! as canonical little-endian bytes.
//!
//! The group operations are done by `halo2curves`. What they return is named,
//! not written out; that the names form a commutative group is a hypothesis,
//! `group_laws`, under which the sums of this library are stated.

use crate::field::{le_value, lemma_le_value_injective, lemma_le_value_zeros, Fr};
use ff::{Field, PrimeField};
use group::prime::PrimeCurveAffine;
use group::{Curve, Group};
use halo2curves::CurveAffine;
use vstd::prelude::*;

verus! {

/// The order of the base field,
/// `0x30644e72e131a029b85045b68181585d97816a916871ca8d3c208c16d87cfd47`.
#[verifier::opaque]
pub open spec fn fq_modulus() -> nat {
    0x3c208c16d87cfd47u64 as nat + 0x97816a916871ca8du64 as nat * 0x1_0000_0000_0000_0000nat
        + 0xb85045b68181585du64 as nat * 0x1_0000_0000_0000_0000nat * 0x1_0000_0000_0000_0000nat
        + 0x30644e72e131a029u64 as nat * 0x1_0000_0000_0000_0000nat * 0x1_0000_0000_0000_0000nat
        * 0x1_0000_0000_0000_0000nat
}

/// A point as a pair of coordinates; the point at infinity is `(0, 0)`, which
/// is not on the curve.
pub type Coordinates = (nat, nat);

/// The point at infinity, the neutral element of the group.
pub open spec fn identity() -> Coordinates {
    (0, 0)
}

/// The pair is the point at infinity, or a pair of residues that satisfies the
/// curve's equation.
pub open spec fn on_curve(p: Coordinates) -> bool {
    p == identity() || (p.0 < fq_modulus() && p.1 < fq_modulus() && (p.1 * p.1) % fq_modulus() == (
    p.0 * p.0 * p.0 + 3) % fq_modulus())
}

/// The sum of two points, as `halo2curves` computes it.
pub uninterp spec fn g1_sum(a: Coordinates, b: Coordinates) -> Coordinates;

/// The double of a point, as `halo2curves` computes it.
pub uninterp spec fn g1_twice(a: Coordinates) -> Coordinates;

/// The product of a point and a scalar, as `halo2curves` computes it.
pub uninterp spec fn g1_scaled(a: Coordinates, s: nat) -> Coordinates;

/// The difference of two points, as `halo2curves` computes it.
pub uninterp spec fn g1_difference(a: Coordinates, b: Coordinates) -> Coordinates;

/// A point added to itself `k` times.
pub open spec fn scalar_mul(k: nat, p: Coordinates) -> Coordinates
    decreases k,
{
    if k == 0 {
        identity()
    } else {
        g1_sum(scalar_mul((k - 1) as nat, p), p)
    }
}

/// Sums of points of the curve are on the curve.
#[verifier::opaque]
pub open spec fn sums_stay_on_curve() -> bool {
    forall|a: Coordinates, b: Coordinates|
        on_curve(a) && on_curve(b) ==> on_curve(#[trigger] g1_sum(a, b))
}

/// The point at infinity is neutral.
#[verifier::opaque]
pub open spec fn identity_is_neutral() -> bool {
    forall|a: Coordinates| on_curve(a) ==> #[trigger] g1_sum(a, identity()) == a
}

/// Addition commutes.
#[verifier::opaque]
pub open spec fn addition_commutes() -> bool {
    forall|a: Coordinates, b: Coordinates|
        on_curve(a) && on_curve(b) ==> #[trigger] g1_sum(a, b) == g1_sum(b, a)
}

/// Addition associates.
#[verifier::opaque]
pub open spec fn addition_associates() -> bool {
    forall|a: Coordinates, b: Coordinates, c: Coordinates|
        on_curve(a) && on_curve(b) && on_curve(c) ==> #[trigger] g1_sum(g1_sum(a, b), c) == g1_sum(
            a,
            g1_sum(b, c),
        )
}

/// Doubling a point is adding it to itself.
#[verifier::opaque]
pub open spec fn doubling_adds() -> bool {
    forall|a: Coordinates| on_curve(a) ==> #[trigger] g1_twice(a) == g1_sum(a, a)
}

/// Scaling a point by `s` is adding it to itself `s` times.
#[verifier::opaque]
pub open spec fn scaling_adds() -> bool {
    forall|a: Coordinates, s: nat| on_curve(a) ==> #[trigger] g1_scaled(a, s) == scalar_mul(s, a)
}

/// A difference is the point of the curve that, added to what was taken away,
/// gives back what it was taken from.
#[verifier::opaque]
pub open spec fn subtraction_undoes() -> bool {
    forall|a: Coordinates, b: Coordinates|
        on_curve(a) && on_curve(b) ==> on_curve(#[trigger] g1_difference(a, b)) && g1_sum(
            g1_difference(a, b),
            b,
        ) == a
}

/// The group has the order of the scalar field: a point added to itself that
/// often is the point at infinity.
#[verifier::opaque]
pub open spec fn order_annihilates() -> bool {
    forall|a: Coordinates|
        on_curve(a) ==> #[trigger] scalar_mul(crate::field::fr_modulus(), a) == identity()
}

/// The named operations form a commutative group on the points of the curve:
/// sums stay on the curve, the point at infinity is neutral, addition commutes
/// and associates, doubling, scaling and subtracting are what addition makes
/// them, and the group has the order of the scalar field. Nothing in this library proves this of `halo2curves`; what is
/// stated under it holds of every operation that meets it.
pub open spec fn group_laws() -> bool {
    &&& sums_stay_on_curve()
    &&& identity_is_neutral()
    &&& addition_commutes()
    &&& addition_associates()
    &&& doubling_adds()
    &&& scaling_adds()
    &&& subtraction_undoes()
    &&& order_annihilates()
}

/// A point of the curve, or the point at infinity.
#[derive(Clone, Copy, Debug)]
pub struct G1 {
    x: [u8; 32],
    y: [u8; 32],
}

impl View for G1 {
    type V = Coordinates;

    closed spec fn view(&self) -> Coordinates {
        (le_value(self.x@), le_value(self.y@))
    }
}

impl PartialEq for G1 {
    fn eq(&self, other: &G1) -> (r: bool) {
        let mut i: usize = 0;
        while i < 32
            invariant
                i <= 32,
                forall|j: int| 0 <= j < i ==> self.x@[j] == other.x@[j] && self.y@[j] == other.y@[j],
            decreases 32 - i,
        {
            if self.x[i] != other.x[i] || self.y[i] != other.y[i] {
                proof {
                    if self@ == other@ {
                        lemma_le_value_injective(self.x@, other.x@);
                        lemma_le_value_injective(self.y@, other.y@);
                    }
                }
                return false;
            }
            i += 1;
        }
        assert(self.x@ =~= other.x@);
        assert(self.y@ =~= other.y@);
        true
    }
}

impl vstd::std_specs::cmp::PartialEqSpecImpl for G1 {
    open spec fn obeys_eq_spec() -> bool {
        true
    }

    open spec fn eq_spec(&self, other: &G1) -> bool {
        self@ == other@
    }
}

impl Eq for G1 {

}

impl G1 {
    /// The coordinates are canonical encodings of a point of the curve.
    pub open spec fn wf(&self) -> bool {
        on_curve(self@)
    }

    /// The little-endian encodings of the two coordinates.
    pub closed spec fn bytes(&self) -> (Seq<u8>, Seq<u8>) {
        (self.x@, self.y@)
    }

    /// Points with one view are one point.
    pub proof fn lemma_view_injective(&self, other: &G1)
        requires
            self@ == other@,
        ensures
            *self == *other,
    {
        lemma_le_value_injective(self.x@, other.x@);
        lemma_le_value_injective(self.y@, other.y@);
        assert(self.x =~= other.x);
        assert(self.y =~= other.y);
    }

    /// The point at infinity.
    pub fn identity() -> (r: G1)
        ensures
            r.wf(),
            r@ == identity(),
    {
        let r = G1 { x: [0u8;32], y: [0u8;32] };
        proof {
            lemma_le_value_zeros(r.x@);
            lemma_le_value_zeros(r.y@);
        }
        r
    }

    /// Whether this is the point at infinity.
    pub fn is_identity(&self) -> (r: bool)
        ensures
            r == (self@ == identity()),
    {
        let zero = G1::identity();
        *self == zero
    }

    /// The point with the given coordinates; `None` when they are not canonical
    /// encodings or the point is not on the curve.
    pub fn from_xy(x: [u8; 32], y: [u8; 32]) -> (r: Option<G1>)
        ensures
            r.is_some() <==> on_curve((le_value(x@), le_value(y@))),
            r.is_some() ==> r.unwrap().wf() && r.unwrap().bytes() == (x@, y@),
            r.is_some() ==> r.unwrap()@ == (le_value(x@), le_value(y@)),
    {
        if g1_is_on_curve(&x, &y) {
            Some(G1 { x, y })
        } else {
            None
        }
    }

    /// The little-endian encodings of the two coordinates.
    pub fn to_xy(&self) -> (r: ([u8; 32], [u8; 32]))
        ensures
            (r.0@, r.1@) == self.bytes(),
            (le_value(r.0@), le_value(r.1@)) == self@,
    {
        (self.x, self.y)
    }

    /// The curve's generator, the point `(1, 2)`.
    pub fn generator() -> (r: G1)
        ensures
            r.wf(),
            r@ == (1nat, 2nat),
    {
        let mut x = [0u8;32];
        let mut y = [0u8;32];
        x[0] = 1;
        y[0] = 2;
        let r = G1 { x, y };
        proof {
            lemma_le_value_zeros(r.x@.skip(1));
            lemma_le_value_zeros(r.y@.skip(1));
            lemma_fq_modulus_large();
            assert((2nat * 2nat) == 4 && (1nat * 1nat * 1nat + 3) == 4) by (nonlinear_arith);
        }
        r
    }

    /// The sum of two points.
    pub fn add(&self, rhs: &G1) -> (r: G1)
        requires
            self.wf(),
            rhs.wf(),
        ensures
            r.wf(),
            r@ == g1_sum(self@, rhs@),
    {
        g1_add(self, rhs)
    }

    /// The point added to itself.
    pub fn double(&self) -> (r: G1)
        requires
            self.wf(),
        ensures
            r.wf(),
            r@ == g1_twice(self@),
    {
        g1_double(self)
    }

    /// The difference of two points.
    pub fn sub(&self, rhs: &G1) -> (r: G1)
        requires
            self.wf(),
            rhs.wf(),
        ensures
            r.wf(),
            r@ == g1_difference(self@, rhs@),
    {
        g1_sub(self, rhs)
    }

    /// The point scaled by a scalar.
    pub fn mul(&self, scalar: &Fr) -> (r: G1)
        requires
            self.wf(),
            scalar.wf(),
        ensures
            r.wf(),
            r@ == g1_scaled(self@, scalar@),
    {
        g1_mul(self, scalar)
    }
}

/// The product of two residues of the base field.
pub open spec fn qmul(a: nat, b: nat) -> nat {
    (a * b) % fq_modulus()
}

/// An element of the base field of the curve, held as canonical little-endian
/// bytes.
#[derive(Clone, Copy, Debug)]
pub struct Fq {
    repr: [u8; 32],
}

impl View for Fq {
    type V = nat;

    closed spec fn view(&self) -> nat {
        le_value(self.repr@)
    }
}

impl Fq {
    /// The bytes are a canonical encoding: they denote a number below the
    /// modulus.
    pub open spec fn wf(&self) -> bool {
        self@ < fq_modulus()
    }

    /// The little-endian encoding that the element holds.
    pub closed spec fn bytes(&self) -> Seq<u8> {
        self.repr@
    }

    /// Decodes 32 little-endian bytes; `None` when they denote a number that is
    /// not below the modulus.
    pub fn from_repr(bytes: [u8; 32]) -> (r: Option<Fq>)
        ensures
            r.is_some() <==> le_value(bytes@) < fq_modulus(),
            r.is_some() ==> r.unwrap().wf() && r.unwrap().bytes() == bytes@ && r.unwrap()@
                == le_value(bytes@),
    {
        if fq_is_canonical(&bytes) {
            Some(Fq { repr: bytes })
        } else {
            None
        }
    }

    /// The canonical little-endian encoding.
    pub fn to_repr(&self) -> (r: [u8; 32])
        ensures
            r@ == self.bytes(),
            le_value(r@) == self@,
    {
        self.repr
    }

    /// The product in the field.
    pub fn mul(&self, rhs: &Fq) -> (r: Fq)
        requires
            self.wf(),
            rhs.wf(),
        ensures
            r.wf(),
            r@ == qmul(self@, rhs@),
    {
        fq_mul(self, rhs)
    }

    /// The multiplicative inverse; `None` for zero.
    pub fn invert(&self) -> (r: Option<Fq>)
        requires
            self.wf(),
        ensures
            r.is_none() <==> self@ == 0,
            r.is_some() ==> r.unwrap().wf() && qmul(r.unwrap()@, self@) == 1,
    {
        fq_invert(self)
    }
}

/// Calls `PrimeField::from_repr` of `halo2curves::bn256::Fq`, which accepts
/// exactly the encodings of numbers below the modulus.
#[verifier::external_body]
fn fq_is_canonical(bytes: &[u8; 32]) -> (r: bool)
    ensures
        r == (le_value(bytes@) < fq_modulus()),
{
    bool::from(halo2curves::bn256::Fq::from_repr(*bytes).is_some())
}

/// Calls `Mul::mul` of `halo2curves::bn256::Fq`: the product modulo the
/// field's order.
#[verifier::external_body]
fn fq_mul(a: &Fq, b: &Fq) -> (r: Fq)
    requires
        a.wf(),
        b.wf(),
    ensures
        r.wf(),
        r@ == qmul(a@, b@),
{
    let x = halo2curves::bn256::Fq::from_repr(a.repr).unwrap();
    let y = halo2curves::bn256::Fq::from_repr(b.repr).unwrap();
    Fq { repr: (x * y).to_repr() }
}

/// Calls `Field::invert` of `halo2curves::bn256::Fq`: nothing for zero, else
/// the element whose product with the argument is one.
#[verifier::external_body]
fn fq_invert(a: &Fq) -> (r: Option<Fq>)
    requires
        a.wf(),
    ensures
        r.is_none() <==> a@ == 0,
        r.is_some() ==> r.unwrap().wf() && qmul(r.unwrap()@, a@) == 1,
{
    let x = halo2curves::bn256::Fq::from_repr(a.repr).unwrap();
    let inv: Option<halo2curves::bn256::Fq> = x.invert().into();
    inv.map(|i| Fq { repr: i.to_repr() })
}

/// The base field's modulus is larger than any 64-bit number.
pub proof fn lemma_fq_modulus_large()
    ensures
        fq_modulus() > 0xffff_ffff_ffff_ffff,
{
    reveal(fq_modulus);
    assert(0x97816a916871ca8du64 as nat * 0x1_0000_0000_0000_0000nat > 0xffff_ffff_ffff_ffff)
        by (nonlinear_arith);
    assert(0xb85045b68181585du64 as nat * 0x1_0000_0000_0000_0000nat * 0x1_0000_0000_0000_0000nat
        >= 0) by (nonlinear_arith);
    assert(0x30644e72e131a029u64 as nat * 0x1_0000_0000_0000_0000nat * 0x1_0000_0000_0000_0000nat
        * 0x1_0000_0000_0000_0000nat >= 0) by (nonlinear_arith);
}

/// Calls `CurveAffine::from_xy` of `halo2curves::bn256::G1Affine`, after
/// `PrimeField::from_repr` on each coordinate: together they accept exactly the
/// canonical encodings of the point at infinity and of the points that satisfy
/// the curve's equation.
#[verifier::external_body]
fn g1_is_on_curve(x: &[u8; 32], y: &[u8; 32]) -> (r: bool)
    ensures
        r == on_curve((le_value(x@), le_value(y@))),
{
    let fx: Option<halo2curves::bn256::Fq> = halo2curves::bn256::Fq::from_repr(*x).into();
    let fy: Option<halo2curves::bn256::Fq> = halo2curves::bn256::Fq::from_repr(*y).into();
    match (fx, fy) {
        (Some(fx), Some(fy)) => bool::from(halo2curves::bn256::G1Affine::from_xy(fx, fy).is_some()),
        _ => false,
    }
}

/// Calls `Add::add` of `halo2curves::bn256::G1Affine`: the result is a point of
/// the curve, and is what `g1_sum` names.
#[verifier::external_body]
fn g1_add(a: &G1, b: &G1) -> (r: G1)
    requires
        a.wf(),
        b.wf(),
    ensures
        r.wf(),
        r@ == g1_sum(a@, b@),
{
    let fq = |v: &[u8; 32]| halo2curves::bn256::Fq::from_repr(*v).unwrap();
    let p = halo2curves::bn256::G1Affine { x: fq(&a.x), y: fq(&a.y) };
    let q = halo2curves::bn256::G1Affine { x: fq(&b.x), y: fq(&b.y) };
    let s = (p + q).to_affine();
    G1 { x: s.x.to_repr(), y: s.y.to_repr() }
}

/// Calls `Sub::sub` of `halo2curves::bn256::G1Affine`: the result is a point of
/// the curve, and is what `g1_difference` names.
#[verifier::external_body]
fn g1_sub(a: &G1, b: &G1) -> (r: G1)
    requires
        a.wf(),
        b.wf(),
    ensures
        r.wf(),
        r@ == g1_difference(a@, b@),
{
    let fq = |v: &[u8; 32]| halo2curves::bn256::Fq::from_repr(*v).unwrap();
    let p = halo2curves::bn256::G1Affine { x: fq(&a.x), y: fq(&a.y) };
    let q = halo2curves::bn256::G1Affine { x: fq(&b.x), y: fq(&b.y) };
    let s = (p - q).to_affine();
    G1 { x: s.x.to_repr(), y: s.y.to_repr() }
}

/// Calls `Group::double` of `halo2curves::bn256::G1`: the result is a point of
/// the curve, and is what `g1_twice` names.
#[verifier::external_body]
fn g1_double(a: &G1) -> (r: G1)
    requires
        a.wf(),
    ensures
        r.wf(),
        r@ == g1_twice(a@),
{
    let fq = |v: &[u8; 32]| halo2curves::bn256::Fq::from_repr(*v).unwrap();
    let p = halo2curves::bn256::G1Affine { x: fq(&a.x), y: fq(&a.y) };
    let s = p.to_curve().double().to_affine();
    G1 { x: s.x.to_repr(), y: s.y.to_repr() }
}

/// Calls `Mul::mul` of `halo2curves::bn256::G1Affine` with a scalar: the result
/// is a point of the curve, and is what `g1_scaled` names.
#[verifier::external_body]
fn g1_mul(a: &G1, scalar: &Fr) -> (r: G1)
    requires
        a.wf(),
        scalar.wf(),
    ensures
        r.wf(),
        r@ == g1_scaled(a@, scalar@),
{
    let fq = |v: &[u8; 32]| halo2curves::bn256::Fq::from_repr(*v).unwrap();
    let p = halo2curves::bn256::G1Affine { x: fq(&a.x), y: fq(&a.y) };
    let k = halo2curves::bn256::Fr::from_repr(scalar.to_repr()).unwrap();
    let s = (p * k).to_affine();
    G1 { x: s.x.to_repr(), y: s.y.to_repr() }
}

} // verus!
