//! The discrete Fourier transform over the scalar field, of field elements and
//! of curve points alike: what the transform is, and the algebra that the fast
//! transform rests on.

use crate::arithmetic::is_pow2;
use crate::curve::{
    g1_difference, g1_scaled, g1_sum, group_laws, identity, on_curve, order_annihilates,
    scalar_mul, Coordinates, G1,
};
use crate::field::{
    fadd, fmul, fpow, fr_modulus, fsub, lemma_fadd_associates, lemma_field_units,
    lemma_fmul_associates, lemma_fmul_commutes, lemma_fmul_distributes, lemma_fneg_is_scaling,
    lemma_fpow_adds, lemma_fpow_bounded, lemma_fpow_first, lemma_fpow_muls, lemma_fpow_one,
    lemma_fpow_square, lemma_fsub_laws, lemma_modulus_large, lemma_residues_bounded,
    lemma_shl_pow_adds, lemma_shl_pow_positive, root_of_unity, root_of_unity_inv, shl_pow,
    two_inv, Fr,
    TWO_ADICITY,
};
use crate::sums::{
    lemma_associates, lemma_closed, lemma_commutes, lemma_difference, lemma_neutral,
    lemma_scalar_mul_adds, lemma_scalar_mul_distributes, lemma_scalar_mul_identity,
    lemma_scalar_mul_muls, lemma_scalar_mul_on_curve, lemma_scalar_mul_small, lemma_scaled,
};
use vstd::arithmetic::div_mod::*;
use vstd::prelude::*;

verus! {

/// What a transform can run over: elements that can be added, subtracted and
/// scaled by a scalar. Field elements are such elements, and so are the points
/// of the curve.
pub trait FftGroup: Copy + Sized {
    /// What an element is, mathematically.
    type Model;

    /// The mathematical value of an element.
    spec fn model(&self) -> Self::Model;

    /// The value is one that elements take.
    spec fn valid(m: Self::Model) -> bool;

    /// The neutral element.
    spec fn neutral() -> Self::Model;

    /// The sum of two elements.
    spec fn plus(a: Self::Model, b: Self::Model) -> Self::Model;

    /// The difference of two elements.
    spec fn minus(a: Self::Model, b: Self::Model) -> Self::Model;

    /// An element scaled by a scalar.
    spec fn times(s: nat, a: Self::Model) -> Self::Model;

    /// The elements are the scalars themselves, not points scaled by them.
    spec fn scalars() -> bool;

    /// Whether a transform of such elements is one of field elements.
    fn is_field() -> (r: bool)
        ensures
            r == Self::scalars(),
    ;

    /// Adds two elements.
    fn group_add(&self, rhs: &Self) -> (r: Self)
        requires
            Self::valid(self.model()),
            Self::valid(rhs.model()),
        ensures
            Self::valid(r.model()),
            r.model() == Self::plus(self.model(), rhs.model()),
    ;

    /// Subtracts an element from another.
    fn group_sub(&self, rhs: &Self) -> (r: Self)
        requires
            Self::valid(self.model()),
            Self::valid(rhs.model()),
        ensures
            Self::valid(r.model()),
            r.model() == Self::minus(self.model(), rhs.model()),
    ;

    /// Scales an element.
    fn group_scale(&self, by: &Fr) -> (r: Self)
        requires
            Self::valid(self.model()),
            by.wf(),
        ensures
            Self::valid(r.model()),
            r.model() == Self::times(by@, self.model()),
    ;
}

/// Sums, differences and scaled elements are elements, and so is zero.
#[verifier::opaque]
pub open spec fn stays_valid<G: FftGroup>() -> bool {
    &&& G::valid(G::neutral())
    &&& forall|a: G::Model, b: G::Model|
        G::valid(a) && G::valid(b) ==> G::valid(#[trigger] G::plus(a, b))
    &&& forall|a: G::Model, b: G::Model|
        G::valid(a) && G::valid(b) ==> G::valid(#[trigger] G::minus(a, b))
    &&& forall|s: nat, a: G::Model| G::valid(a) ==> G::valid(#[trigger] G::times(s, a))
}

/// Zero is neutral.
#[verifier::opaque]
pub open spec fn zero_is_neutral<G: FftGroup>() -> bool {
    forall|a: G::Model| G::valid(a) ==> #[trigger] G::plus(a, G::neutral()) == a
}

/// Addition commutes.
#[verifier::opaque]
pub open spec fn plus_commutes<G: FftGroup>() -> bool {
    forall|a: G::Model, b: G::Model|
        G::valid(a) && G::valid(b) ==> #[trigger] G::plus(a, b) == G::plus(b, a)
}

/// Addition associates.
#[verifier::opaque]
pub open spec fn plus_associates<G: FftGroup>() -> bool {
    forall|a: G::Model, b: G::Model, c: G::Model|
        G::valid(a) && G::valid(b) && G::valid(c) ==> #[trigger] G::plus(G::plus(a, b), c)
            == G::plus(a, G::plus(b, c))
}

/// Scaling a sum is adding the scaled terms, and scaling zero gives zero.
#[verifier::opaque]
pub open spec fn times_distributes<G: FftGroup>() -> bool {
    &&& forall|s: nat, a: G::Model, b: G::Model|
        G::valid(a) && G::valid(b) ==> #[trigger] G::times(s, G::plus(a, b)) == G::plus(
            G::times(s, a),
            G::times(s, b),
        )
    &&& forall|s: nat| #[trigger] G::times(s, G::neutral()) == G::neutral()
}

/// Scaling by a product of scalars is scaling twice, and scaling by one
/// changes nothing.
#[verifier::opaque]
pub open spec fn times_composes<G: FftGroup>() -> bool {
    &&& forall|s: nat, t: nat, a: G::Model|
        G::valid(a) ==> #[trigger] G::times(fmul(s, t), a) == G::times(s, G::times(t, a))
    &&& forall|a: G::Model| G::valid(a) ==> #[trigger] G::times(1, a) == a
}

/// Subtracting is adding what was scaled by minus one.
#[verifier::opaque]
pub open spec fn minus_negates<G: FftGroup>() -> bool {
    forall|a: G::Model, b: G::Model|
        G::valid(a) && G::valid(b) ==> #[trigger] G::minus(a, b) == G::plus(
            a,
            G::times((fr_modulus() - 1) as nat, b),
        )
}

/// Scaling by a sum of scalars is adding what each of them scales to, and
/// scaling by zero gives zero.
#[verifier::opaque]
pub open spec fn times_collects<G: FftGroup>() -> bool {
    &&& forall|s: nat, t: nat, a: G::Model|
        G::valid(a) ==> #[trigger] G::times(fadd(s, t), a) == G::plus(
            G::times(s, a),
            G::times(t, a),
        )
    &&& forall|a: G::Model| G::valid(a) ==> #[trigger] G::times(0, a) == G::neutral()
}

/// The laws of a module over the scalar field, as far as the transform and
/// its inversion need them.
pub open spec fn module_laws<G: FftGroup>() -> bool {
    &&& stays_valid::<G>()
    &&& zero_is_neutral::<G>()
    &&& plus_commutes::<G>()
    &&& plus_associates::<G>()
    &&& times_distributes::<G>()
    &&& times_composes::<G>()
    &&& times_collects::<G>()
    &&& minus_negates::<G>()
}

impl FftGroup for Fr {
    type Model = nat;

    open spec fn model(&self) -> nat {
        self@
    }

    open spec fn valid(m: nat) -> bool {
        m < fr_modulus()
    }

    open spec fn neutral() -> nat {
        0
    }

    open spec fn plus(a: nat, b: nat) -> nat {
        fadd(a, b)
    }

    open spec fn minus(a: nat, b: nat) -> nat {
        fsub(a, b)
    }

    open spec fn scalars() -> bool {
        true
    }

    fn is_field() -> (r: bool) {
        true
    }

    open spec fn times(s: nat, a: nat) -> nat {
        fmul(s, a)
    }

    fn group_add(&self, rhs: &Fr) -> (r: Fr) {
        self.add(rhs)
    }

    fn group_sub(&self, rhs: &Fr) -> (r: Fr) {
        self.sub(rhs)
    }

    fn group_scale(&self, by: &Fr) -> (r: Fr) {
        by.mul(self)
    }
}

/// Scaling a point by a number and by its residue give the same point.
pub proof fn lemma_scalar_mul_residue(x: nat, p: Coordinates)
    requires
        group_laws(),
        on_curve(p),
    ensures
        scalar_mul(x % fr_modulus(), p) == scalar_mul(x, p),
{
    reveal(order_annihilates);
    lemma_modulus_large();
    let m = fr_modulus();
    let q = x / m;
    let rem = x % m;
    lemma_fundamental_div_mod(x as int, m as int);
    assert(x == q * m + rem) by (nonlinear_arith)
        requires
            x == m * q + rem,
    ;
    lemma_scalar_mul_adds(q * m, rem, p);
    lemma_scalar_mul_muls(q, m, p);
    lemma_scalar_mul_identity(q);
    lemma_scalar_mul_on_curve(rem, p);
    lemma_neutral(scalar_mul(rem, p));
}

impl FftGroup for G1 {
    type Model = Coordinates;

    open spec fn model(&self) -> Coordinates {
        self@
    }

    open spec fn valid(m: Coordinates) -> bool {
        on_curve(m)
    }

    open spec fn neutral() -> Coordinates {
        identity()
    }

    open spec fn plus(a: Coordinates, b: Coordinates) -> Coordinates {
        g1_sum(a, b)
    }

    open spec fn minus(a: Coordinates, b: Coordinates) -> Coordinates {
        g1_difference(a, b)
    }

    open spec fn scalars() -> bool {
        false
    }

    fn is_field() -> (r: bool) {
        false
    }

    open spec fn times(s: nat, a: Coordinates) -> Coordinates {
        g1_scaled(a, s)
    }

    fn group_add(&self, rhs: &G1) -> (r: G1) {
        self.add(rhs)
    }

    fn group_sub(&self, rhs: &G1) -> (r: G1) {
        self.sub(rhs)
    }

    fn group_scale(&self, by: &Fr) -> (r: G1) {
        self.mul(by)
    }
}

/// The sum of two elements is an element.
pub proof fn lemma_plus_valid<G: FftGroup>(a: G::Model, b: G::Model)
    requires
        module_laws::<G>(),
        G::valid(a),
        G::valid(b),
    ensures
        G::valid(G::plus(a, b)),
        G::valid(G::minus(a, b)),
{
    reveal(stays_valid);
}

/// A scaled element is an element, and so is zero.
pub proof fn lemma_times_valid<G: FftGroup>(s: nat, a: G::Model)
    requires
        module_laws::<G>(),
        G::valid(a),
    ensures
        G::valid(G::times(s, a)),
        G::valid(G::neutral()),
{
    reveal(stays_valid);
}

/// Zero is neutral on both sides.
pub proof fn lemma_plus_neutral<G: FftGroup>(a: G::Model)
    requires
        module_laws::<G>(),
        G::valid(a),
    ensures
        G::plus(a, G::neutral()) == a,
        G::plus(G::neutral(), a) == a,
{
    reveal(stays_valid);
    reveal(zero_is_neutral);
    reveal(plus_commutes);
}

/// Addition associates.
pub proof fn lemma_plus_associates<G: FftGroup>(a: G::Model, b: G::Model, c: G::Model)
    requires
        module_laws::<G>(),
        G::valid(a),
        G::valid(b),
        G::valid(c),
    ensures
        G::plus(G::plus(a, b), c) == G::plus(a, G::plus(b, c)),
{
    reveal(plus_associates);
}

/// Addition commutes.
pub proof fn lemma_plus_commutes<G: FftGroup>(a: G::Model, b: G::Model)
    requires
        module_laws::<G>(),
        G::valid(a),
        G::valid(b),
    ensures
        G::plus(a, b) == G::plus(b, a),
{
    reveal(plus_commutes);
}

/// Two sums of two elements can trade their inner terms.
pub proof fn lemma_plus_shuffle<G: FftGroup>(a: G::Model, b: G::Model, c: G::Model, d: G::Model)
    requires
        module_laws::<G>(),
        G::valid(a),
        G::valid(b),
        G::valid(c),
        G::valid(d),
    ensures
        G::plus(G::plus(a, b), G::plus(c, d)) == G::plus(G::plus(a, c), G::plus(b, d)),
{
    lemma_plus_valid::<G>(a, b);
    lemma_plus_valid::<G>(c, d);
    lemma_plus_valid::<G>(a, c);
    lemma_plus_valid::<G>(b, d);
    lemma_plus_valid::<G>(b, c);
    lemma_plus_valid::<G>(c, b);
    lemma_plus_associates::<G>(a, b, G::plus(c, d));
    lemma_plus_associates::<G>(b, c, d);
    lemma_plus_commutes::<G>(b, c);
    lemma_plus_associates::<G>(c, b, d);
    lemma_plus_associates::<G>(a, c, G::plus(b, d));
}

/// Scaling a sum is adding the scaled terms, and scaling zero gives zero.
pub proof fn lemma_times_distributes<G: FftGroup>(s: nat, a: G::Model, b: G::Model)
    requires
        module_laws::<G>(),
        G::valid(a),
        G::valid(b),
    ensures
        G::times(s, G::plus(a, b)) == G::plus(G::times(s, a), G::times(s, b)),
        G::times(s, G::neutral()) == G::neutral(),
{
    reveal(times_distributes);
}

/// Scaling by a product of scalars is scaling twice, and scaling by one
/// changes nothing.
pub proof fn lemma_times_composes<G: FftGroup>(s: nat, t: nat, a: G::Model)
    requires
        module_laws::<G>(),
        G::valid(a),
    ensures
        G::times(fmul(s, t), a) == G::times(s, G::times(t, a)),
        G::times(1, a) == a,
{
    reveal(times_composes);
}

/// Scaling by a sum of scalars is adding what each of them scales to, and
/// scaling by zero gives zero.
pub proof fn lemma_times_collects<G: FftGroup>(s: nat, t: nat, a: G::Model)
    requires
        module_laws::<G>(),
        G::valid(a),
    ensures
        G::times(fadd(s, t), a) == G::plus(G::times(s, a), G::times(t, a)),
        G::times(0, a) == G::neutral(),
{
    reveal(times_collects);
}

/// Subtracting is adding what was scaled by minus one.
pub proof fn lemma_minus_negates<G: FftGroup>(a: G::Model, b: G::Model)
    requires
        module_laws::<G>(),
        G::valid(a),
        G::valid(b),
    ensures
        G::minus(a, b) == G::plus(a, G::times((fr_modulus() - 1) as nat, b)),
{
    reveal(minus_negates);
}

/// Every value of the list is one that elements take.
pub open spec fn all_valid<G: FftGroup>(a: Seq<G::Model>) -> bool {
    forall|i: int| 0 <= i < a.len() ==> G::valid(#[trigger] a[i])
}

/// The values of a list of elements.
pub open spec fn models<G: FftGroup>(a: Seq<G>) -> Seq<G::Model> {
    a.map_values(|x: G| x.model())
}

/// Term `j` of the transform at frequency `k`: element `j` scaled by the
/// root raised to `j * k`.
pub open spec fn dft_term<G: FftGroup>(a: Seq<G::Model>, root: nat, k: nat, j: nat) -> G::Model {
    G::times(fpow(root, j * k), a[j as int])
}

/// The first `n` terms of the transform at frequency `k`, added up.
pub open spec fn dft_sum<G: FftGroup>(a: Seq<G::Model>, root: nat, k: nat, n: nat) -> G::Model
    decreases n,
{
    if n == 0 {
        G::neutral()
    } else {
        G::plus(dft_sum::<G>(a, root, k, (n - 1) as nat), dft_term::<G>(a, root, k, (n - 1) as nat))
    }
}

/// `out` is the discrete Fourier transform of `a` at `root`: element `k` of
/// `out` is the sum over `j` of element `j` of `a` scaled by `root^(j * k)`.
pub open spec fn is_dft<G: FftGroup>(out: Seq<G::Model>, a: Seq<G::Model>, root: nat) -> bool {
    &&& out.len() == a.len()
    &&& forall|k: int|
        0 <= k < a.len() ==> #[trigger] out[k] == dft_sum::<G>(a, root, k as nat, a.len())
}

/// The elements at the even places.
pub open spec fn evens<T>(a: Seq<T>) -> Seq<T> {
    Seq::new(a.len() / 2, |j: int| a[2 * j])
}

/// The elements at the odd places.
pub open spec fn odds<T>(a: Seq<T>) -> Seq<T> {
    Seq::new(a.len() / 2, |j: int| a[2 * j + 1])
}

/// Element `k` of what the butterflies make of the transforms `e` of the
/// even-placed and `o` of the odd-placed elements: in the lower half `e[k]` plus
/// `o[k]` scaled by `root^k`, in the upper half their difference.
pub open spec fn butterfly<G: FftGroup>(
    e: Seq<G::Model>,
    o: Seq<G::Model>,
    root: nat,
    half: int,
    k: int,
) -> G::Model {
    if k < half {
        G::plus(e[k], G::times(fpow(root, k as nat), o[k]))
    } else {
        G::minus(e[k - half], G::times(fpow(root, (k - half) as nat), o[k - half]))
    }
}

/// What the fast transform computes, operation for operation: a single
/// element is left as it is; else the even-placed and the odd-placed elements are
/// transformed at the square of the root, and butterflies join the two halves.
pub open spec fn butterflies<G: FftGroup>(a: Seq<G::Model>, root: nat) -> Seq<G::Model>
    decreases a.len(),
{
    if a.len() <= 1 {
        a
    } else {
        let half = (a.len() / 2) as int;
        let e = butterflies::<G>(evens(a), fmul(root, root));
        let o = butterflies::<G>(odds(a), fmul(root, root));
        Seq::new((2 * half) as nat, |k: int| butterfly::<G>(e, o, root, half, k))
    }
}

/// The even-placed terms of the transform at frequency `k`, the first `h` of
/// them added up.
pub open spec fn even_part<G: FftGroup>(a: Seq<G::Model>, root: nat, k: nat, h: nat) -> G::Model
    decreases h,
{
    if h == 0 {
        G::neutral()
    } else {
        G::plus(
            even_part::<G>(a, root, k, (h - 1) as nat),
            dft_term::<G>(a, root, k, (2 * (h - 1)) as nat),
        )
    }
}

/// The odd-placed terms of the transform at frequency `k`, the first `h` of
/// them added up.
pub open spec fn odd_part<G: FftGroup>(a: Seq<G::Model>, root: nat, k: nat, h: nat) -> G::Model
    decreases h,
{
    if h == 0 {
        G::neutral()
    } else {
        G::plus(
            odd_part::<G>(a, root, k, (h - 1) as nat),
            dft_term::<G>(a, root, k, (2 * (h - 1) + 1) as nat),
        )
    }
}

/// Sums of terms are elements.
pub proof fn lemma_dft_sum_valid<G: FftGroup>(a: Seq<G::Model>, root: nat, k: nat, n: nat)
    requires
        module_laws::<G>(),
        all_valid::<G>(a),
        n <= a.len(),
    ensures
        G::valid(dft_sum::<G>(a, root, k, n)),
    decreases n,
{
    reveal(stays_valid);
    if n > 0 {
        lemma_dft_sum_valid::<G>(a, root, k, (n - 1) as nat);
        lemma_times_valid::<G>(fpow(root, ((n - 1) * k) as nat), a[n - 1]);
        lemma_plus_valid::<G>(
            dft_sum::<G>(a, root, k, (n - 1) as nat),
            dft_term::<G>(a, root, k, (n - 1) as nat),
        );
    }
}

/// Sums of even-placed and of odd-placed terms are elements.
pub proof fn lemma_parts_valid<G: FftGroup>(a: Seq<G::Model>, root: nat, k: nat, h: nat)
    requires
        module_laws::<G>(),
        all_valid::<G>(a),
        2 * h <= a.len(),
    ensures
        G::valid(even_part::<G>(a, root, k, h)),
        G::valid(odd_part::<G>(a, root, k, h)),
    decreases h,
{
    if h == 0 {
        reveal(stays_valid);
    } else {
        let g = (h - 1) as nat;
        lemma_parts_valid::<G>(a, root, k, g);
        lemma_times_valid::<G>(fpow(root, ((2 * g) * k) as nat), a[(2 * g) as int]);
        lemma_times_valid::<G>(fpow(root, ((2 * g + 1) * k) as nat), a[(2 * g + 1) as int]);
        lemma_plus_valid::<G>(even_part::<G>(a, root, k, g), dft_term::<G>(a, root, k, 2 * g));
        lemma_plus_valid::<G>(odd_part::<G>(a, root, k, g), dft_term::<G>(a, root, k, 2 * g + 1));
    }
}

/// The transform splits into its even-placed and its odd-placed terms.
pub proof fn lemma_dft_splits<G: FftGroup>(a: Seq<G::Model>, root: nat, k: nat, h: nat)
    requires
        module_laws::<G>(),
        all_valid::<G>(a),
        2 * h <= a.len(),
    ensures
        dft_sum::<G>(a, root, k, 2 * h) == G::plus(
            even_part::<G>(a, root, k, h),
            odd_part::<G>(a, root, k, h),
        ),
    decreases h,
{
    if h == 0 {
        reveal(stays_valid);
        lemma_plus_neutral::<G>(G::neutral());
    } else {
        let g = (h - 1) as nat;
        lemma_dft_splits::<G>(a, root, k, g);
        lemma_parts_valid::<G>(a, root, k, g);
        let te = dft_term::<G>(a, root, k, 2 * g);
        let to = dft_term::<G>(a, root, k, 2 * g + 1);
        lemma_times_valid::<G>(fpow(root, ((2 * g) * k) as nat), a[(2 * g) as int]);
        lemma_times_valid::<G>(fpow(root, ((2 * g + 1) * k) as nat), a[(2 * g + 1) as int]);
        let e = even_part::<G>(a, root, k, g);
        let o = odd_part::<G>(a, root, k, g);
        // unfold the sum twice
        assert(dft_sum::<G>(a, root, k, 2 * h) == G::plus(
            G::plus(dft_sum::<G>(a, root, k, 2 * g), te),
            to,
        )) by {
            assert(2 * h - 1 == 2 * g + 1);
            assert((2 * h - 1) as nat - 1 == 2 * g);
            reveal_with_fuel(dft_sum, 3);
        }
        lemma_plus_valid::<G>(e, o);
        lemma_plus_associates::<G>(G::plus(e, o), te, to);
        lemma_plus_shuffle::<G>(e, o, te, to);
    }
}

/// The even-placed terms at frequency `k`, and at frequency `k + h`, are the
/// terms of the transform of the even-placed elements at the square of the root.
pub proof fn lemma_even_part<G: FftGroup>(
    a: Seq<G::Model>,
    root: nat,
    k: nat,
    h: nat,
    upto: nat,
)
    requires
        module_laws::<G>(),
        all_valid::<G>(a),
        a.len() == 2 * h,
        upto <= h,
        fpow(root, 2 * h) == 1,
    ensures
        even_part::<G>(a, root, k, upto) == dft_sum::<G>(evens(a), fmul(root, root), k, upto),
        even_part::<G>(a, root, k + h, upto) == dft_sum::<G>(
            evens(a),
            fmul(root, root),
            k,
            upto,
        ),
    decreases upto,
{
    if upto > 0 {
        let j = (upto - 1) as nat;
        lemma_even_part::<G>(a, root, k, h, j);
        assert(evens(a)[j as int] == a[(2 * j) as int]);
        lemma_fpow_square(root, j * k);
        assert(2 * (j * k) == (2 * j) * k) by (nonlinear_arith);
        // at frequency k + h the extra factor is a power of root^(2h) = 1
        assert((2 * j) * (k + h) == (2 * j) * k + (2 * h) * j) by (nonlinear_arith);
        lemma_fpow_adds(root, (2 * j) * k, (2 * h) * j);
        lemma_fpow_muls(root, 2 * h, j);
        lemma_fpow_one(j);
        lemma_fpow_bounded(root, (2 * j) * k);
        lemma_field_units(fpow(root, (2 * j) * k));
    }
}

/// The odd-placed terms at frequency `k` are the terms of the transform of the
/// odd-placed elements at the square of the root, scaled by `root^k`; at
/// frequency `k + h` they are those scaled by minus `root^k`, where `root^h` is
/// minus one.
pub proof fn lemma_odd_part<G: FftGroup>(a: Seq<G::Model>, root: nat, k: nat, h: nat, upto: nat)
    requires
        module_laws::<G>(),
        all_valid::<G>(a),
        a.len() == 2 * h,
        upto <= h,
        fpow(root, h) == fr_modulus() - 1,
    ensures
        odd_part::<G>(a, root, k, upto) == G::times(
            fpow(root, k),
            dft_sum::<G>(odds(a), fmul(root, root), k, upto),
        ),
        odd_part::<G>(a, root, k + h, upto) == G::times(
            fmul((fr_modulus() - 1) as nat, fpow(root, k)),
            dft_sum::<G>(odds(a), fmul(root, root), k, upto),
        ),
    decreases upto,
{
    let root2 = fmul(root, root);
    let minus_one = (fr_modulus() - 1) as nat;
    let wk = fpow(root, k);
    if upto == 0 {
        reveal(stays_valid);
        lemma_times_distributes::<G>(wk, G::neutral(), G::neutral());
        lemma_times_distributes::<G>(fmul(minus_one, wk), G::neutral(), G::neutral());
    } else {
        let j = (upto - 1) as nat;
        lemma_odd_part::<G>(a, root, k, h, j);
        let x = a[(2 * j + 1) as int];
        assert(odds(a)[j as int] == x);
        assert(all_valid::<G>(odds(a))) by {
            assert forall|i: int| 0 <= i < odds(a).len() implies G::valid(
                #[trigger] odds(a)[i],
            ) by {
                assert(odds(a)[i] == a[2 * i + 1]);
            }
        }
        let inner = dft_sum::<G>(odds(a), root2, k, j);
        lemma_dft_sum_valid::<G>(odds(a), root2, k, j);
        let s = fpow(root2, j * k);
        lemma_times_valid::<G>(s, x);
        // root^((2j + 1) k) = root^k * (root^2)^(j k)
        lemma_fpow_square(root, j * k);
        assert((2 * j + 1) * k == k + 2 * (j * k)) by (nonlinear_arith);
        lemma_fpow_adds(root, k, 2 * (j * k));
        lemma_times_composes::<G>(wk, s, x);
        lemma_times_distributes::<G>(wk, inner, G::times(s, x));
        // root^((2j + 1)(k + h)) = root^((2j + 1) k) * (root^(2h))^j * root^h
        assert((2 * j + 1) * (k + h) == ((2 * j + 1) * k + (2 * h) * j) + h) by (nonlinear_arith);
        let e1 = ((2 * j + 1) * k) as nat;
        lemma_fpow_adds(root, e1 + (2 * h) * j, h);
        lemma_fpow_adds(root, e1, (2 * h) * j);
        lemma_fpow_muls(root, 2 * h, j);
        lemma_fpow_adds(root, h, h);
        lemma_fneg_is_scaling(0);
        assert(h + h == 2 * h);
        lemma_fpow_one(j);
        lemma_fpow_bounded(root, e1);
        lemma_field_units(fpow(root, e1));
        lemma_fmul_commutes(fpow(root, e1), minus_one);
        lemma_fmul_associates(minus_one, wk, s);
        lemma_times_composes::<G>(fmul(minus_one, wk), s, x);
        lemma_times_distributes::<G>(fmul(minus_one, wk), inner, G::times(s, x));
    }
}

/// The butterfly: from element `k` of the transforms of the even-placed and of
/// the odd-placed elements come elements `k` and `k + h` of the transform.
pub proof fn lemma_butterfly<G: FftGroup>(a: Seq<G::Model>, root: nat, k: nat, h: nat)
    requires
        module_laws::<G>(),
        all_valid::<G>(a),
        a.len() == 2 * h,
        k < h,
        fpow(root, h) == fr_modulus() - 1,
    ensures
        ({
            let e = dft_sum::<G>(evens(a), fmul(root, root), k, h);
            let o = dft_sum::<G>(odds(a), fmul(root, root), k, h);
            let t = G::times(fpow(root, k), o);
            &&& G::valid(e)
            &&& G::valid(o)
            &&& G::valid(t)
            &&& dft_sum::<G>(a, root, k, 2 * h) == G::plus(e, t)
            &&& dft_sum::<G>(a, root, k + h, 2 * h) == G::minus(e, t)
        }),
{
    let root2 = fmul(root, root);
    let minus_one = (fr_modulus() - 1) as nat;
    let e = dft_sum::<G>(evens(a), root2, k, h);
    let o = dft_sum::<G>(odds(a), root2, k, h);
    let wk = fpow(root, k);
    let t = G::times(wk, o);
    assert(all_valid::<G>(odds(a))) by {
        assert forall|i: int| 0 <= i < odds(a).len() implies G::valid(#[trigger] odds(a)[i]) by {
            assert(odds(a)[i] == a[2 * i + 1]);
        }
    }
    assert(all_valid::<G>(evens(a))) by {
        assert forall|i: int| 0 <= i < evens(a).len() implies G::valid(
            #[trigger] evens(a)[i],
        ) by {
            assert(evens(a)[i] == a[2 * i]);
        }
    }
    lemma_dft_sum_valid::<G>(evens(a), root2, k, h);
    lemma_dft_sum_valid::<G>(odds(a), root2, k, h);
    lemma_times_valid::<G>(wk, o);
    // root^(2h) = (-1)^2 = 1
    lemma_fpow_adds(root, h, h);
    lemma_fneg_is_scaling(0);
    assert(h + h == 2 * h);
    lemma_dft_splits::<G>(a, root, k, h);
    lemma_dft_splits::<G>(a, root, k + h, h);
    lemma_even_part::<G>(a, root, k, h, h);
    lemma_odd_part::<G>(a, root, k, h, h);
    lemma_minus_negates::<G>(e, t);
    lemma_times_composes::<G>(minus_one, wk, o);
}

/// The transform of a single element is that element.
pub proof fn lemma_dft_single<G: FftGroup>(a: Seq<G::Model>, root: nat)
    requires
        module_laws::<G>(),
        all_valid::<G>(a),
        a.len() == 1,
    ensures
        dft_sum::<G>(a, root, 0, 1) == a[0],
{
    reveal_with_fuel(dft_sum, 2);
    assert(0 * 0 == 0);
    lemma_times_composes::<G>(1, 1, a[0]);
    lemma_plus_neutral::<G>(a[0]);
}

/// Every element of the list has a value that elements take.
pub open spec fn elements_valid<G: FftGroup>(a: Seq<G>) -> bool {
    forall|i: int| 0 <= i < a.len() ==> G::valid((#[trigger] a[i]).model())
}

/// The first `len` powers of `omega`, in order.
pub open spec fn holds_powers(table: Seq<Fr>, omega: nat, len: nat) -> bool {
    &&& table.len() == len
    &&& forall|i: int| 0 <= i < len ==> (#[trigger] table[i]).wf() && table[i]@ == fpow(omega, i as nat)
}

/// `omega` is a primitive `n`-th root of unity, for `n` a power of two: its
/// power `n / 2` is minus one.
pub open spec fn is_primitive_root(omega: nat, n: nat) -> bool {
    n >= 2 ==> fpow(omega, n / 2) == fr_modulus() - 1
}

/// The powers of a root of unity and of its inverse that the transforms of one
/// size multiply by, computed once.
pub struct FFTData {
    n: usize,
    f_twiddles: Vec<Fr>,
    inv_twiddles: Vec<Fr>,
}

impl FFTData {
    /// The size of the transforms that the data serves.
    pub closed spec fn size(&self) -> nat {
        self.n as nat
    }

    /// The table for one direction: the powers of the root, or those of its
    /// inverse.
    pub closed spec fn table(&self, inverse: bool) -> Seq<Fr> {
        if inverse {
            self.inv_twiddles@
        } else {
            self.f_twiddles@
        }
    }

    /// The data serves transforms of its size at `omega` in the given
    /// direction: the table for that direction holds the first `n / 2` powers of
    /// `omega`.
    pub open spec fn serves(&self, omega: nat, inverse: bool) -> bool {
        holds_powers(self.table(inverse), omega, self.size() / 2)
    }

    /// The first `count` powers of `omega`.
    fn powers_of(omega: &Fr, count: usize) -> (table: Vec<Fr>)
        requires
            omega.wf(),
        ensures
            holds_powers(table@, omega@, count as nat),
    {
        let mut table: Vec<Fr> = Vec::new();
        let mut w = Fr::one();
        let mut i: usize = 0;
        while i < count
            invariant
                i <= count,
                omega.wf(),
                w.wf(),
                w@ == fpow(omega@, i as nat),
                holds_powers(table@, omega@, i as nat),
            decreases count - i,
        {
            table.push(w);
            proof {
                lemma_fmul_commutes(w@, omega@);
            }
            w = w.mul(omega);
            i += 1;
        }
        table
    }

    /// The data for transforms of `n` values at `omega`, and back at
    /// `omega_inv`.
    pub fn new(n: usize, omega: Fr, omega_inv: Fr) -> (data: FFTData)
        requires
            omega.wf(),
            omega_inv.wf(),
        ensures
            data.size() == n,
            data.serves(omega@, false),
            data.serves(omega_inv@, true),
    {
        let half = n / 2;
        let f_twiddles = Self::powers_of(&omega, half);
        let inv_twiddles = Self::powers_of(&omega_inv, half);
        FFTData { n, f_twiddles, inv_twiddles }
    }

    /// The size of the transforms that the data serves.
    pub fn len(&self) -> (n: usize)
        ensures
            n == self.size(),
    {
        self.n
    }
}

/// Half of a power of two above one is a power of two.
pub proof fn lemma_half_pow2(n: nat)
    requires
        is_pow2(n),
        n >= 2,
    ensures
        n % 2 == 0,
        is_pow2(n / 2),
{
}

/// The transform of `a` at the root `omega^stride`, by halving: the
/// even-placed and the odd-placed elements are transformed at the square of the
/// root, and a butterfly joins each pair of their elements.
fn fft_recursive<G: FftGroup>(
    a: &Vec<G>,
    twiddles: &Vec<Fr>,
    stride: usize,
    Ghost(omega): Ghost<nat>,
) -> (out: Vec<G>)
    requires
        is_pow2(a.len() as nat),
        elements_valid::<G>(a@),
        a.len() >= 2 ==> stride >= 1 && a.len() * stride == 2 * twiddles.len(),
        a.len() >= 2 ==> holds_powers(twiddles@, omega, twiddles.len() as nat),
        is_primitive_root(fpow(omega, stride as nat), a.len() as nat),
    ensures
        out.len() == a.len(),
        elements_valid::<G>(out@),
        models::<G>(out@) == butterflies::<G>(models::<G>(a@), fpow(omega, stride as nat)),
        module_laws::<G>() ==> is_dft::<G>(
            models::<G>(out@),
            models::<G>(a@),
            fpow(omega, stride as nat),
        ),
    decreases a.len(),
{
    let n = a.len();
    let ghost root = fpow(omega, stride as nat);
    let ghost am = models::<G>(a@);
    proof {
        assert(all_valid::<G>(am)) by {
            assert forall|i: int| 0 <= i < am.len() implies G::valid(#[trigger] am[i]) by {
                assert(G::valid(a@[i].model()));
            }
        }
    }
    if n == 1 {
        let mut out: Vec<G> = Vec::new();
        out.push(a[0]);
        proof {
            assert(models::<G>(out@) =~= am);
            if module_laws::<G>() {
                lemma_dft_single::<G>(am, root);
                assert(models::<G>(out@)[0] == am[0]);
            }
        }
        return out;
    }
    proof {
        lemma_half_pow2(n as nat);
    }
    let half = n / 2;
    let mut even: Vec<G> = Vec::new();
    let mut odd: Vec<G> = Vec::new();
    let mut j: usize = 0;
    while j < half
        invariant
            j <= half,
            n == a.len(),
            n == 2 * half,
            elements_valid::<G>(a@),
            even.len() == j,
            odd.len() == j,
            elements_valid::<G>(even@),
            elements_valid::<G>(odd@),
            forall|i: int| 0 <= i < j ==> even@[i] == a@[2 * i] && odd@[i] == a@[2 * i + 1],
        decreases half - j,
    {
        even.push(a[2 * j]);
        odd.push(a[2 * j + 1]);
        j += 1;
    }
    let sub_stride = if half >= 2 {
        assert(stride * 2 <= twiddles.len()) by (nonlinear_arith)
            requires
                n * stride == 2 * twiddles.len(),
                n >= 4,
        ;
        stride * 2
    } else {
        stride
    };
    let ghost root2 = fmul(root, root);
    proof {
        lemma_fpow_adds(omega, stride as nat, stride as nat);
        if half >= 2 {
            assert(half * sub_stride == 2 * twiddles.len()) by (nonlinear_arith)
                requires
                    n * stride == 2 * twiddles.len(),
                    n == 2 * half,
                    sub_stride == stride * 2,
            ;
            assert(fpow(omega, sub_stride as nat) == root2);
            // (root^2)^(half / 2) = root^half = -1
            lemma_half_pow2(half as nat);
            lemma_fpow_square(root, (half / 2) as nat);
            assert(2 * (half / 2) == half);
        }
    }
    let evens_out = fft_recursive::<G>(&even, twiddles, sub_stride, Ghost(omega));
    let odds_out = fft_recursive::<G>(&odd, twiddles, sub_stride, Ghost(omega));
    let ghost em = models::<G>(evens_out@);
    let ghost om = models::<G>(odds_out@);
    proof {
        assert(models::<G>(even@) =~= evens(am));
        assert(models::<G>(odd@) =~= odds(am));
        // a single element is left as it is, whatever the root
        assert(em == butterflies::<G>(evens(am), root2));
        assert(om == butterflies::<G>(odds(am), root2));
    }
    let mut low: Vec<G> = Vec::new();
    let mut high: Vec<G> = Vec::new();
    let mut k: usize = 0;
    while k < half
        invariant
            k <= half,
            n == a.len(),
            n == 2 * half,
            half >= 1,
            stride >= 1,
            n * stride == 2 * twiddles.len(),
            holds_powers(twiddles@, omega, twiddles.len() as nat),
            root == fpow(omega, stride as nat),
            root2 == fmul(root, root),
            fpow(root, half as nat) == fr_modulus() - 1,
            am == models::<G>(a@),
            all_valid::<G>(am),
            evens_out.len() == half,
            odds_out.len() == half,
            em == models::<G>(evens_out@),
            om == models::<G>(odds_out@),
            forall|i: int|
                0 <= i < k ==> (#[trigger] low@[i]).model() == butterfly::<G>(
                    em,
                    om,
                    root,
                    half as int,
                    i,
                ),
            forall|i: int|
                0 <= i < k ==> (#[trigger] high@[i]).model() == butterfly::<G>(
                    em,
                    om,
                    root,
                    half as int,
                    i + half,
                ),
            elements_valid::<G>(evens_out@),
            elements_valid::<G>(odds_out@),
            module_laws::<G>() ==> is_dft::<G>(models::<G>(evens_out@), evens(am), if half >= 2 {
                root2
            } else {
                root
            }),
            module_laws::<G>() ==> is_dft::<G>(models::<G>(odds_out@), odds(am), if half >= 2 {
                root2
            } else {
                root
            }),
            low.len() == k,
            high.len() == k,
            elements_valid::<G>(low@),
            elements_valid::<G>(high@),
            module_laws::<G>() ==> forall|i: int|
                0 <= i < k ==> (#[trigger] low@[i]).model() == dft_sum::<G>(
                    am,
                    root,
                    i as nat,
                    n as nat,
                ),
            module_laws::<G>() ==> forall|i: int|
                0 <= i < k ==> (#[trigger] high@[i]).model() == dft_sum::<G>(
                    am,
                    root,
                    (i + half) as nat,
                    n as nat,
                ),
        decreases half - k,
    {
        assert(k * stride < twiddles.len()) by (nonlinear_arith)
            requires
                k < half,
                stride >= 1,
                n == 2 * half,
                n * stride == 2 * twiddles.len(),
        ;
        let w = &twiddles[k * stride];
        let e = &evens_out[k];
        let o = &odds_out[k];
        let t = o.group_scale(w);
        let lo = e.group_add(&t);
        let hi = e.group_sub(&t);
        proof {
            // the twiddle is root^k
            assert(w@ == fpow(omega, (k * stride) as nat));
            assert(k * stride == stride * k) by (nonlinear_arith);
            lemma_fpow_muls(omega, stride as nat, k as nat);
            assert(em[k as int] == e.model());
            assert(om[k as int] == o.model());
            if module_laws::<G>() {
                lemma_butterfly::<G>(am, root, k as nat, half as nat);
                assert(models::<G>(evens_out@)[k as int] == e.model());
                assert(models::<G>(odds_out@)[k as int] == o.model());
                if half < 2 {
                    // a transform of one element does not depend on the root
                    assert(k == 0);
                    lemma_dft_single::<G>(evens(am), root);
                    lemma_dft_single::<G>(evens(am), root2);
                    lemma_dft_single::<G>(odds(am), root);
                    lemma_dft_single::<G>(odds(am), root2);
                    assert(all_valid::<G>(evens(am))) by {
                        assert(evens(am)[0] == am[0]);
                    }
                    assert(all_valid::<G>(odds(am))) by {
                        assert(odds(am)[0] == am[1]);
                    }
                }
            }
        }
        low.push(lo);
        high.push(hi);
        k += 1;
    }
    let mut out = low;
    let mut i: usize = 0;
    let ghost lows = out@;
    while i < half
        invariant
            i <= half,
            high.len() == half,
            lows.len() == half,
            out@ == lows + high@.take(i as int),
        decreases half - i,
    {
        out.push(high[i]);
        assert(out@ =~= lows + high@.take(i + 1));
        i += 1;
    }
    proof {
        assert(high@.take(half as int) =~= high@);
        assert(elements_valid::<G>(out@)) by {
            assert forall|t: int| 0 <= t < out@.len() implies G::valid(
                (#[trigger] out@[t]).model(),
            ) by {
                if t < half {
                    assert(out@[t] == lows[t]);
                } else {
                    assert(out@[t] == high@[t - half]);
                }
            }
        }
        assert(models::<G>(out@) =~= butterflies::<G>(am, root)) by {
            let outm = models::<G>(out@);
            assert forall|t: int| 0 <= t < n implies #[trigger] outm[t] == butterfly::<G>(
                em,
                om,
                root,
                half as int,
                t,
            ) by {
                if t < half {
                    assert(out@[t] == lows[t]);
                } else {
                    assert(out@[t] == high@[t - half]);
                    assert((t - half) + half == t);
                }
            }
        }
        if module_laws::<G>() {
            let outm = models::<G>(out@);
            assert forall|t: int| 0 <= t < am.len() implies #[trigger] outm[t] == dft_sum::<G>(
                am,
                root,
                t as nat,
                am.len(),
            ) by {
                if t < half {
                    assert(out@[t] == lows[t]);
                } else {
                    assert(out@[t] == high@[t - half]);
                    assert((t - half) + half == t);
                }
            }
        }
    }
    out
}

/// A power of two, as `shl_pow` gives it, is a power of two.
pub proof fn lemma_shl_pow_is_pow2(k: nat)
    ensures
        is_pow2(shl_pow(k)),
    decreases k,
{
    if k > 0 {
        lemma_shl_pow_is_pow2((k - 1) as nat);
        lemma_shl_pow_positive((k - 1) as nat);
    }
}

/// Transforms `a` in place: afterwards element `k` is the sum over `j` of the
/// former element `j` scaled by `omega^(j * k)`. `a` holds `2^log_n` elements,
/// `omega` is a primitive root of unity of that order, and `data` holds its
/// powers in the table for the direction given. With statistics switched on the
/// transform is counted, as one of field elements or of group elements by the
/// type of its elements.
pub fn best_fft<G: FftGroup>(
    a: &mut Vec<G>,
    omega: Fr,
    log_n: u32,
    data: &FFTData,
    inverse: bool,
    stats: &mut FftStats,
    stats_enabled: bool,
)
    requires
        old(a).len() == shl_pow(log_n as nat),
        elements_valid::<G>(old(a)@),
        omega.wf(),
        data.size() == old(a).len(),
        data.serves(omega@, inverse),
        is_primitive_root(omega@, old(a).len() as nat),
    ensures
        final(a).len() == old(a).len(),
        elements_valid::<G>(final(a)@),
        models::<G>(final(a)@) == butterflies::<G>(models::<G>(old(a)@), omega@),
        module_laws::<G>() ==> is_dft::<G>(models::<G>(final(a)@), models::<G>(old(a)@), omega@),
        *final(stats) == with_transform::<G>(*old(stats), stats_enabled),
{
    stats.count::<G>(stats_enabled);
    proof {
        lemma_shl_pow_is_pow2(log_n as nat);
        lemma_fpow_first(omega@);
        if a.len() >= 2 {
            lemma_half_pow2(a.len() as nat);
        }
    }
    let out = if inverse {
        fft_recursive::<G>(a, &data.inv_twiddles, 1, Ghost(omega@))
    } else {
        fft_recursive::<G>(a, &data.f_twiddles, 1, Ghost(omega@))
    };
    *a = out;
}

/// The field's root of unity of order `2^log_n`: the root of order `2^28`,
/// squared `28 - log_n` times.
pub open spec fn root_of_order(log_n: nat) -> nat {
    fpow(root_of_unity(), shl_pow((TWO_ADICITY - log_n) as nat))
}

/// The inverse of the field's root of unity of order `2^log_n`.
pub open spec fn inverse_root_of_order(log_n: nat) -> nat {
    fpow(root_of_unity_inv(), shl_pow((TWO_ADICITY - log_n) as nat))
}

/// A root of order `2^28` whose power `2^27` is minus one, squared
/// `28 - log_n` times, is a primitive root of order `2^log_n`.
proof fn lemma_squared_root_is_primitive(root: nat, log_n: nat)
    requires
        log_n <= TWO_ADICITY,
        fpow(root, shl_pow(27)) == fr_modulus() - 1,
    ensures
        is_primitive_root(fpow(root, shl_pow((TWO_ADICITY - log_n) as nat)), shl_pow(log_n)),
{
    if log_n >= 1 {
        let up = shl_pow((TWO_ADICITY - log_n) as nat);
        let half = shl_pow((log_n - 1) as nat);
        lemma_fpow_muls(root, up, half);
        lemma_shl_pow_adds((TWO_ADICITY - log_n) as nat, (log_n - 1) as nat);
        assert((TWO_ADICITY - log_n) as nat + (log_n - 1) as nat == 27);
        assert(shl_pow(log_n) == 2 * half);
    } else {
        assert(shl_pow(0) == 1);
    }
}

/// The field's root of unity of order `2^log_n` and its inverse.
pub fn roots_of_unity(log_n: u32) -> (r: (Fr, Fr))
    requires
        log_n <= TWO_ADICITY,
    ensures
        r.0.wf(),
        r.1.wf(),
        r.0@ == root_of_order(log_n as nat),
        r.1@ == inverse_root_of_order(log_n as nat),
        fmul(r.0@, r.1@) == 1,
        is_primitive_root(r.0@, shl_pow(log_n as nat)),
        is_primitive_root(r.1@, shl_pow(log_n as nat)),
{
    let mut omega = Fr::root_of_unity();
    let mut omega_inv = Fr::root_of_unity_inv();
    let mut i: u32 = log_n;
    proof {
        assert(shl_pow(0) == 1);
        lemma_fpow_first(root_of_unity());
        lemma_fpow_first(root_of_unity_inv());
        lemma_fmul_commutes(omega@, omega_inv@);
    }
    while i < TWO_ADICITY
        invariant
            log_n <= i <= TWO_ADICITY,
            omega.wf(),
            omega_inv.wf(),
            omega@ == fpow(root_of_unity(), shl_pow((i - log_n) as nat)),
            omega_inv@ == fpow(root_of_unity_inv(), shl_pow((i - log_n) as nat)),
            fmul(omega@, omega_inv@) == 1,
        decreases TWO_ADICITY - i,
    {
        proof {
            let e = shl_pow((i - log_n) as nat);
            lemma_fpow_adds(root_of_unity(), e, e);
            lemma_fpow_adds(root_of_unity_inv(), e, e);
            assert(shl_pow((i + 1 - log_n) as nat) == 2 * e);
            assert(e + e == 2 * e);
            // (a a)(b b) = a ((a b) b) = a b = 1
            let a = omega@;
            let b = omega_inv@;
            lemma_fmul_associates(a, a, fmul(b, b));
            lemma_fmul_associates(a, b, b);
            lemma_field_units(b);
        }
        omega = omega.square();
        omega_inv = omega_inv.square();
        i += 1;
    }
    proof {
        lemma_squared_root_is_primitive(root_of_unity(), log_n as nat);
        lemma_squared_root_is_primitive(root_of_unity_inv(), log_n as nat);
    }
    (omega, omega_inv)
}

/// Two to the `k`, reduced, is the `k`-th power of two in the field.
proof fn lemma_power_of_two(k: nat)
    ensures
        fpow(2, k) == shl_pow(k) % fr_modulus(),
    decreases k,
{
    lemma_modulus_large();
    if k == 0 {
        lemma_small_mod(1, fr_modulus());
    } else {
        lemma_power_of_two((k - 1) as nat);
        lemma_mul_mod_noop_right(2, shl_pow((k - 1) as nat) as int, fr_modulus() as int);
    }
}

/// The inverse in the field of the length `2^log_n`.
pub fn inverse_of_length(log_n: u32) -> (n_inv: Fr)
    ensures
        n_inv.wf(),
        n_inv@ == fpow(two_inv(), log_n as nat),
        fmul(n_inv@, shl_pow(log_n as nat) % fr_modulus()) == 1,
{
    let n_inv = Fr::two_inv().pow(log_n as u64);
    proof {
        crate::fft_laws::lemma_fpow_of_product(two_inv(), 2, log_n as nat);
        lemma_fpow_one(log_n as nat);
        lemma_power_of_two(log_n as nat);
    }
    n_inv
}

/// The inverse transform of a list of points, scaled by the inverse of its
/// length: the points that commit to the Lagrange basis, from those that commit
/// to the monomials. Element `i` of the result is the sum over `j` of point `j`
/// scaled by `omega^(-i * j)`, scaled by `1 / n`, where `n = 2^k` is the number of
/// points and `omega` the field's root of unity of that order. Its one transform
/// is counted as one of group elements.
pub fn g_to_lagrange(
    g_projective: Vec<G1>,
    k: u32,
    stats: &mut FftStats,
    stats_enabled: bool,
) -> (g_lagrange: Vec<G1>)
    requires
        k <= TWO_ADICITY,
        g_projective.len() == shl_pow(k as nat),
        elements_valid::<G1>(g_projective@),
    ensures
        g_lagrange.len() == g_projective.len(),
        elements_valid::<G1>(g_lagrange@),
        forall|i: int|
            0 <= i < g_lagrange.len() ==> (#[trigger] g_lagrange@[i])@ == g1_scaled(
                butterflies::<G1>(
                    models::<G1>(g_projective@),
                    fpow(root_of_unity_inv(), shl_pow((TWO_ADICITY - k) as nat)),
                )[i],
                fpow(two_inv(), k as nat),
            ),
        group_laws() ==> forall|i: int|
            0 <= i < g_lagrange.len() ==> (#[trigger] g_lagrange@[i])@ == g1_scaled(
                dft_sum::<G1>(
                    models::<G1>(g_projective@),
                    fpow(root_of_unity_inv(), shl_pow((TWO_ADICITY - k) as nat)),
                    i as nat,
                    g_projective.len() as nat,
                ),
                fpow(two_inv(), k as nat),
            ),
        *final(stats) == with_transform::<G1>(*old(stats), stats_enabled),
{
    let n_inv = inverse_of_length(k);
    let omega = Fr::root_of_unity();
    let (_, omega_inv) = roots_of_unity(k);
    let mut g_lagrange_projective = g_projective;
    let n = g_lagrange_projective.len();
    let fft_data = FFTData::new(n, omega, omega_inv);
    let ghost before = models::<G1>(g_lagrange_projective@);
    let ghost root = omega_inv@;
    best_fft::<G1>(
        &mut g_lagrange_projective,
        omega_inv,
        k,
        &fft_data,
        true,
        stats,
        stats_enabled,
    );
    let ghost transformed = g_lagrange_projective@;
    let mut j: usize = 0;
    while j < g_lagrange_projective.len()
        invariant
            j <= g_lagrange_projective.len(),
            g_lagrange_projective.len() == n,
            transformed.len() == n,
            n_inv.wf(),
            elements_valid::<G1>(transformed),
            elements_valid::<G1>(g_lagrange_projective@),
            forall|t: int| 0 <= t < j ==> (#[trigger] g_lagrange_projective@[t])@ == g1_scaled(
                transformed[t]@,
                n_inv@,
            ),
            forall|t: int| j <= t < n ==> g_lagrange_projective@[t] == transformed[t],
        decreases g_lagrange_projective.len() - j,
    {
        assert(G1::valid(g_lagrange_projective@[j as int].model()));
        let scaled = g_lagrange_projective[j].mul(&n_inv);
        g_lagrange_projective.set(j, scaled);
        j += 1;
    }
    proof {
        assert forall|t: int| 0 <= t < n implies (#[trigger] g_lagrange_projective@[t])@
            == g1_scaled(butterflies::<G1>(before, root)[t], n_inv@) by {
            assert(models::<G1>(transformed)[t] == transformed[t]@);
        }
        if group_laws() {
            lemma_g1_module_laws();
            assert forall|t: int| 0 <= t < n implies (#[trigger] g_lagrange_projective@[t])@
                == g1_scaled(dft_sum::<G1>(before, root, t as nat, n as nat), n_inv@) by {
                assert(models::<G1>(transformed)[t] == transformed[t]@);
            }
        }
    }
    g_lagrange_projective
}

/// What the transforms have cost so far.
#[derive(Clone, Copy, Debug, PartialEq, Eq, Structural)]
pub struct FftStats {
    /// The time spent in transforms, in microseconds.
    pub total_us: usize,
    /// The number of transforms.
    pub calls_total: usize,
    /// The number of transforms of field elements.
    pub calls_field: usize,
    /// The number of transforms of group elements.
    pub calls_group: usize,
}

/// A count or a time with `more` added; it starts over past the largest
/// number.
pub open spec fn wrapped(count: usize, more: usize) -> usize {
    if count + more > usize::MAX {
        (count + more - usize::MAX - 1) as usize
    } else {
        (count + more) as usize
    }
}

fn wrapping_sum(count: usize, more: usize) -> (r: usize)
    ensures
        r == wrapped(count, more),
{
    if more > usize::MAX - count {
        more - (usize::MAX - count) - 1
    } else {
        count + more
    }
}

impl FftStats {
    /// Statistics of no transform.
    pub fn new() -> (r: FftStats)
        ensures
            r == (FftStats { total_us: 0, calls_total: 0, calls_field: 0, calls_group: 0 }),
    {
        FftStats { total_us: 0, calls_total: 0, calls_field: 0, calls_group: 0 }
    }

    /// Counts one transform, as one of field elements or as one of group
    /// elements by the type of its elements. With statistics switched off
    /// nothing is counted.
    pub fn count<G: FftGroup>(&mut self, enabled: bool)
        ensures
            *final(self) == with_transform::<G>(*old(self), enabled),
    {
        if enabled {
            self.calls_total = wrapping_sum(self.calls_total, 1);
            if G::is_field() {
                self.calls_field = wrapping_sum(self.calls_field, 1);
            } else {
                self.calls_group = wrapping_sum(self.calls_group, 1);
            }
        }
    }

    /// Adds the `duration_us` microseconds that a transform took to the time
    /// spent. With statistics switched off nothing is added.
    pub fn add_time(&mut self, enabled: bool, duration_us: usize)
        ensures
            !enabled ==> *final(self) == *old(self),
            enabled ==> *final(self) == (FftStats {
                total_us: wrapped(old(self).total_us, duration_us),
                ..*old(self)
            }),
    {
        if enabled {
            self.total_us = wrapping_sum(self.total_us, duration_us);
        }
    }
}

/// The statistics after one more transform of elements of type `G`: with
/// statistics switched on, one more transform in all and one more of its kind.
pub open spec fn with_transform<G: FftGroup>(stats: FftStats, enabled: bool) -> FftStats {
    if !enabled {
        stats
    } else if G::scalars() {
        FftStats {
            calls_total: wrapped(stats.calls_total, 1),
            calls_field: wrapped(stats.calls_field, 1),
            ..stats
        }
    } else {
        FftStats {
            calls_total: wrapped(stats.calls_total, 1),
            calls_group: wrapped(stats.calls_group, 1),
            ..stats
        }
    }
}

/// Counting a transform keeps the books: where the transforms of field
/// elements and of group elements made up the total before, they do so after.
pub proof fn lemma_counts_add_up<G: FftGroup>(stats: FftStats, enabled: bool)
    requires
        stats.calls_total == stats.calls_field + stats.calls_group,
        stats.calls_total < usize::MAX,
    ensures
        ({
            let after = with_transform::<G>(stats, enabled);
            &&& after.calls_total == after.calls_field + after.calls_group
            &&& after.calls_total == stats.calls_total + if enabled {
                1int
            } else {
                0int
            }
            &&& after.total_us == stats.total_us
        }),
{
}

/// The statistics as they stand.
pub fn fft_stats(stats: &FftStats) -> (r: FftStats)
    ensures
        r == *stats,
{
    *stats
}

/// Starts the statistics over.
pub fn reset_fft_stats(stats: &mut FftStats)
    ensures
        *final(stats) == (FftStats { total_us: 0, calls_total: 0, calls_field: 0, calls_group: 0 }),
{
    stats.total_us = 0;
    stats.calls_total = 0;
    stats.calls_field = 0;
    stats.calls_group = 0;
}

/// Field elements obey the laws of a module.
pub proof fn lemma_fr_module_laws()
    ensures
        module_laws::<Fr>(),
{
    lemma_modulus_large();
    reveal(stays_valid);
    reveal(zero_is_neutral);
    reveal(plus_commutes);
    reveal(plus_associates);
    reveal(times_distributes);
    reveal(times_composes);
    reveal(minus_negates);
    assert forall|a: nat, b: nat| Fr::valid(#[trigger] Fr::plus(a, b)) && Fr::valid(
        Fr::minus(a, b),
    ) by {
        lemma_residues_bounded(a, b);
    }
    assert forall|a: nat, b: nat| Fr::valid(#[trigger] Fr::minus(a, b)) by {
        lemma_residues_bounded(a, b);
    }
    assert forall|s: nat, a: nat| Fr::valid(#[trigger] Fr::times(s, a)) by {
        lemma_residues_bounded(s, a);
    }
    assert forall|a: nat| Fr::valid(a) implies #[trigger] Fr::plus(a, Fr::neutral())
        == a by {
        lemma_field_units(a);
    }
    assert forall|a: nat, b: nat, c: nat| #[trigger]
        Fr::plus(Fr::plus(a, b), c) == Fr::plus(a, Fr::plus(b, c)) by {
        lemma_fadd_associates(a, b, c);
    }
    assert forall|s: nat, a: nat, b: nat| #[trigger]
        Fr::times(s, Fr::plus(a, b)) == Fr::plus(
            Fr::times(s, a),
            Fr::times(s, b),
        ) by {
        lemma_fmul_distributes(s, a, b);
    }
    assert forall|s: nat| #[trigger] Fr::times(s, Fr::neutral()) == Fr::neutral() by {
        assert(s * 0 == 0) by (nonlinear_arith);
        lemma_small_mod(0, fr_modulus());
    }
    assert forall|s: nat, t: nat, a: nat| #[trigger]
        Fr::times(fmul(s, t), a) == Fr::times(s, Fr::times(t, a)) by {
        lemma_fmul_associates(s, t, a);
    }
    assert forall|a: nat| Fr::valid(a) implies #[trigger] Fr::times(1, a) == a by {
        lemma_field_units(a);
    }
    reveal(times_collects);
    assert forall|s: nat, t: nat, a: nat| #[trigger]
        Fr::times(fadd(s, t), a) == Fr::plus(Fr::times(s, a), Fr::times(t, a)) by {
        lemma_fmul_distributes(a, s, t);
        lemma_fmul_commutes(a, fadd(s, t));
        lemma_fmul_commutes(a, s);
        lemma_fmul_commutes(a, t);
    }
    assert forall|a: nat| Fr::valid(a) implies #[trigger] Fr::times(0, a) == Fr::neutral() by {
        lemma_field_units(a);
    }
    assert forall|a: nat, b: nat| #[trigger]
        Fr::minus(a, b) == Fr::plus(a, Fr::times((fr_modulus() - 1) as nat, b)) by {
        lemma_fsub_laws(a, b);
        lemma_fneg_is_scaling(b);
    }
}


/// Under the laws of the group, the points of the curve obey the laws of a
/// module.
pub proof fn lemma_g1_module_laws()
    requires
        group_laws(),
    ensures
        module_laws::<G1>(),
{
    lemma_modulus_large();
    reveal(stays_valid);
    reveal(zero_is_neutral);
    reveal(plus_commutes);
    reveal(plus_associates);
    reveal(times_distributes);
    reveal(times_composes);
    reveal(minus_negates);
    assert forall|a: Coordinates, b: Coordinates| on_curve(a) && on_curve(b) implies on_curve(
        #[trigger] g1_sum(a, b),
    ) by {
        lemma_closed(a, b);
    }
    assert forall|a: Coordinates, b: Coordinates| on_curve(a) && on_curve(b) implies on_curve(
        #[trigger] g1_difference(a, b),
    ) by {
        lemma_difference(a, b);
    }
    assert forall|s: nat, a: Coordinates| on_curve(a) implies on_curve(
        #[trigger] g1_scaled(a, s),
    ) by {
        lemma_scaled(a, s);
        lemma_scalar_mul_on_curve(s, a);
    }
    assert forall|a: Coordinates| on_curve(a) implies #[trigger] g1_sum(a, identity())
        == a by {
        lemma_neutral(a);
    }
    assert forall|a: Coordinates, b: Coordinates| on_curve(a) && on_curve(b) implies #[trigger]
        g1_sum(a, b) == g1_sum(b, a) by {
        lemma_commutes(a, b);
    }
    assert forall|a: Coordinates, b: Coordinates, c: Coordinates|
        on_curve(a) && on_curve(b) && on_curve(c) implies #[trigger] g1_sum(g1_sum(a, b), c)
        == g1_sum(a, g1_sum(b, c)) by {
        lemma_associates(a, b, c);
    }
    assert forall|s: nat, a: Coordinates, b: Coordinates|
        on_curve(a) && on_curve(b) implies #[trigger] g1_scaled(g1_sum(a, b), s) == g1_sum(
        g1_scaled(a, s),
        g1_scaled(b, s),
    ) by {
        lemma_closed(a, b);
        lemma_scaled(g1_sum(a, b), s);
        lemma_scaled(a, s);
        lemma_scaled(b, s);
        lemma_scalar_mul_distributes(s, a, b);
    }
    assert forall|s: nat| #[trigger] g1_scaled(identity(), s) == identity() by {
        lemma_scaled(identity(), s);
        lemma_scalar_mul_identity(s);
    }
    assert forall|s: nat, t: nat, a: Coordinates| on_curve(a) implies #[trigger] g1_scaled(
        a,
        fmul(s, t),
    ) == g1_scaled(g1_scaled(a, t), s) by {
        lemma_scaled(a, fmul(s, t));
        lemma_scaled(a, t);
        lemma_scalar_mul_on_curve(t, a);
        lemma_scaled(scalar_mul(t, a), s);
        lemma_scalar_mul_residue(s * t, a);
        lemma_scalar_mul_muls(s, t, a);
    }
    assert forall|a: Coordinates| on_curve(a) implies #[trigger] g1_scaled(a, 1) == a by {
        lemma_scaled(a, 1);
        lemma_scalar_mul_small(a);
    }
    reveal(times_collects);
    assert forall|s: nat, t: nat, a: Coordinates| on_curve(a) implies #[trigger] g1_scaled(
        a,
        fadd(s, t),
    ) == g1_sum(g1_scaled(a, s), g1_scaled(a, t)) by {
        lemma_scaled(a, fadd(s, t));
        lemma_scaled(a, s);
        lemma_scaled(a, t);
        lemma_scalar_mul_residue(s + t, a);
        lemma_scalar_mul_adds(s, t, a);
    }
    assert forall|a: Coordinates| on_curve(a) implies #[trigger] g1_scaled(a, 0)
        == identity() by {
        lemma_scaled(a, 0);
    }
    assert forall|a: Coordinates, b: Coordinates| on_curve(a) && on_curve(b) implies #[trigger]
        g1_difference(a, b) == g1_sum(a, g1_scaled(b, (fr_modulus() - 1) as nat)) by {
        let m1 = (fr_modulus() - 1) as nat;
        let d = g1_difference(a, b);
        let nb = scalar_mul(m1, b);
        lemma_difference(a, b);
        lemma_scaled(b, m1);
        lemma_scalar_mul_on_curve(m1, b);
        // b + (m - 1) b is the point at infinity
        lemma_scalar_mul_small(b);
        lemma_scalar_mul_adds(1, m1, b);
        assert(1 + m1 == fr_modulus());
        reveal(order_annihilates);
        // d = d + (b + nb) = (d + b) + nb = a + nb
        lemma_neutral(d);
        lemma_associates(d, b, nb);
    }
}


} // verus!
