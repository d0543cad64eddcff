//! The inversion law of the transform: transforming at a root of unity,
//! transforming back at its inverse and scaling by the inverse of the length
//! gives back what one started from. It is shown for field elements, and for
//! the elements of every module over the field, curve points among them.

use crate::arithmetic::is_pow2;
use crate::curve::{g1_scaled, group_laws, on_curve, Coordinates, G1};
use crate::fft::{
    all_valid, dft_sum, is_dft, is_primitive_root, lemma_plus_neutral, lemma_plus_shuffle,
    lemma_plus_valid, lemma_times_collects, lemma_times_composes, lemma_times_distributes,
    lemma_g1_module_laws, lemma_times_valid, module_laws, stays_valid, FftGroup,
};
use crate::field::{
    fadd, fmul, fpow, fr_modulus, lemma_fadd_associates, lemma_fadd_commutes, lemma_field_units,
    lemma_fmul_associates, lemma_fmul_commutes, lemma_fmul_distributes, lemma_fneg_is_scaling,
    lemma_fpow_adds, lemma_fpow_bounded, lemma_fpow_first, lemma_fpow_muls, lemma_fpow_one,
    lemma_fpow_square, lemma_modulus_large, lemma_residues_bounded,
};
use vstd::arithmetic::div_mod::*;
use vstd::prelude::*;

verus! {

/// The sum of `f(0)`, ..., `f(n - 1)` in the field.
pub open spec fn fsum(f: spec_fn(nat) -> nat, n: nat) -> nat
    decreases n,
{
    if n == 0 {
        0
    } else {
        fadd(fsum(f, (n - 1) as nat), f((n - 1) as nat))
    }
}

/// A sum is a residue.
pub proof fn lemma_fsum_bounded(f: spec_fn(nat) -> nat, n: nat)
    ensures
        fsum(f, n) < fr_modulus(),
{
    lemma_modulus_large();
    if n > 0 {
        lemma_residues_bounded(fsum(f, (n - 1) as nat), f((n - 1) as nat));
    }
}

/// Sums of terms that agree are equal.
pub proof fn lemma_fsum_agrees(f: spec_fn(nat) -> nat, g: spec_fn(nat) -> nat, n: nat)
    requires
        forall|k: nat| k < n ==> #[trigger] f(k) == g(k),
    ensures
        fsum(f, n) == fsum(g, n),
    decreases n,
{
    if n > 0 {
        lemma_fsum_agrees(f, g, (n - 1) as nat);
        assert(f((n - 1) as nat) == g((n - 1) as nat));
    }
}

/// A common factor comes out of a sum.
pub proof fn lemma_fsum_scales(c: nat, f: spec_fn(nat) -> nat, g: spec_fn(nat) -> nat, n: nat)
    requires
        forall|k: nat| k < n ==> #[trigger] g(k) == fmul(c, f(k)),
    ensures
        fsum(g, n) == fmul(c, fsum(f, n)),
    decreases n,
{
    lemma_modulus_large();
    if n == 0 {
        assert(c * 0 == 0) by (nonlinear_arith);
        lemma_small_mod(0, fr_modulus());
    } else {
        let last = (n - 1) as nat;
        lemma_fsum_scales(c, f, g, last);
        assert(g(last) == fmul(c, f(last)));
        lemma_fmul_distributes(c, fsum(f, last), f(last));
    }
}

/// A sum of sums is the sum of the two sums.
pub proof fn lemma_fsum_adds(
    f: spec_fn(nat) -> nat,
    g: spec_fn(nat) -> nat,
    h: spec_fn(nat) -> nat,
    n: nat,
)
    requires
        forall|k: nat| k < n ==> #[trigger] h(k) == fadd(f(k), g(k)),
    ensures
        fsum(h, n) == fadd(fsum(f, n), fsum(g, n)),
    decreases n,
{
    lemma_modulus_large();
    if n == 0 {
        lemma_small_mod(0, fr_modulus());
    } else {
        let last = (n - 1) as nat;
        lemma_fsum_adds(f, g, h, last);
        assert(h(last) == fadd(f(last), g(last)));
        let a = fsum(f, last);
        let b = fsum(g, last);
        let x = f(last);
        let y = g(last);
        // (a + b) + (x + y) = (a + x) + (b + y)
        lemma_fadd_associates(fadd(a, b), x, y);
        lemma_fadd_associates(a, b, x);
        lemma_fadd_commutes(b, x);
        lemma_fadd_associates(a, x, b);
        lemma_fadd_associates(fadd(a, x), b, y);
    }
}

/// A sum of zeros is zero.
pub proof fn lemma_fsum_zero(f: spec_fn(nat) -> nat, n: nat)
    requires
        forall|k: nat| k < n ==> #[trigger] f(k) == 0,
    ensures
        fsum(f, n) == 0,
    decreases n,
{
    lemma_modulus_large();
    if n > 0 {
        lemma_fsum_zero(f, (n - 1) as nat);
        assert(f((n - 1) as nat) == 0);
        lemma_small_mod(0, fr_modulus());
    }
}

/// A sum of ones is the number of terms.
pub proof fn lemma_fsum_ones(f: spec_fn(nat) -> nat, n: nat)
    requires
        forall|k: nat| k < n ==> #[trigger] f(k) == 1,
    ensures
        fsum(f, n) == n % fr_modulus(),
    decreases n,
{
    lemma_modulus_large();
    if n == 0 {
        lemma_small_mod(0, fr_modulus());
    } else {
        lemma_fsum_ones(f, (n - 1) as nat);
        assert(f((n - 1) as nat) == 1);
        lemma_add_mod_noop_left_nat((n - 1) as nat, 1);
    }
}

proof fn lemma_add_mod_noop_left_nat(a: nat, b: nat)
    ensures
        fadd(a % fr_modulus(), b) == (a + b) % fr_modulus(),
{
    lemma_modulus_large();
    lemma_add_mod_noop_right(b as int, a as int, fr_modulus() as int);
}

/// A sum with one term that is not zero is that term.
pub proof fn lemma_fsum_single(f: spec_fn(nat) -> nat, i: nat, n: nat)
    requires
        forall|k: nat| k < n && k != i ==> #[trigger] f(k) == 0,
        f(i) < fr_modulus(),
    ensures
        fsum(f, n) == if i < n {
            f(i)
        } else {
            0
        },
    decreases n,
{
    lemma_modulus_large();
    if n > 0 {
        let last = (n - 1) as nat;
        lemma_fsum_single(f, i, last);
        if last != i {
            assert(f(last) == 0);
        }
        lemma_field_units(f(i));
        lemma_small_mod(0, fr_modulus());
    }
}

/// A sum over `a + b` terms is the sum over the first `a` and the sum over
/// the `b` that follow.
pub proof fn lemma_fsum_splits(f: spec_fn(nat) -> nat, a: nat, b: nat)
    ensures
        fsum(f, a + b) == fadd(fsum(f, a), fsum(|k: nat| f(k + a), b)),
    decreases b,
{
    lemma_modulus_large();
    let shifted = |k: nat| f(k + a);
    if b == 0 {
        lemma_fsum_bounded(f, a);
        lemma_field_units(fsum(f, a));
    } else {
        let last = (b - 1) as nat;
        lemma_fsum_splits(f, a, last);
        assert(shifted(last) == f((a + b - 1) as nat));
        lemma_fadd_associates(fsum(f, a), fsum(shifted, last), shifted(last));
    }
}

/// The order of summation over two indices does not matter.
pub proof fn lemma_fsum_swaps(g: spec_fn(nat, nat) -> nat, rows: nat, columns: nat)
    ensures
        fsum(|k: nat| fsum(|j: nat| g(k, j), columns), rows) == fsum(
            |j: nat| fsum(|k: nat| g(k, j), rows),
            columns,
        ),
    decreases rows,
{
    let by_rows = |k: nat| fsum(|j: nat| g(k, j), columns);
    let by_columns = |j: nat| fsum(|k: nat| g(k, j), rows);
    if rows == 0 {
        lemma_fsum_zero(by_columns, columns);
    } else {
        let last = (rows - 1) as nat;
        lemma_fsum_swaps(g, last, columns);
        let before = |j: nat| fsum(|k: nat| g(k, j), last);
        let row = |j: nat| g(last, j);
        assert(by_rows(last) == fsum(row, columns));
        assert forall|j: nat| j < columns implies #[trigger] by_columns(j) == fadd(
            before(j),
            row(j),
        ) by {
            let column = |k: nat| g(k, j);
            assert(column(last) == row(j));
        }
        lemma_fsum_adds(before, row, by_columns, columns);
        let by_rows_before = |k: nat| fsum(|j: nat| g(k, j), columns);
        assert(fsum(by_rows, last) == fsum(by_rows_before, last));
    }
}

/// The power of a product is the product of the powers.
pub proof fn lemma_fpow_of_product(a: nat, b: nat, e: nat)
    ensures
        fpow(fmul(a, b), e) == fmul(fpow(a, e), fpow(b, e)),
    decreases e,
{
    lemma_modulus_large();
    if e == 0 {
        lemma_field_units(1);
    } else {
        let d = (e - 1) as nat;
        lemma_fpow_of_product(a, b, d);
        let x = fpow(a, d);
        let y = fpow(b, d);
        // (a b)(x y) = (a x)(b y)
        lemma_fmul_associates(fmul(a, b), x, y);
        lemma_fmul_associates(a, b, x);
        lemma_fmul_commutes(b, x);
        lemma_fmul_associates(a, x, b);
        lemma_fmul_associates(fmul(a, x), b, y);
        // fmul(fmul(a, b), ..) with the inner product reduced
        lemma_mul_mod_noop_left((a * b) as int, fpow(fmul(a, b), d) as int, fr_modulus() as int);
    }
}

/// An odd power of minus one is minus one.
pub proof fn lemma_odd_power_of_minus_one(u: nat)
    requires
        u % 2 == 1,
    ensures
        fpow((fr_modulus() - 1) as nat, u) == fr_modulus() - 1,
    decreases u,
{
    lemma_modulus_large();
    let minus_one = (fr_modulus() - 1) as nat;
    lemma_fneg_is_scaling(0);
    if u == 1 {
        lemma_fpow_first(minus_one);
    } else {
        lemma_odd_power_of_minus_one((u - 2) as nat);
        lemma_fpow_adds(minus_one, 2, (u - 2) as nat);
        lemma_fpow_adds(minus_one, 1, 1);
        lemma_fpow_first(minus_one);
        lemma_field_units(minus_one);
    }
}

/// The powers of a residue whose power `p` is minus one sum to zero over
/// `2 * p` terms.
pub proof fn lemma_geometric_pair(rho: nat, p: nat)
    requires
        fpow(rho, p) == fr_modulus() - 1,
    ensures
        fsum(|k: nat| fpow(rho, k), 2 * p) == 0,
{
    lemma_modulus_large();
    let minus_one = (fr_modulus() - 1) as nat;
    let powers = |k: nat| fpow(rho, k);
    let upper = |k: nat| powers(k + p);
    lemma_fsum_splits(powers, p, p);
    assert(p + p == 2 * p);
    assert forall|k: nat| k < p implies #[trigger] upper(k) == fmul(minus_one, powers(k)) by {
        lemma_fpow_adds(rho, p, k);
        assert(p + k == k + p);
    }
    lemma_fsum_scales(minus_one, powers, upper, p);
    let s = fsum(powers, p);
    lemma_fsum_bounded(powers, p);
    // s + (-1) s = 0
    lemma_field_units(s);
    lemma_fmul_commutes(minus_one, s);
    lemma_fmul_commutes(1, s);
    lemma_fmul_distributes(s, 1, minus_one);
    assert(fadd(1, minus_one) == 0) by {
        lemma_mod_self_0(fr_modulus() as int);
    }
    assert(s * 0 == 0) by (nonlinear_arith);
    lemma_small_mod(0, fr_modulus());
}

/// The powers of a power `d` of a primitive root of unity of order `n` sum to
/// zero over `n` terms, where `d` is between zero and `n`.
pub proof fn lemma_geometric_zero(root: nat, n: nat, d: nat)
    requires
        is_pow2(n),
        n >= 2,
        0 < d < n,
        fpow(root, n / 2) == fr_modulus() - 1,
    ensures
        fsum(|k: nat| fpow(fpow(root, d), k), n) == 0,
    decreases n,
{
    lemma_modulus_large();
    let rho = fpow(root, d);
    let half = n / 2;
    assert(n == 2 * half);
    if d % 2 == 1 {
        // rho^half = (root^half)^d = (-1)^d = -1
        lemma_fpow_muls(root, d, half);
        lemma_fpow_muls(root, half, d);
        assert(d * half == half * d) by (nonlinear_arith);
        lemma_odd_power_of_minus_one(d);
        lemma_geometric_pair(rho, half);
    } else {
        let e = d / 2;
        let root2 = fmul(root, root);
        assert(d == 2 * e);
        assert(half >= 2) by {
            if half < 2 {
                assert(n == 2);
            }
        }
        // the square of the root is primitive of order half
        lemma_fpow_square(root, half / 2);
        crate::fft::lemma_half_pow2(n);
        crate::fft::lemma_half_pow2(half);
        assert(2 * (half / 2) == half);
        lemma_geometric_zero(root2, half, e);
        lemma_fpow_square(root, e);
        assert(fpow(root2, e) == rho);
        // rho^half = root^(n e) = 1
        let powers = |k: nat| fpow(rho, k);
        let upper = |k: nat| powers(k + half);
        lemma_fsum_splits(powers, half, half);
        assert forall|k: nat| k < half implies #[trigger] upper(k) == powers(k) by {
            lemma_fpow_adds(rho, half, k);
            assert(half + k == k + half);
            lemma_fpow_muls(root, d, half);
            assert(d * half == n * e) by (nonlinear_arith)
                requires
                    d == 2 * e,
                    n == 2 * half,
            ;
            lemma_fpow_muls(root, n, e);
            lemma_fpow_adds(root, half, half);
            lemma_fneg_is_scaling(0);
            lemma_fpow_one(e);
            lemma_fpow_bounded(rho, k);
            lemma_field_units(fpow(rho, k));
        }
        lemma_fsum_agrees(upper, powers, half);
        let inner = |k: nat| fpow(fpow(root2, e), k);
        lemma_fsum_agrees(inner, powers, half);
        lemma_small_mod(0, fr_modulus());
    }
}

/// The transform over the field, written as a sum in the field.
pub proof fn lemma_dft_is_fsum(a: Seq<nat>, root: nat, k: nat, n: nat)
    ensures
        dft_sum::<crate::field::Fr>(a, root, k, n) == fsum(
            |j: nat| fmul(fpow(root, j * k), a[j as int]),
            n,
        ),
    decreases n,
{
    if n > 0 {
        lemma_dft_is_fsum(a, root, k, (n - 1) as nat);
    }
}

/// The inverse of a primitive root of unity is one.
pub proof fn lemma_inverse_root_is_primitive(omega: nat, omega_inv: nat, n: nat)
    requires
        n >= 2,
        fmul(omega, omega_inv) == 1,
        fpow(omega, n / 2) == fr_modulus() - 1,
    ensures
        fpow(omega_inv, n / 2) == fr_modulus() - 1,
{
    lemma_modulus_large();
    let minus_one = (fr_modulus() - 1) as nat;
    let x = fpow(omega_inv, n / 2);
    lemma_fpow_of_product(omega, omega_inv, n / 2);
    lemma_fpow_one(n / 2);
    // (-1) x = 1, so x = (-1)(-1) x = -1
    lemma_fneg_is_scaling(0);
    lemma_fmul_associates(minus_one, minus_one, x);
    lemma_fpow_bounded(omega_inv, n / 2);
    lemma_field_units(x);
    lemma_field_units(minus_one);
}

/// The sum over `k` of `(omega_inv^i * omega^j)^k`: the length where `i` is
/// `j`, else zero.
proof fn lemma_kernel(omega: nat, omega_inv: nat, n: nat, i: nat, j: nat)
    requires
        is_pow2(n),
        i < n,
        j < n,
        fmul(omega, omega_inv) == 1,
        is_primitive_root(omega, n),
    ensures
        fsum(|k: nat| fpow(fmul(fpow(omega_inv, i), fpow(omega, j)), k), n) == if i == j {
            n % fr_modulus()
        } else {
            0
        },
{
    lemma_modulus_large();
    let rho = fmul(fpow(omega_inv, i), fpow(omega, j));
    let powers = |k: nat| fpow(rho, k);
    lemma_fmul_commutes(omega, omega_inv);
    if i == j {
        lemma_fpow_of_product(omega_inv, omega, i);
        lemma_fpow_one(i);
        assert forall|k: nat| k < n implies #[trigger] powers(k) == 1 by {
            lemma_fpow_one(k);
        }
        lemma_fsum_ones(powers, n);
    } else if i < j {
        let d = (j - i) as nat;
        // omega_inv^i omega^j = (omega_inv omega)^i omega^d = omega^d
        lemma_fpow_adds(omega, i, d);
        lemma_fmul_associates(fpow(omega_inv, i), fpow(omega, i), fpow(omega, d));
        lemma_fpow_of_product(omega_inv, omega, i);
        lemma_fpow_one(i);
        lemma_fpow_bounded(omega, d);
        lemma_field_units(fpow(omega, d));
        assert(rho == fpow(omega, d));
        lemma_geometric_zero(omega, n, d);
    } else {
        let d = (i - j) as nat;
        lemma_fpow_adds(omega_inv, d, j);
        lemma_fmul_associates(fpow(omega_inv, d), fpow(omega_inv, j), fpow(omega, j));
        lemma_fpow_of_product(omega_inv, omega, j);
        lemma_fpow_one(j);
        lemma_fpow_bounded(omega_inv, d);
        lemma_field_units(fpow(omega_inv, d));
        assert(d + j == i);
        assert(rho == fpow(omega_inv, d));
        lemma_inverse_root_is_primitive(omega, omega_inv, n);
        lemma_geometric_zero(omega_inv, n, d);
    }
}

/// Forward, then inverse, then scaled by the inverse of the length: the
/// transform of `a` at a primitive root of unity, transformed again at the
/// inverse of that root and scaled by the inverse of the number of elements, is
/// `a`.
pub proof fn lemma_fft_round_trip(
    a: Seq<nat>,
    omega: nat,
    omega_inv: nat,
    n_inv: nat,
    forward: Seq<nat>,
    back: Seq<nat>,
)
    requires
        is_pow2(a.len()),
        forall|i: int| 0 <= i < a.len() ==> a[i] < fr_modulus(),
        fmul(omega, omega_inv) == 1,
        is_primitive_root(omega, a.len()),
        fmul(n_inv, a.len() % fr_modulus()) == 1,
        is_dft::<crate::field::Fr>(forward, a, omega),
        is_dft::<crate::field::Fr>(back, forward, omega_inv),
    ensures
        back.len() == a.len(),
        forall|i: int| 0 <= i < a.len() ==> fmul(n_inv, #[trigger] back[i]) == a[i],
{
    lemma_modulus_large();
    let n = a.len();
    assert forall|i: int| 0 <= i < n implies fmul(n_inv, #[trigger] back[i]) == a[i] by {
        let ii = i as nat;
        // back[i] as a sum over k of sums over j
        let outer = |k: nat| fmul(fpow(omega_inv, k * ii), forward[k as int]);
        lemma_dft_is_fsum(forward, omega_inv, ii, n);
        let g = |k: nat, j: nat|
            fmul(fpow(omega_inv, k * ii), fmul(fpow(omega, j * k), a[j as int]));
        let by_rows = |k: nat| fsum(|j: nat| g(k, j), n);
        assert forall|k: nat| k < n implies #[trigger] outer(k) == by_rows(k) by {
            let inner = |j: nat| fmul(fpow(omega, j * k), a[j as int]);
            let row = |j: nat| g(k, j);
            lemma_dft_is_fsum(a, omega, k, n);
            assert(forward[k as int] == fsum(inner, n));
            assert forall|j: nat| j < n implies #[trigger] row(j) == fmul(
                fpow(omega_inv, k * ii),
                inner(j),
            ) by {}
            lemma_fsum_scales(fpow(omega_inv, k * ii), inner, row, n);
        }
        lemma_fsum_agrees(outer, by_rows, n);
        lemma_fsum_swaps(g, n, n);
        // each column is the element times the kernel
        let by_columns = |j: nat| fsum(|k: nat| g(k, j), n);
        let picked = |j: nat|
            if j == ii {
                fmul(n % fr_modulus(), a[j as int])
            } else {
                0
            };
        assert forall|j: nat| j < n implies #[trigger] by_columns(j) == picked(j) by {
            let rho = fmul(fpow(omega_inv, ii), fpow(omega, j));
            let powers = |k: nat| fpow(rho, k);
            let column = |k: nat| g(k, j);
            assert forall|k: nat| k < n implies #[trigger] column(k) == fmul(
                a[j as int],
                powers(k),
            ) by {
                let x = fpow(omega_inv, k * ii);
                let y = fpow(omega, j * k);
                lemma_fmul_associates(x, y, a[j as int]);
                lemma_fmul_commutes(fmul(x, y), a[j as int]);
                lemma_fpow_muls(omega_inv, ii, k);
                lemma_fpow_muls(omega, j, k);
                assert(k * ii == ii * k) by (nonlinear_arith);
                lemma_fpow_of_product(fpow(omega_inv, ii), fpow(omega, j), k);
            }
            lemma_fsum_scales(a[j as int], powers, column, n);
            lemma_kernel(omega, omega_inv, n, ii, j);
            if j == ii {
                lemma_fmul_commutes(a[j as int], n % fr_modulus());
            } else {
                assert(a[j as int] * 0 == 0) by (nonlinear_arith);
                lemma_small_mod(0, fr_modulus());
            }
        }
        lemma_fsum_agrees(by_columns, picked, n);
        lemma_residues_bounded(n % fr_modulus(), a[i]);
        lemma_fsum_single(picked, ii, n);
        // n_inv * (n * a[i]) = a[i]
        lemma_fmul_associates(n_inv, n % fr_modulus(), a[i]);
        lemma_field_units(a[i]);
    }
}

/// The sum of `f(0)`, ..., `f(n - 1)` in a module.
pub open spec fn gsum<G: FftGroup>(f: spec_fn(nat) -> G::Model, n: nat) -> G::Model
    decreases n,
{
    if n == 0 {
        G::neutral()
    } else {
        G::plus(gsum::<G>(f, (n - 1) as nat), f((n - 1) as nat))
    }
}

/// A sum of elements is an element.
pub proof fn lemma_gsum_valid<G: FftGroup>(f: spec_fn(nat) -> G::Model, n: nat)
    requires
        module_laws::<G>(),
        forall|k: nat| k < n ==> G::valid(#[trigger] f(k)),
    ensures
        G::valid(gsum::<G>(f, n)),
    decreases n,
{
    if n == 0 {
        reveal(stays_valid);
    } else {
        let last = (n - 1) as nat;
        lemma_gsum_valid::<G>(f, last);
        assert(G::valid(f(last)));
        lemma_plus_valid::<G>(gsum::<G>(f, last), f(last));
    }
}

/// Sums of terms that agree are equal.
pub proof fn lemma_gsum_agrees<G: FftGroup>(
    f: spec_fn(nat) -> G::Model,
    g: spec_fn(nat) -> G::Model,
    n: nat,
)
    requires
        forall|k: nat| k < n ==> #[trigger] f(k) == g(k),
    ensures
        gsum::<G>(f, n) == gsum::<G>(g, n),
    decreases n,
{
    if n > 0 {
        lemma_gsum_agrees::<G>(f, g, (n - 1) as nat);
        assert(f((n - 1) as nat) == g((n - 1) as nat));
    }
}

/// A common scalar comes out of a sum.
pub proof fn lemma_gsum_scales<G: FftGroup>(
    c: nat,
    f: spec_fn(nat) -> G::Model,
    g: spec_fn(nat) -> G::Model,
    n: nat,
)
    requires
        module_laws::<G>(),
        forall|k: nat| k < n ==> G::valid(#[trigger] f(k)),
        forall|k: nat| k < n ==> #[trigger] g(k) == G::times(c, f(k)),
    ensures
        gsum::<G>(g, n) == G::times(c, gsum::<G>(f, n)),
    decreases n,
{
    reveal(stays_valid);
    if n == 0 {
        lemma_times_distributes::<G>(c, G::neutral(), G::neutral());
    } else {
        let last = (n - 1) as nat;
        lemma_gsum_scales::<G>(c, f, g, last);
        lemma_gsum_valid::<G>(f, last);
        assert(G::valid(f(last)));
        assert(g(last) == G::times(c, f(last)));
        lemma_times_distributes::<G>(c, gsum::<G>(f, last), f(last));
    }
}

/// A sum of sums is the sum of the two sums.
pub proof fn lemma_gsum_adds<G: FftGroup>(
    f: spec_fn(nat) -> G::Model,
    g: spec_fn(nat) -> G::Model,
    h: spec_fn(nat) -> G::Model,
    n: nat,
)
    requires
        module_laws::<G>(),
        forall|k: nat| k < n ==> G::valid(#[trigger] f(k)),
        forall|k: nat| k < n ==> G::valid(#[trigger] g(k)),
        forall|k: nat| k < n ==> #[trigger] h(k) == G::plus(f(k), g(k)),
    ensures
        gsum::<G>(h, n) == G::plus(gsum::<G>(f, n), gsum::<G>(g, n)),
    decreases n,
{
    reveal(stays_valid);
    if n == 0 {
        lemma_plus_neutral::<G>(G::neutral());
    } else {
        let last = (n - 1) as nat;
        lemma_gsum_adds::<G>(f, g, h, last);
        lemma_gsum_valid::<G>(f, last);
        lemma_gsum_valid::<G>(g, last);
        assert(G::valid(f(last)));
        assert(G::valid(g(last)));
        assert(h(last) == G::plus(f(last), g(last)));
        lemma_plus_shuffle::<G>(gsum::<G>(f, last), gsum::<G>(g, last), f(last), g(last));
    }
}

/// A sum of zeros is zero.
pub proof fn lemma_gsum_zero<G: FftGroup>(f: spec_fn(nat) -> G::Model, n: nat)
    requires
        module_laws::<G>(),
        forall|k: nat| k < n ==> #[trigger] f(k) == G::neutral(),
    ensures
        gsum::<G>(f, n) == G::neutral(),
    decreases n,
{
    reveal(stays_valid);
    if n > 0 {
        lemma_gsum_zero::<G>(f, (n - 1) as nat);
        assert(f((n - 1) as nat) == G::neutral());
        lemma_plus_neutral::<G>(G::neutral());
    }
}

/// A sum with one term that is not zero is that term.
pub proof fn lemma_gsum_single<G: FftGroup>(f: spec_fn(nat) -> G::Model, i: nat, n: nat)
    requires
        module_laws::<G>(),
        forall|k: nat| k < n && k != i ==> #[trigger] f(k) == G::neutral(),
        G::valid(f(i)),
    ensures
        gsum::<G>(f, n) == if i < n {
            f(i)
        } else {
            G::neutral()
        },
    decreases n,
{
    reveal(stays_valid);
    if n > 0 {
        let last = (n - 1) as nat;
        lemma_gsum_single::<G>(f, i, last);
        if last != i {
            assert(f(last) == G::neutral());
        }
        lemma_plus_neutral::<G>(f(i));
        lemma_plus_neutral::<G>(G::neutral());
    }
}

/// The order of summation over two indices does not matter.
pub proof fn lemma_gsum_swaps<G: FftGroup>(
    g: spec_fn(nat, nat) -> G::Model,
    rows: nat,
    columns: nat,
)
    requires
        module_laws::<G>(),
        forall|k: nat, j: nat| k < rows && j < columns ==> G::valid(#[trigger] g(k, j)),
    ensures
        gsum::<G>(|k: nat| gsum::<G>(|j: nat| g(k, j), columns), rows) == gsum::<G>(
            |j: nat| gsum::<G>(|k: nat| g(k, j), rows),
            columns,
        ),
    decreases rows,
{
    let by_rows = |k: nat| gsum::<G>(|j: nat| g(k, j), columns);
    let by_columns = |j: nat| gsum::<G>(|k: nat| g(k, j), rows);
    if rows == 0 {
        lemma_gsum_zero::<G>(by_columns, columns);
    } else {
        let last = (rows - 1) as nat;
        lemma_gsum_swaps::<G>(g, last, columns);
        let before = |j: nat| gsum::<G>(|k: nat| g(k, j), last);
        let row = |j: nat| g(last, j);
        assert(by_rows(last) == gsum::<G>(row, columns));
        assert forall|j: nat| j < columns implies G::valid(#[trigger] before(j)) by {
            let column = |k: nat| g(k, j);
            assert forall|k: nat| k < last implies G::valid(#[trigger] column(k)) by {
                assert(G::valid(g(k, j)));
            }
            lemma_gsum_valid::<G>(column, last);
        }
        assert forall|j: nat| j < columns implies G::valid(#[trigger] row(j)) by {
            assert(G::valid(g(last, j)));
        }
        assert forall|j: nat| j < columns implies #[trigger] by_columns(j) == G::plus(
            before(j),
            row(j),
        ) by {
            let column = |k: nat| g(k, j);
            assert(column(last) == row(j));
        }
        lemma_gsum_adds::<G>(before, row, by_columns, columns);
        let by_rows_before = |k: nat| gsum::<G>(|j: nat| g(k, j), columns);
        assert(gsum::<G>(by_rows, last) == gsum::<G>(by_rows_before, last));
    }
}

/// One element scaled by each of a list of scalars, added up, is the element
/// scaled by the sum of the scalars.
pub proof fn lemma_gsum_collects<G: FftGroup>(
    c: spec_fn(nat) -> nat,
    x: G::Model,
    g: spec_fn(nat) -> G::Model,
    n: nat,
)
    requires
        module_laws::<G>(),
        G::valid(x),
        forall|k: nat| k < n ==> #[trigger] g(k) == G::times(c(k), x),
    ensures
        gsum::<G>(g, n) == G::times(fsum(c, n), x),
    decreases n,
{
    if n == 0 {
        lemma_times_collects::<G>(0, 0, x);
    } else {
        let last = (n - 1) as nat;
        lemma_gsum_collects::<G>(c, x, g, last);
        assert(g(last) == G::times(c(last), x));
        lemma_times_collects::<G>(fsum(c, last), c(last), x);
    }
}

/// The transform, written as a sum in the module.
pub proof fn lemma_dft_is_gsum<G: FftGroup>(a: Seq<G::Model>, root: nat, k: nat, n: nat)
    ensures
        dft_sum::<G>(a, root, k, n) == gsum::<G>(
            |j: nat| G::times(fpow(root, j * k), a[j as int]),
            n,
        ),
    decreases n,
{
    if n > 0 {
        lemma_dft_is_gsum::<G>(a, root, k, (n - 1) as nat);
    }
}

/// Forward, then inverse, then scaled by the inverse of the length, for the
/// elements of any module over the field, curve points among them: the
/// transform of `a` at a primitive root of unity, transformed again at the
/// inverse of that root and scaled by the inverse of the number of elements, is
/// `a`.
pub proof fn lemma_round_trip<G: FftGroup>(
    a: Seq<G::Model>,
    omega: nat,
    omega_inv: nat,
    n_inv: nat,
    forward: Seq<G::Model>,
    back: Seq<G::Model>,
)
    requires
        module_laws::<G>(),
        is_pow2(a.len()),
        all_valid::<G>(a),
        fmul(omega, omega_inv) == 1,
        is_primitive_root(omega, a.len()),
        fmul(n_inv, a.len() % fr_modulus()) == 1,
        is_dft::<G>(forward, a, omega),
        is_dft::<G>(back, forward, omega_inv),
    ensures
        back.len() == a.len(),
        forall|i: int| 0 <= i < a.len() ==> G::times(n_inv, #[trigger] back[i]) == a[i],
{
    lemma_modulus_large();
    let n = a.len();
    assert forall|i: int| 0 <= i < n implies G::times(n_inv, #[trigger] back[i]) == a[i] by {
        let ii = i as nat;
        // back[i] as a sum over k of sums over j
        let outer = |k: nat| G::times(fpow(omega_inv, k * ii), forward[k as int]);
        lemma_dft_is_gsum::<G>(forward, omega_inv, ii, n);
        let g = |k: nat, j: nat|
            G::times(fpow(omega_inv, k * ii), G::times(fpow(omega, j * k), a[j as int]));
        let by_rows = |k: nat| gsum::<G>(|j: nat| g(k, j), n);
        assert forall|k: nat, j: nat| k < n && j < n implies G::valid(#[trigger] g(k, j)) by {
            assert(G::valid(a[j as int]));
            lemma_times_valid::<G>(fpow(omega, j * k), a[j as int]);
            lemma_times_valid::<G>(
                fpow(omega_inv, k * ii),
                G::times(fpow(omega, j * k), a[j as int]),
            );
        }
        assert forall|k: nat| k < n implies #[trigger] outer(k) == by_rows(k) by {
            let inner = |j: nat| G::times(fpow(omega, j * k), a[j as int]);
            let row = |j: nat| g(k, j);
            lemma_dft_is_gsum::<G>(a, omega, k, n);
            assert(forward[k as int] == gsum::<G>(inner, n));
            assert forall|j: nat| j < n implies G::valid(#[trigger] inner(j)) by {
                assert(G::valid(a[j as int]));
                lemma_times_valid::<G>(fpow(omega, j * k), a[j as int]);
            }
            assert forall|j: nat| j < n implies #[trigger] row(j) == G::times(
                fpow(omega_inv, k * ii),
                inner(j),
            ) by {}
            lemma_gsum_scales::<G>(fpow(omega_inv, k * ii), inner, row, n);
        }
        lemma_gsum_agrees::<G>(outer, by_rows, n);
        lemma_gsum_swaps::<G>(g, n, n);
        // each column is the element scaled by the kernel
        let by_columns = |j: nat| gsum::<G>(|k: nat| g(k, j), n);
        let picked = |j: nat|
            if j == ii {
                G::times(n % fr_modulus(), a[j as int])
            } else {
                G::neutral()
            };
        assert forall|j: nat| j < n implies #[trigger] by_columns(j) == picked(j) by {
            let rho = fmul(fpow(omega_inv, ii), fpow(omega, j));
            let powers = |k: nat| fpow(rho, k);
            let column = |k: nat| g(k, j);
            assert(G::valid(a[j as int]));
            assert forall|k: nat| k < n implies #[trigger] column(k) == G::times(
                powers(k),
                a[j as int],
            ) by {
                let x = fpow(omega_inv, k * ii);
                let y = fpow(omega, j * k);
                lemma_times_composes::<G>(x, y, a[j as int]);
                lemma_fpow_muls(omega_inv, ii, k);
                lemma_fpow_muls(omega, j, k);
                assert(k * ii == ii * k) by (nonlinear_arith);
                lemma_fpow_of_product(fpow(omega_inv, ii), fpow(omega, j), k);
                assert(fmul(x, y) == powers(k));
            }
            lemma_gsum_collects::<G>(powers, a[j as int], column, n);
            lemma_kernel(omega, omega_inv, n, ii, j);
            lemma_times_collects::<G>(0, 0, a[j as int]);
        }
        lemma_gsum_agrees::<G>(by_columns, picked, n);
        assert(G::valid(a[i]));
        lemma_times_valid::<G>(n % fr_modulus(), a[i]);
        lemma_gsum_single::<G>(picked, ii, n);
        // n_inv * (n * a[i]) = a[i]
        lemma_times_composes::<G>(n_inv, n % fr_modulus(), a[i]);
    }
}

/// The round trip for curve points, under the laws of the group: the
/// transform of the points `a` at a primitive root of unity, transformed again
/// at the inverse of that root and scaled by the inverse of the number of
/// points, is `a`.
pub proof fn lemma_points_round_trip(
    a: Seq<Coordinates>,
    omega: nat,
    omega_inv: nat,
    n_inv: nat,
    forward: Seq<Coordinates>,
    back: Seq<Coordinates>,
)
    requires
        group_laws(),
        is_pow2(a.len()),
        forall|i: int| 0 <= i < a.len() ==> on_curve(#[trigger] a[i]),
        fmul(omega, omega_inv) == 1,
        is_primitive_root(omega, a.len()),
        fmul(n_inv, a.len() % fr_modulus()) == 1,
        is_dft::<G1>(forward, a, omega),
        is_dft::<G1>(back, forward, omega_inv),
    ensures
        back.len() == a.len(),
        forall|i: int| 0 <= i < a.len() ==> g1_scaled(#[trigger] back[i], n_inv) == a[i],
{
    lemma_g1_module_laws();
    lemma_round_trip::<G1>(a, omega, omega_inv, n_inv, forward, back);
}

} // verus!
