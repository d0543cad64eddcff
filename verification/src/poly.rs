//! Polynomials over the scalar field, by their coefficients: evaluation,
//! inner products, division by a linear factor and products of linear factors.

use crate::fft_laws::{
    fsum, lemma_fsum_adds, lemma_fsum_agrees, lemma_fsum_bounded, lemma_fsum_scales,
    lemma_fsum_splits, lemma_fsum_zero,
};
use crate::field::{
    all_wf, fadd, fmul, fneg, fpow, fr_modulus, fsub, lemma_fadd_associates, lemma_fadd_commutes,
    lemma_field_units, lemma_fmul_associates, lemma_fmul_commutes, lemma_fmul_distributes,
    lemma_fpow_adds, lemma_modulus_large, lemma_residues_bounded, values_of, Fr,
};
use vstd::arithmetic::div_mod::*;
use vstd::prelude::*;
use vstd::slice::slice_subrange;

verus! {

/// The value of the polynomial with the given coefficients at `x`: the sum of
/// `coeffs[i] * x^i`.
pub open spec fn poly_eval(coeffs: Seq<nat>, x: nat) -> nat {
    fsum(|i: nat| fmul(coeffs[i as int], fpow(x, i)), coeffs.len())
}

/// The value at `x` of the polynomial whose coefficients are those from place
/// `i` on: `coeffs[i] + x * (coeffs[i + 1] + x * (...))`.
pub open spec fn horner(coeffs: Seq<nat>, x: nat, i: nat) -> nat
    decreases coeffs.len() - i,
{
    if i >= coeffs.len() {
        0
    } else {
        fadd(coeffs[i as int], fmul(x, horner(coeffs, x, i + 1)))
    }
}

/// Horner's values are residues.
pub proof fn lemma_horner_bounded(coeffs: Seq<nat>, x: nat, i: nat)
    ensures
        horner(coeffs, x, i) < fr_modulus(),
{
    lemma_modulus_large();
    if i < coeffs.len() {
        lemma_residues_bounded(coeffs[i as int], fmul(x, horner(coeffs, x, i + 1)));
    }
}

/// The terms before place `i`, and Horner's value from place `i` on scaled by
/// `x^i`, make up the whole value.
proof fn lemma_horner_from(coeffs: Seq<nat>, x: nat, i: nat)
    requires
        i <= coeffs.len(),
    ensures
        fadd(
            fsum(|t: nat| fmul(coeffs[t as int], fpow(x, t)), i),
            fmul(fpow(x, i), horner(coeffs, x, i)),
        ) == poly_eval(coeffs, x),
    decreases coeffs.len() - i,
{
    lemma_modulus_large();
    let term = |t: nat| fmul(coeffs[t as int], fpow(x, t));
    if i == coeffs.len() {
        assert(fpow(x, i) * 0 == 0) by (nonlinear_arith);
        lemma_small_mod(0, fr_modulus());
        lemma_fsum_bounded(term, i);
        lemma_field_units(fsum(term, i));
    } else {
        lemma_horner_from(coeffs, x, i + 1);
        let xi = fpow(x, i);
        let c = coeffs[i as int];
        let rest = horner(coeffs, x, i + 1);
        // x^i (c + x rest) = c x^i + x^(i + 1) rest
        lemma_fmul_distributes(xi, c, fmul(x, rest));
        lemma_fmul_commutes(xi, c);
        lemma_fmul_associates(xi, x, rest);
        lemma_fpow_adds(x, i, 1);
        crate::field::lemma_fpow_succ(x, i);
        lemma_fmul_commutes(xi, x);
        assert(term(i) == fmul(c, xi));
        lemma_fadd_associates(fsum(term, i), fmul(c, xi), fmul(fpow(x, i + 1), rest));
    }
}

/// Horner's rule gives the value of the polynomial.
pub proof fn lemma_horner(coeffs: Seq<nat>, x: nat)
    requires
        x < fr_modulus(),
    ensures
        horner(coeffs, x, 0) == poly_eval(coeffs, x),
{
    lemma_modulus_large();
    lemma_horner_from(coeffs, x, 0);
    lemma_horner_bounded(coeffs, x, 0);
    lemma_field_units(horner(coeffs, x, 0));
    lemma_small_mod(horner(coeffs, x, 0), fr_modulus());
}

/// The value of the polynomial is the value of its first `a` coefficients plus
/// `x^a` times the value of those that follow.
pub proof fn lemma_poly_eval_splits(coeffs: Seq<nat>, x: nat, a: nat)
    requires
        a <= coeffs.len(),
    ensures
        poly_eval(coeffs, x) == fadd(
            poly_eval(coeffs.take(a as int), x),
            fmul(fpow(x, a), poly_eval(coeffs.skip(a as int), x)),
        ),
{
    let term = |t: nat| fmul(coeffs[t as int], fpow(x, t));
    let b = (coeffs.len() - a) as nat;
    lemma_fsum_splits(term, a, b);
    let low = coeffs.take(a as int);
    let high = coeffs.skip(a as int);
    let low_term = |t: nat| fmul(low[t as int], fpow(x, t));
    let high_term = |t: nat| fmul(high[t as int], fpow(x, t));
    let shifted = |t: nat| term(t + a);
    assert forall|t: nat| t < a implies #[trigger] term(t) == low_term(t) by {}
    lemma_fsum_agrees(term, low_term, a);
    assert forall|t: nat| t < b implies #[trigger] shifted(t) == fmul(fpow(x, a), high_term(t)) by {
        assert(high[t as int] == coeffs[(t + a) as int]);
        lemma_fpow_adds(x, a, t);
        assert(a + t == t + a);
        lemma_fmul_associates(fpow(x, a), fpow(x, t), high[t as int]);
        lemma_fmul_commutes(fmul(fpow(x, a), fpow(x, t)), high[t as int]);
        lemma_fmul_commutes(fpow(x, t), high[t as int]);
    }
    lemma_fsum_scales(fpow(x, a), high_term, shifted, b);
}

/// The length of the pieces that `n` items are cut into for `num_threads`
/// workers: `n / num_threads`, rounded up.
pub open spec fn piece_len(n: nat, num_threads: nat) -> nat {
    if n % num_threads != 0 {
        n / num_threads + 1
    } else {
        n / num_threads
    }
}

/// The length of the pieces that `n` items are cut into.
pub fn chunk_len(n: usize, num_threads: usize) -> (r: usize)
    requires
        num_threads >= 1,
    ensures
        r == piece_len(n as nat, num_threads as nat),
        n >= 1 ==> r >= 1,
{
    let q = n / num_threads;
    proof {
        if n >= num_threads {
            lemma_div_non_zero(n as int, num_threads as int);
        } else {
            lemma_small_mod(n as nat, num_threads as nat);
        }
    }
    if n % num_threads != 0 {
        proof {
            // more than one worker, so at most half of the items to a piece
            assert(num_threads >= 2) by {
                if num_threads == 1 {
                    assert(n % 1 == 0);
                }
            }
            lemma_div_is_ordered_by_denominator(n as int, 2, num_threads as int);
        }
        q + 1
    } else {
        q
    }
}

/// The value of a polynomial in coefficient form at `point`, by Horner's
/// rule.
fn evaluate(poly: &[Fr], point: &Fr) -> (r: Fr)
    requires
        all_wf(poly@),
        point.wf(),
    ensures
        r.wf(),
        r@ == poly_eval(values_of(poly@), point@),
{
    let ghost coeffs = values_of(poly@);
    let mut acc = Fr::zero();
    let mut i: usize = poly.len();
    while i > 0
        invariant
            i <= poly.len(),
            all_wf(poly@),
            point.wf(),
            coeffs == values_of(poly@),
            acc.wf(),
            acc@ == horner(coeffs, point@, i as nat),
        decreases i,
    {
        i -= 1;
        proof {
            lemma_fmul_commutes(acc@, point@);
            lemma_fadd_commutes(fmul(acc@, point@), coeffs[i as int]);
            assert(coeffs[i as int] == poly@[i as int]@);
        }
        acc = acc.mul(point).add(&poly[i]);
    }
    proof {
        lemma_horner(coeffs, point@);
    }
    acc
}

/// Evaluates a polynomial in coefficient form at `point`. With enough
/// coefficients for the workers, the coefficients are cut into as many pieces as
/// there are workers, each piece is evaluated on its own and scaled by the power
/// of `point` that it starts at, and the pieces are added up.
pub fn eval_polynomial(poly: &[Fr], point: Fr, num_threads: usize) -> (r: Fr)
    requires
        num_threads >= 1,
        all_wf(poly@),
        point.wf(),
    ensures
        r.wf(),
        r@ == poly_eval(values_of(poly@), point@),
{
    let n = poly.len();
    if n < num_threads / 2 + num_threads % 2 {
        return evaluate(poly, &point);
    }
    let chunk_size = chunk_len(n, num_threads);
    let ghost coeffs = values_of(poly@);
    let mut total = Fr::zero();
    let mut start: usize = 0;
    proof {
        assert(coeffs.take(0) =~= Seq::<nat>::empty());
    }
    while start < n
        invariant
            start <= n,
            n == poly.len(),
            chunk_size >= 1,
            all_wf(poly@),
            point.wf(),
            coeffs == values_of(poly@),
            total.wf(),
            total@ == poly_eval(coeffs.take(start as int), point@),
        decreases n - start,
    {
        let end = if n - start < chunk_size {
            n
        } else {
            start + chunk_size
        };
        let piece = slice_subrange(poly, start, end);
        assert(all_wf(piece@)) by {
            assert forall|i: int| 0 <= i < piece@.len() implies (#[trigger] piece@[i]).wf() by {
                assert(piece@[i] == poly@[start + i]);
            }
        }
        let part = evaluate(piece, &point).mul(&point.pow(start as u64));
        proof {
            let upto = coeffs.take(end as int);
            lemma_poly_eval_splits(upto, point@, start as nat);
            assert(upto.take(start as int) =~= coeffs.take(start as int));
            assert(upto.skip(start as int) =~= values_of(piece@));
            lemma_fmul_commutes(poly_eval(values_of(piece@), point@), fpow(point@, start as nat));
        }
        total = total.add(&part);
        start = end;
    }
    proof {
        assert(coeffs.take(n as int) =~= coeffs);
    }
    total
}

/// The inner product of two lists: the sum of `a[i] * b[i]`.
pub open spec fn inner_product(a: Seq<nat>, b: Seq<nat>) -> nat {
    fsum(|i: nat| fmul(a[i as int], b[i as int]), a.len())
}

/// Computes the inner product of two lists of one length.
pub fn compute_inner_product(a: &[Fr], b: &[Fr]) -> (acc: Fr)
    requires
        a.len() == b.len(),
        all_wf(a@),
        all_wf(b@),
    ensures
        acc.wf(),
        acc@ == inner_product(values_of(a@), values_of(b@)),
{
    let ghost term = |i: nat| fmul(values_of(a@)[i as int], values_of(b@)[i as int]);
    let mut acc = Fr::zero();
    let mut i: usize = 0;
    while i < a.len()
        invariant
            i <= a.len(),
            a.len() == b.len(),
            all_wf(a@),
            all_wf(b@),
            term == |i: nat| fmul(values_of(a@)[i as int], values_of(b@)[i as int]),
            acc.wf(),
            acc@ == fsum(term, i as nat),
        decreases a.len() - i,
    {
        proof {
            assert(term(i as nat) == fmul(a@[i as int]@, b@[i as int]@));
        }
        acc = acc.add(&a[i].mul(&b[i]));
        i += 1;
    }
    acc
}

/// The first `count` powers of `base`: one, `base`, its square, and on.
pub fn powers(base: Fr, count: usize) -> (r: Vec<Fr>)
    requires
        base.wf(),
    ensures
        r.len() == count,
        all_wf(r@),
        forall|i: int| 0 <= i < count ==> (#[trigger] r@[i])@ == fpow(base@, i as nat),
{
    let mut r: Vec<Fr> = Vec::new();
    let mut power = Fr::one();
    let mut i: usize = 0;
    while i < count
        invariant
            i <= count,
            base.wf(),
            power.wf(),
            power@ == fpow(base@, i as nat),
            r.len() == i,
            all_wf(r@),
            forall|t: int| 0 <= t < i ==> (#[trigger] r@[t])@ == fpow(base@, t as nat),
        decreases count - i,
    {
        r.push(power);
        power = base.mul(&power);
        i += 1;
    }
    r
}

/// The product of `f(0)`, ..., `f(n - 1)` in the field.
pub open spec fn fprod(f: spec_fn(nat) -> nat, n: nat) -> nat
    decreases n,
{
    if n == 0 {
        1
    } else {
        fmul(f((n - 1) as nat), fprod(f, (n - 1) as nat))
    }
}

/// A product is a residue.
pub proof fn lemma_fprod_bounded(f: spec_fn(nat) -> nat, n: nat)
    ensures
        fprod(f, n) < fr_modulus(),
{
    lemma_modulus_large();
    if n > 0 {
        lemma_residues_bounded(f((n - 1) as nat), fprod(f, (n - 1) as nat));
    }
}

/// Products of factors that agree are equal.
pub proof fn lemma_fprod_agrees(f: spec_fn(nat) -> nat, g: spec_fn(nat) -> nat, n: nat)
    requires
        forall|k: nat| k < n ==> #[trigger] f(k) == g(k),
    ensures
        fprod(f, n) == fprod(g, n),
    decreases n,
{
    if n > 0 {
        lemma_fprod_agrees(f, g, (n - 1) as nat);
        assert(f((n - 1) as nat) == g((n - 1) as nat));
    }
}

/// A product over `a + b` factors is the product over the first `a` times the
/// product over the `b` that follow.
pub proof fn lemma_fprod_splits(f: spec_fn(nat) -> nat, a: nat, b: nat)
    ensures
        fprod(f, a + b) == fmul(fprod(f, a), fprod(|k: nat| f(k + a), b)),
    decreases b,
{
    lemma_modulus_large();
    let shifted = |k: nat| f(k + a);
    if b == 0 {
        lemma_fprod_bounded(f, a);
        lemma_field_units(fprod(f, a));
    } else {
        let last = (b - 1) as nat;
        lemma_fprod_splits(f, a, last);
        assert(shifted(last) == f((a + b - 1) as nat));
        let x = shifted(last);
        lemma_fmul_associates(x, fprod(f, a), fprod(shifted, last));
        lemma_fmul_commutes(x, fprod(f, a));
        lemma_fmul_associates(fprod(f, a), x, fprod(shifted, last));
    }
}

/// The value at `z` of the polynomial that vanishes at the given roots: the
/// product of `z - root`.
pub open spec fn vanishing_value(roots: Seq<nat>, z: nat) -> nat {
    fprod(|i: nat| fsub(z, roots[i as int]), roots.len())
}

/// The product of `z - root` over the given roots.
fn vanishing_product(roots: &[Fr], z: &Fr) -> (r: Fr)
    requires
        all_wf(roots@),
        z.wf(),
    ensures
        r.wf(),
        r@ == vanishing_value(values_of(roots@), z@),
{
    let ghost factor = |i: nat| fsub(z@, values_of(roots@)[i as int]);
    let mut acc = Fr::one();
    let mut i: usize = 0;
    while i < roots.len()
        invariant
            i <= roots.len(),
            all_wf(roots@),
            z.wf(),
            factor == |i: nat| fsub(z@, values_of(roots@)[i as int]),
            acc.wf(),
            acc@ == fprod(factor, i as nat),
        decreases roots.len() - i,
    {
        proof {
            assert(factor(i as nat) == fsub(z@, roots@[i as int]@));
        }
        acc = z.sub(&roots[i]).mul(&acc);
        i += 1;
    }
    acc
}

/// Evaluates at `z` the polynomial that vanishes at the given roots. With
/// enough roots for the workers, the roots are cut into as many pieces as there
/// are workers, and the products over the pieces are multiplied.
pub fn evaluate_vanishing_polynomial(roots: &[Fr], z: Fr, num_threads: usize) -> (r: Fr)
    requires
        num_threads >= 1,
        all_wf(roots@),
        z.wf(),
    ensures
        r.wf(),
        r@ == vanishing_value(values_of(roots@), z@),
{
    let n = roots.len();
    if n < num_threads / 2 + num_threads % 2 {
        return vanishing_product(roots, &z);
    }
    let chunk_size = chunk_len(n, num_threads);
    let ghost all = values_of(roots@);
    let ghost factor = |i: nat| fsub(z@, all[i as int]);
    let mut total = Fr::one();
    let mut start: usize = 0;
    while start < n
        invariant
            start <= n,
            n == roots.len(),
            chunk_size >= 1,
            all_wf(roots@),
            z.wf(),
            all == values_of(roots@),
            factor == |i: nat| fsub(z@, all[i as int]),
            total.wf(),
            total@ == fprod(factor, start as nat),
        decreases n - start,
    {
        let end = if n - start < chunk_size {
            n
        } else {
            start + chunk_size
        };
        let piece = slice_subrange(roots, start, end);
        assert(all_wf(piece@)) by {
            assert forall|i: int| 0 <= i < piece@.len() implies (#[trigger] piece@[i]).wf() by {
                assert(piece@[i] == roots@[start + i]);
            }
        }
        let part = vanishing_product(piece, &z);
        proof {
            let b = (end - start) as nat;
            lemma_fprod_splits(factor, start as nat, b);
            let shifted = |k: nat| factor(k + start as nat);
            let piece_factor = |i: nat| fsub(z@, values_of(piece@)[i as int]);
            assert forall|k: nat| k < b implies #[trigger] shifted(k) == piece_factor(k) by {
                assert(values_of(piece@)[k as int] == all[(k + start) as int]);
            }
            lemma_fprod_agrees(shifted, piece_factor, b);
        }
        total = total.mul(&part);
        start = end;
    }
    total
}

/// Coefficient `i` of the quotient of a polynomial by `X - b`: the value at
/// `b` of the polynomial whose coefficients are those after place `i`.
pub open spec fn quotient_coeff(a: Seq<nat>, b: nat, i: nat) -> nat {
    horner(a, b, i + 1)
}

/// `q` is the quotient of `a` by `X - b`.
pub open spec fn is_quotient(q: Seq<nat>, a: Seq<nat>, b: nat) -> bool {
    &&& q.len() + 1 == a.len()
    &&& forall|i: int| 0 <= i < q.len() ==> #[trigger] q[i] == quotient_coeff(a, b, i as nat)
}

/// Subtracting a product with a negated factor is adding the product.
proof fn lemma_sub_negated(x: nat, q: nat, b: nat)
    ensures
        fsub(x, fmul(q, fneg(b))) == fadd(x, fmul(b, q)),
{
    lemma_modulus_large();
    let m = fr_modulus() as int;
    // q * (-b) = -(q b)
    lemma_mul_mod_noop_right(q as int, 0 - b as int, m);
    assert(q as int * (0 - b as int) == 0 - (q * b) as int) by (nonlinear_arith);
    lemma_sub_mod_noop_right(x as int, 0 - (q * b) as int, m);
    assert(q * b == b * q) by (nonlinear_arith);
    lemma_add_mod_noop_right(x as int, (b * q) as int, m);
}

/// Divides the polynomial `a` by `X - b`, leaving out the remainder: the
/// quotient has one coefficient less than `a`.
pub fn kate_division(a: &[Fr], b: Fr) -> (q: Vec<Fr>)
    requires
        a.len() >= 1,
        all_wf(a@),
        b.wf(),
    ensures
        all_wf(q@),
        is_quotient(values_of(q@), values_of(a@), b@),
{
    let ghost coeffs = values_of(a@);
    let ghost point = b@;
    let b = b.neg();
    let n = a.len();
    let mut q: Vec<Fr> = Vec::new();
    let mut k: usize = 0;
    while k < n - 1
        invariant
            k <= n - 1,
            q.len() == k,
            forall|i: int| 0 <= i < k ==> (#[trigger] q@[i]).wf() && q@[i]@ == 0,
        decreases n - 1 - k,
    {
        q.push(Fr::zero());
        k += 1;
    }
    let mut tmp = Fr::zero();
    let mut i: usize = n - 1;
    proof {
        assert(0 * b@ == 0) by (nonlinear_arith);
        lemma_modulus_large();
        lemma_small_mod(0, fr_modulus());
    }
    while i > 0
        invariant
            i <= n - 1,
            n == a.len(),
            q.len() == n - 1,
            all_wf(a@),
            all_wf(q@),
            coeffs == values_of(a@),
            b.wf(),
            b@ == fneg(point),
            tmp.wf(),
            tmp@ == fmul(horner(coeffs, point, (i + 1) as nat), b@),
            forall|t: int| i <= t < n - 1 ==> (#[trigger] q@[t])@ == quotient_coeff(
                coeffs,
                point,
                t as nat,
            ),
        decreases i,
    {
        i -= 1;
        let r = &a[i + 1];
        let lead_coeff = r.sub(&tmp);
        proof {
            assert(coeffs[(i + 1) as int] == r@);
            lemma_sub_negated(r@, horner(coeffs, point, (i + 2) as nat), point);
        }
        q.set(i, lead_coeff);
        tmp = lead_coeff.mul(&b);
    }
    proof {
        assert(values_of(q@).len() == q@.len());
        assert forall|t: int| 0 <= t < values_of(q@).len() implies #[trigger] values_of(q@)[t]
            == quotient_coeff(coeffs, point, t as nat) by {
            assert(values_of(q@)[t] == q@[t]@);
        }
    }
    q
}

/// The division leaves the value at `b` as its remainder: at every `x`, the
/// polynomial is `x - b` times its quotient by `X - b`, plus its value at `b`.
pub proof fn lemma_kate_division(a: Seq<nat>, b: nat, q: Seq<nat>, x: nat)
    requires
        a.len() >= 1,
        b < fr_modulus(),
        x < fr_modulus(),
        is_quotient(q, a, b),
    ensures
        poly_eval(a, x) == fadd(fmul(fsub(x, b), poly_eval(q, x)), poly_eval(a, b)),
{
    lemma_horner(a, x);
    lemma_horner(a, b);
    lemma_horner(q, x);
    lemma_division_from(a, b, q, x, 0);
}

/// From place `i` on: Horner's value of `a` at `x` is Horner's value of `a` at
/// `b` plus `x - b` times Horner's value of the quotient at `x`.
proof fn lemma_division_from(a: Seq<nat>, b: nat, q: Seq<nat>, x: nat, i: nat)
    requires
        a.len() >= 1,
        i <= a.len(),
        is_quotient(q, a, b),
    ensures
        horner(a, x, i) == fadd(fmul(fsub(x, b), horner(q, x, i)), horner(a, b, i)),
    decreases a.len() - i,
{
    lemma_modulus_large();
    let m = fr_modulus() as int;
    if i >= a.len() {
        assert(fsub(x, b) * 0 == 0) by (nonlinear_arith);
        lemma_small_mod(0, fr_modulus());
    } else {
        lemma_division_from(a, b, q, x, i + 1);
        let c = a[i as int];
        let ax = horner(a, x, i + 1);
        let ab = horner(a, b, i + 1);
        let qx = horner(q, x, i + 1);
        let d = fsub(x, b);
        // horner(q, x, i) = ab + x qx where i is a place of q, else zero
        let qi = horner(q, x, i);
        assert(qi == if i < q.len() {
            fadd(ab, fmul(x, qx))
        } else {
            0
        }) by {
            if i < q.len() {
                assert(q[i as int] == quotient_coeff(a, b, i));
            }
        }
        if i >= q.len() {
            // the last place: ax and qx are zero
            assert(ax == 0 && ab == 0 && qx == 0);
            assert(d * 0 == 0) by (nonlinear_arith);
            lemma_small_mod(0, fr_modulus());
            assert(x * 0 == 0 && b * 0 == 0) by (nonlinear_arith);
            assert(qi == 0);
            assert(horner(a, x, i) == c % fr_modulus());
            assert(horner(a, b, i) == c % fr_modulus());
            lemma_mod_twice(c as int, m);
        } else {
            // all congruences below are modulo m
            let lhs = c as int + x as int * ax as int;
            let rhs = (x as int - b as int) * (ab as int + x as int * qx as int) + (c as int
                + b as int * ab as int);
            let ax_int = (x as int - b as int) * qx as int + ab as int;
            assert(lhs - x as int * (ax as int - ax_int) == rhs) by (nonlinear_arith)
                requires
                    lhs == c as int + x as int * ax as int,
                    rhs == (x as int - b as int) * (ab as int + x as int * qx as int) + (c as int
                        + b as int * ab as int),
                    ax_int == (x as int - b as int) * qx as int + ab as int,
            ;
            // ax is congruent to ax_int
            assert(ax as int % m == ax_int % m) by {
                lemma_mul_mod_noop_left(x as int - b as int, qx as int, m);
                lemma_add_mod_noop_left_int(d as int * qx as int, ab as int, m);
                lemma_add_mod_noop_left_int((x as int - b as int) * qx as int, ab as int, m);
                lemma_horner_bounded(a, x, i + 1);
                lemma_small_mod(ax, fr_modulus());
            }
            lemma_congruent_product(x as int, ax as int, ax_int, m);
            // the left side
            assert(horner(a, x, i) as int == lhs % m) by {
                lemma_add_mod_noop_right(c as int, x as int * ax as int, m);
            }
            // the right side
            assert(fadd(fmul(d, qi), horner(a, b, i)) as int == rhs % m) by {
                let s = ab as int + x as int * qx as int;
                lemma_add_mod_noop_right(ab as int, x as int * qx as int, m);
                assert(qi as int == s % m);
                lemma_mul_mod_noop(x as int - b as int, s, m);
                lemma_mul_mod_noop(d as int, qi as int, m);
                lemma_mod_twice(x as int - b as int, m);
                lemma_mod_twice(s, m);
                lemma_small_mod(d, fr_modulus());
                lemma_small_mod(qi, fr_modulus());
                lemma_residues_bounded(x, b);
                lemma_horner_bounded(q, x, i);
                let t = c as int + b as int * ab as int;
                lemma_add_mod_noop_right(c as int, b as int * ab as int, m);
                assert(horner(a, b, i) as int == t % m);
                lemma_add_mod_noop((x as int - b as int) * s, t, m);
                lemma_add_mod_noop(fmul(d, qi) as int, horner(a, b, i) as int, m);
                lemma_horner_bounded(a, b, i);
                lemma_small_mod(horner(a, b, i), fr_modulus());
                lemma_residues_bounded(d, qi);
                lemma_small_mod(fmul(d, qi), fr_modulus());
            }
            assert(lhs % m == rhs % m) by {
                assert(rhs == c as int + x as int * ax_int) by (nonlinear_arith)
                    requires
                        lhs - x as int * (ax as int - ax_int) == rhs,
                        lhs == c as int + x as int * ax as int,
                ;
                lemma_add_mod_noop_right(c as int, x as int * ax as int, m);
                lemma_add_mod_noop_right(c as int, x as int * ax_int, m);
            }
        }
    }
}

proof fn lemma_add_mod_noop_left_int(a: int, b: int, m: int)
    requires
        m > 0,
    ensures
        ((a % m) + b) % m == (a + b) % m,
{
    lemma_add_mod_noop_right(b, a, m);
}

/// Products of a factor with congruent numbers are congruent.
proof fn lemma_congruent_product(x: int, a: int, b: int, m: int)
    requires
        m > 0,
        a % m == b % m,
    ensures
        (x * a) % m == (x * b) % m,
{
    lemma_mul_mod_noop_right(x, a, m);
    lemma_mul_mod_noop_right(x, b, m);
}


/// Coefficient `i` of a polynomial, zero outside its coefficients.
pub open spec fn coeff_at(p: Seq<nat>, i: int) -> nat {
    if 0 <= i < p.len() {
        p[i]
    } else {
        0
    }
}

/// Coefficient `i` of the product of a polynomial `p` with `d * (X - root)`.
pub open spec fn times_linear_coeff(p: Seq<nat>, root: nat, d: nat, i: int) -> nat {
    fadd(fmul(coeff_at(p, i), fmul(fneg(d), root)), fmul(coeff_at(p, i - 1), d))
}

/// The coefficients of the product of a polynomial `p` with `d * (X - root)`.
pub open spec fn times_linear(p: Seq<nat>, root: nat, d: nat) -> Seq<nat> {
    Seq::new(p.len() + 1, |i: int| times_linear_coeff(p, root, d, i))
}

/// The product of the first `t` factors `d[s] * (X - roots[s])`, by its
/// coefficients.
pub open spec fn product_poly(roots: Seq<nat>, d: Seq<nat>, t: nat) -> Seq<nat>
    decreases t,
{
    if t == 0 {
        seq![1nat]
    } else {
        times_linear(product_poly(roots, d, (t - 1) as nat), roots[t - 1], d[t - 1])
    }
}

/// The value at `x` of the product of the first `t` factors.
pub open spec fn product_value(roots: Seq<nat>, d: Seq<nat>, x: nat, t: nat) -> nat {
    fprod(|s: nat| fmul(d[s as int], fsub(x, roots[s as int])), t)
}

/// Negating `d` and multiplying by the root, plus `d` times `x`, is `d` times
/// `x` less the root.
proof fn lemma_linear_factor(d: nat, root: nat, x: nat)
    ensures
        fadd(fmul(fneg(d), root), fmul(d, x)) == fmul(d, fsub(x, root)),
{
    lemma_modulus_large();
    let m = fr_modulus() as int;
    lemma_mul_mod_noop_left(0 - d as int, root as int, m);
    lemma_add_mod_noop((0 - d as int) * root as int, (d * x) as int, m);
    lemma_mod_twice((0 - d as int) * root as int, m);
    lemma_mul_mod_noop_right(d as int, x as int - root as int, m);
    assert((0 - d as int) * root as int + (d * x) as int == d as int * (x as int - root as int))
        by (nonlinear_arith);
    lemma_residues_bounded(fneg(d), root);
    lemma_small_mod(fmul(fneg(d), root), fr_modulus());
    lemma_residues_bounded(d, x);
    lemma_small_mod(fmul(d, x), fr_modulus());
}

/// The value of a product with a linear factor is the product of the values.
pub proof fn lemma_times_linear(p: Seq<nat>, root: nat, d: nat, x: nat)
    ensures
        poly_eval(times_linear(p, root, d), x) == fmul(poly_eval(p, x), fmul(d, fsub(x, root))),
{
    lemma_modulus_large();
    let n = p.len();
    let t = times_linear(p, root, d);
    let c1 = fmul(fneg(d), root);
    let term = |i: nat| fmul(t[i as int], fpow(x, i));
    let base = |i: nat| fmul(p[i as int], fpow(x, i));
    let low = |i: nat| fmul(fmul(coeff_at(p, i as int), c1), fpow(x, i));
    let high = |i: nat| fmul(fmul(coeff_at(p, i - 1), d), fpow(x, i));
    assert forall|i: nat| i < n + 1 implies #[trigger] term(i) == fadd(low(i), high(i)) by {
        assert(t[i as int] == times_linear_coeff(p, root, d, i as int));
        lemma_fmul_commutes(t[i as int], fpow(x, i));
        lemma_fmul_distributes(
            fpow(x, i),
            fmul(coeff_at(p, i as int), c1),
            fmul(coeff_at(p, i - 1), d),
        );
        lemma_fmul_commutes(fpow(x, i), fmul(coeff_at(p, i as int), c1));
        lemma_fmul_commutes(fpow(x, i), fmul(coeff_at(p, i - 1), d));
    }
    lemma_fsum_adds(low, high, term, n + 1);
    // the low part: the last term is zero, the others are c1 times the terms of p
    assert(fsum(low, n + 1) == fmul(c1, poly_eval(p, x))) by {
        assert(low(n) == 0) by {
            assert(0 * c1 == 0) by (nonlinear_arith);
            lemma_small_mod(0, fr_modulus());
            assert(0 * fpow(x, n) == 0) by (nonlinear_arith);
        }
        lemma_fsum_bounded(low, n);
        lemma_field_units(fsum(low, n));
        assert forall|i: nat| i < n implies #[trigger] low(i) == fmul(c1, base(i)) by {
            lemma_fmul_commutes(p[i as int], c1);
            lemma_fmul_associates(c1, p[i as int], fpow(x, i));
        }
        lemma_fsum_scales(c1, base, low, n);
    }
    // the high part: the first term is zero, the others are d x times the terms of p
    assert(fsum(high, n + 1) == fmul(fmul(d, x), poly_eval(p, x))) by {
        lemma_fsum_splits(high, 1, n);
        assert(1 + n == n + 1);
        let shifted = |k: nat| high(k + 1);
        assert(fsum(high, 1) == 0) by {
            reveal_with_fuel(fsum, 2);
            assert(0 * d == 0) by (nonlinear_arith);
            lemma_small_mod(0, fr_modulus());
            assert(0 * fpow(x, 0) == 0) by (nonlinear_arith);
        }
        lemma_fsum_bounded(shifted, n);
        lemma_field_units(fsum(shifted, n));
        assert forall|k: nat| k < n implies #[trigger] shifted(k) == fmul(fmul(d, x), base(k)) by {
            crate::field::lemma_fpow_succ(x, k);
            let pk = p[k as int];
            let xk = fpow(x, k);
            // (pk d)(x xk) = (d x)(pk xk)
            lemma_fmul_associates(fmul(pk, d), x, xk);
            lemma_fmul_associates(pk, d, x);
            lemma_fmul_commutes(pk, fmul(d, x));
            lemma_fmul_associates(fmul(d, x), pk, xk);
        }
        lemma_fsum_scales(fmul(d, x), base, shifted, n);
    }
    let value = poly_eval(p, x);
    lemma_fmul_commutes(c1, value);
    lemma_fmul_commutes(fmul(d, x), value);
    lemma_fmul_distributes(value, c1, fmul(d, x));
    lemma_linear_factor(d, root, x);
}

/// The value of the product of linear factors is the product of their
/// values.
pub proof fn lemma_product_poly(roots: Seq<nat>, d: Seq<nat>, x: nat, t: nat)
    ensures
        poly_eval(product_poly(roots, d, t), x) == product_value(roots, d, x, t),
    decreases t,
{
    lemma_modulus_large();
    if t == 0 {
        reveal_with_fuel(fsum, 2);
        lemma_field_units(1);
        lemma_small_mod(1, fr_modulus());
    } else {
        lemma_product_poly(roots, d, x, (t - 1) as nat);
        lemma_times_linear(product_poly(roots, d, (t - 1) as nat), roots[t - 1], d[t - 1], x);
        let factor = |s: nat| fmul(d[s as int], fsub(x, roots[s as int]));
        lemma_fmul_commutes(factor((t - 1) as nat), fprod(factor, (t - 1) as nat));
    }
}

/// A product of ones is one.
pub proof fn lemma_fprod_ones(f: spec_fn(nat) -> nat, n: nat)
    requires
        forall|k: nat| k < n ==> #[trigger] f(k) == 1,
    ensures
        fprod(f, n) == 1,
    decreases n,
{
    lemma_modulus_large();
    if n > 0 {
        lemma_fprod_ones(f, (n - 1) as nat);
        assert(f((n - 1) as nat) == 1);
        lemma_field_units(1);
    }
}

/// A product with a factor that is zero is zero.
pub proof fn lemma_fprod_zero(f: spec_fn(nat) -> nat, s: nat, n: nat)
    requires
        s < n,
        f(s) == 0,
    ensures
        fprod(f, n) == 0,
    decreases n,
{
    lemma_modulus_large();
    lemma_small_mod(0, fr_modulus());
    if n - 1 == s {
        assert(0 * fprod(f, s) == 0) by (nonlinear_arith);
    } else {
        lemma_fprod_zero(f, s, (n - 1) as nat);
        assert(f((n - 1) as nat) * 0 == 0) by (nonlinear_arith);
    }
}

/// The sum of a polynomial and a scaled polynomial of the same length has the
/// sum of their values, the second scaled.
pub proof fn lemma_poly_eval_linear(f: Seq<nat>, t: Seq<nat>, e: nat, sum: Seq<nat>, x: nat)
    requires
        f.len() == t.len(),
        sum.len() == f.len(),
        forall|i: int| 0 <= i < f.len() ==> #[trigger] sum[i] == fadd(f[i], fmul(t[i], e)),
    ensures
        poly_eval(sum, x) == fadd(poly_eval(f, x), fmul(e, poly_eval(t, x))),
{
    let n = f.len();
    let f_term = |i: nat| fmul(f[i as int], fpow(x, i));
    let t_term = |i: nat| fmul(t[i as int], fpow(x, i));
    let scaled = |i: nat| fmul(e, t_term(i));
    let sum_term = |i: nat| fmul(sum[i as int], fpow(x, i));
    assert forall|i: nat| i < n implies #[trigger] sum_term(i) == fadd(f_term(i), scaled(i)) by {
        let xi = fpow(x, i);
        lemma_fmul_commutes(sum[i as int], xi);
        lemma_fmul_distributes(xi, f[i as int], fmul(t[i as int], e));
        lemma_fmul_commutes(xi, f[i as int]);
        lemma_fmul_commutes(xi, fmul(t[i as int], e));
        lemma_fmul_commutes(t[i as int], e);
        lemma_fmul_associates(e, t[i as int], xi);
    }
    lemma_fsum_adds(f_term, scaled, sum_term, n);
    lemma_fsum_scales(e, t_term, scaled, n);
}

/// No two of the values are the same.
pub open spec fn distinct(values: Seq<nat>) -> bool {
    forall|i: int, j: int| 0 <= i < values.len() && 0 <= j < values.len() && i != j ==> values[i]
        != values[j]
}

/// The points without point `j`, in order.
pub open spec fn others(points: Seq<nat>, j: int) -> Seq<nat> {
    Seq::new((points.len() - 1) as nat, |t: int| if t < j {
        points[t]
    } else {
        points[t + 1]
    })
}

/// The difference of different residues is not zero, and the difference of a
/// residue and itself is zero.
proof fn lemma_difference_zero(a: nat, b: nat)
    requires
        a < fr_modulus(),
        b < fr_modulus(),
    ensures
        fsub(a, b) == 0 <==> a == b,
{
    lemma_modulus_large();
    let m = fr_modulus() as int;
    if a >= b {
        lemma_small_mod((a - b) as nat, fr_modulus());
    } else {
        // a - b = -m + (m + a - b)
        lemma_mod_multiples_vanish(-1, m + a - b, m);
        lemma_small_mod((m + a - b) as nat, fr_modulus());
        assert(m * (-1) + (m + a - b) == a - b) by (nonlinear_arith);
    }
}

/// The coefficients of the polynomial of lowest degree that takes the value
/// `evals[i]` at `points[i]`, for points that are all different: as many
/// coefficients as there are points.
pub fn lagrange_interpolate(points: &[Fr], evals: &[Fr]) -> (final_poly: Vec<Fr>)
    requires
        points.len() == evals.len(),
        all_wf(points@),
        all_wf(evals@),
        distinct(values_of(points@)),
    ensures
        final_poly.len() == points.len(),
        all_wf(final_poly@),
        forall|i: int|
            0 <= i < points.len() ==> poly_eval(values_of(final_poly@), #[trigger] points@[i]@)
                == evals@[i]@,
{
    let n = points.len();
    let ghost xs = values_of(points@);
    let ghost es = values_of(evals@);
    proof {
        lemma_modulus_large();
    }
    if n == 1 {
        let mut r: Vec<Fr> = Vec::new();
        r.push(evals[0]);
        proof {
            let x = points@[0]@;
            let coeffs = values_of(r@);
            assert(coeffs[0] == evals@[0]@);
            reveal_with_fuel(fsum, 2);
            lemma_field_units(evals@[0]@);
            lemma_small_mod(evals@[0]@, fr_modulus());
        }
        return r;
    }
    let mut final_poly: Vec<Fr> = Vec::new();
    let mut k: usize = 0;
    while k < n
        invariant
            k <= n,
            final_poly.len() == k,
            forall|i: int| 0 <= i < k ==> (#[trigger] final_poly@[i]).wf() && final_poly@[i]@ == 0,
        decreases n - k,
    {
        final_poly.push(Fr::zero());
        k += 1;
    }
    proof {
        assert forall|i: int| 0 <= i < n implies poly_eval(
            values_of(final_poly@),
            #[trigger] points@[i]@,
        ) == 0 by {
            let x = points@[i]@;
            let coeffs = values_of(final_poly@);
            let term = |t: nat| fmul(coeffs[t as int], fpow(x, t));
            assert forall|t: nat| t < n implies #[trigger] term(t) == 0 by {
                assert(coeffs[t as int] == final_poly@[t as int]@);
                assert(0 * fpow(x, t) == 0) by (nonlinear_arith);
                lemma_small_mod(0, fr_modulus());
            }
            lemma_fsum_zero(term, n as nat);
        }
    }
    let mut j: usize = 0;
    while j < n
        invariant
            j <= n,
            n == points.len(),
            n == evals.len(),
            n >= 2 || n == 0,
            all_wf(points@),
            all_wf(evals@),
            xs == values_of(points@),
            es == values_of(evals@),
            distinct(xs),
            final_poly.len() == n,
            all_wf(final_poly@),
            forall|i: int|
                0 <= i < n ==> poly_eval(values_of(final_poly@), #[trigger] points@[i]@) == if i
                    < j {
                    evals@[i]@
                } else {
                    0
                },
        decreases n - j,
    {
        let x_j = &points[j];
        let ghost roots = others(xs, j as int);
        // the denominators x_j - x_k for k other than j
        let mut denoms: Vec<Fr> = Vec::new();
        let mut k: usize = 0;
        while k < n
            invariant
                k <= n,
                j < n,
                n == points.len(),
                all_wf(points@),
                xs == values_of(points@),
                x_j == points@[j as int],
                roots == others(xs, j as int),
                denoms.len() == if k <= j {
                    k as int
                } else {
                    k - 1
                },
                forall|t: int|
                    0 <= t < denoms.len() ==> (#[trigger] denoms@[t]).wf() && denoms@[t]@ == fsub(
                        x_j@,
                        roots[t],
                    ),
            decreases n - k,
        {
            if k != j {
                let ghost t = denoms.len() as int;
                proof {
                    assert(roots[t] == xs[k as int]);
                    assert(xs[k as int] == points@[k as int]@);
                }
                denoms.push(x_j.sub(&points[k]));
            }
            k += 1;
        }
        let ghost differences = denoms@;
        crate::field::batch_invert(&mut denoms);
        let ghost ds = values_of(denoms@);
        proof {
            assert forall|t: int| 0 <= t < n - 1 implies fmul(
                #[trigger] ds[t],
                fsub(x_j@, roots[t]),
            ) == 1 by {
                let kk = if t < j {
                    t
                } else {
                    t + 1
                };
                assert(roots[t] == xs[kk]);
                assert(xs[kk] == points@[kk]@);
                assert(xs[j as int] == points@[j as int]@);
                lemma_difference_zero(x_j@, roots[t]);
                assert(differences[t]@ == fsub(x_j@, roots[t]));
                assert(ds[t] == denoms@[t]@);
            }
        }
        // the product of the factors (X - x_k) / (x_j - x_k)
        let mut tmp: Vec<Fr> = Vec::new();
        tmp.push(Fr::one());
        let mut k: usize = 0;
        let mut t: usize = 0;
        proof {
            assert(values_of(tmp@) =~= product_poly(roots, ds, 0));
        }
        while k < n
            invariant
                k <= n,
                j < n,
                n == points.len(),
                all_wf(points@),
                xs == values_of(points@),
                roots == others(xs, j as int),
                ds == values_of(denoms@),
                all_wf(denoms@),
                denoms.len() == n - 1,
                t == if k <= j {
                    k as int
                } else {
                    k - 1
                },
                all_wf(tmp@),
                tmp.len() == t + 1,
                values_of(tmp@) == product_poly(roots, ds, t as nat),
            decreases n - k,
        {
            if k != j {
                let x_k = &points[k];
                let denom = &denoms[t];
                let low = denom.neg().mul(x_k);
                let mut product: Vec<Fr> = Vec::new();
                let mut i: usize = 0;
                let ghost p = values_of(tmp@);
                proof {
                    assert(roots[t as int] == xs[k as int]);
                    assert(xs[k as int] == x_k@);
                    assert(ds[t as int] == denom@);
                }
                while i <= tmp.len()
                    invariant
                        i <= tmp.len() + 1,
                        tmp.len() < n,
                        all_wf(tmp@),
                        p == values_of(tmp@),
                        low.wf(),
                        denom.wf(),
                        low@ == fmul(fneg(denom@), x_k@),
                        product.len() == i,
                        all_wf(product@),
                        forall|s: int|
                            0 <= s < i ==> (#[trigger] product@[s])@ == times_linear_coeff(
                                p,
                                x_k@,
                                denom@,
                                s,
                            ),
                    decreases tmp.len() + 1 - i,
                {
                    let a = if i < tmp.len() {
                        tmp[i]
                    } else {
                        Fr::zero()
                    };
                    let b = if i > 0 {
                        tmp[i - 1]
                    } else {
                        Fr::zero()
                    };
                    proof {
                        assert(a@ == coeff_at(p, i as int)) by {
                            if i < tmp.len() {
                                assert(p[i as int] == tmp@[i as int]@);
                            }
                        }
                        assert(b@ == coeff_at(p, i - 1)) by {
                            if i > 0 {
                                assert(p[i - 1] == tmp@[i - 1]@);
                            }
                        }
                    }
                    product.push(a.mul(&low).add(&b.mul(denom)));
                    i += 1;
                }
                proof {
                    assert(values_of(product@) =~= times_linear(p, x_k@, denom@));
                }
                tmp = product;
                t += 1;
            }
            k += 1;
        }
        let eval = &evals[j];
        let ghost basis = values_of(tmp@);
        let ghost before = values_of(final_poly@);
        let ghost before_poly = final_poly@;
        let mut i: usize = 0;
        while i < n
            invariant
                i <= n,
                final_poly.len() == n,
                tmp.len() == n,
                all_wf(tmp@),
                eval.wf(),
                basis == values_of(tmp@),
                before == values_of(before_poly),
                before_poly.len() == n,
                forall|s: int| 0 <= s < n ==> (#[trigger] before_poly[s]).wf(),
                forall|s: int| 0 <= s < n ==> (#[trigger] final_poly@[s]).wf(),
                forall|s: int|
                    0 <= s < i ==> (#[trigger] final_poly@[s])@ == fadd(
                        before[s],
                        fmul(basis[s], eval@),
                    ),
                forall|s: int| i <= s < n ==> final_poly@[s] == before_poly[s],
            decreases n - i,
        {
            proof {
                assert(before[i as int] == before_poly[i as int]@);
                assert(basis[i as int] == tmp@[i as int]@);
            }
            let updated = final_poly[i].add(&tmp[i].mul(eval));
            final_poly.set(i, updated);
            i += 1;
        }
        proof {
            let after = values_of(final_poly@);
            assert forall|s: int| 0 <= s < n implies #[trigger] after[s] == fadd(
                before[s],
                fmul(basis[s], eval@),
            ) by {
                assert(after[s] == final_poly@[s]@);
            }
            assert forall|i: int| 0 <= i < n implies poly_eval(after, #[trigger] points@[i]@)
                == if i < j + 1 {
                evals@[i]@
            } else {
                0
            } by {
                let x = points@[i]@;
                lemma_poly_eval_linear(before, basis, eval@, after, x);
                lemma_product_poly(roots, ds, x, (n - 1) as nat);
                let factor = |s: nat| fmul(ds[s as int], fsub(x, roots[s as int]));
                assert(xs[i] == x);
                assert(xs[j as int] == points@[j as int]@);
                if i == j {
                    assert forall|s: nat| s < n - 1 implies #[trigger] factor(s) == 1 by {
                        assert(fmul(ds[s as int], fsub(points@[j as int]@, roots[s as int])) == 1);
                    }
                    lemma_fprod_ones(factor, (n - 1) as nat);
                    lemma_field_units(eval@);
                    lemma_fadd_commutes(0, eval@);
                } else {
                    let s: nat = if i < j {
                        i as nat
                    } else {
                        (i - 1) as nat
                    };
                    assert(roots[s as int] == xs[i]);
                    lemma_difference_zero(x, x);
                    assert(factor(s) == 0) by {
                        assert(ds[s as int] * 0 == 0) by (nonlinear_arith);
                        lemma_small_mod(0, fr_modulus());
                    }
                    lemma_fprod_zero(factor, s, (n - 1) as nat);
                    assert(eval@ * 0 == 0) by (nonlinear_arith);
                    lemma_small_mod(0, fr_modulus());
                    let old_value = poly_eval(before, x);
                    assert(old_value < fr_modulus()) by {
                        lemma_fsum_bounded(|t: nat| fmul(before[t as int], fpow(x, t)), before.len());
                    }
                    lemma_field_units(old_value);
                }
            }
        }
        j += 1;
    }
    final_poly
}

} // verus!
