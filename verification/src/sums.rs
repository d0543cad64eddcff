//! Sums of scaled points, and the rearrangements of them that the
//! multi-scalar multiplications rely on. Everything here is proved from
//! `group_laws` alone.

use crate::curve::{
    addition_associates, addition_commutes, doubling_adds, g1_difference, g1_scaled, g1_sum,
    g1_twice, group_laws, identity, identity_is_neutral, on_curve, scalar_mul, scaling_adds,
    subtraction_undoes, sums_stay_on_curve, Coordinates,
};
use vstd::prelude::*;

verus! {

/// Every point of the list is on the curve.
pub open spec fn all_on_curve(ps: Seq<Coordinates>) -> bool {
    forall|i: int| 0 <= i < ps.len() ==> on_curve(#[trigger] ps[i])
}

/// The sum of the first `n` points, each scaled by its coefficient.
pub open spec fn msm(ks: Seq<nat>, ps: Seq<Coordinates>, n: nat) -> Coordinates
    decreases n,
{
    if n == 0 {
        identity()
    } else {
        g1_sum(msm(ks, ps, (n - 1) as nat), scalar_mul(ks[n - 1], ps[n - 1]))
    }
}

/// The sum of the points from index `j` on.
pub open spec fn suffix_sum(bs: Seq<Coordinates>, j: nat) -> Coordinates
    decreases bs.len() - j,
{
    if j >= bs.len() {
        identity()
    } else {
        g1_sum(suffix_sum(bs, j + 1), bs[j as int])
    }
}

/// The sum of the suffix sums from index `j` on: what adding the running sum
/// to an accumulator after each bucket, from the last bucket down, adds up to.
pub open spec fn stair_sum(bs: Seq<Coordinates>, j: nat) -> Coordinates
    decreases bs.len() - j,
{
    if j >= bs.len() {
        identity()
    } else {
        g1_sum(stair_sum(bs, j + 1), suffix_sum(bs, j))
    }
}

/// The sum of the points from index `j` on, the point at index `t` scaled by
/// `t + 1`.
pub open spec fn weighted_sum(bs: Seq<Coordinates>, j: nat) -> Coordinates
    decreases bs.len() - j,
{
    if j >= bs.len() {
        identity()
    } else {
        g1_sum(weighted_sum(bs, j + 1), scalar_mul(j + 1, bs[j as int]))
    }
}

/// The sum of two points of the curve is on the curve.
pub proof fn lemma_closed(a: Coordinates, b: Coordinates)
    requires
        group_laws(),
        on_curve(a),
        on_curve(b),
    ensures
        on_curve(g1_sum(a, b)),
{
    reveal(sums_stay_on_curve);
}

/// Addition commutes.
pub proof fn lemma_commutes(a: Coordinates, b: Coordinates)
    requires
        group_laws(),
        on_curve(a),
        on_curve(b),
    ensures
        g1_sum(a, b) == g1_sum(b, a),
{
    reveal(addition_commutes);
}

/// Addition associates.
pub proof fn lemma_associates(a: Coordinates, b: Coordinates, c: Coordinates)
    requires
        group_laws(),
        on_curve(a),
        on_curve(b),
        on_curve(c),
    ensures
        g1_sum(g1_sum(a, b), c) == g1_sum(a, g1_sum(b, c)),
{
    reveal(addition_associates);
}

/// The point at infinity is neutral on both sides.
pub proof fn lemma_neutral(a: Coordinates)
    requires
        group_laws(),
        on_curve(a),
    ensures
        g1_sum(a, identity()) == a,
        g1_sum(identity(), a) == a,
{
    reveal(identity_is_neutral);
    lemma_commutes(a, identity());
}

/// Two sums of two points can trade their inner terms.
pub proof fn lemma_shuffle(a: Coordinates, b: Coordinates, c: Coordinates, d: Coordinates)
    requires
        group_laws(),
        on_curve(a),
        on_curve(b),
        on_curve(c),
        on_curve(d),
    ensures
        g1_sum(g1_sum(a, b), g1_sum(c, d)) == g1_sum(g1_sum(a, c), g1_sum(b, d)),
{
    lemma_closed(a, b);
    lemma_closed(c, d);
    lemma_closed(a, c);
    lemma_closed(b, d);
    lemma_closed(b, c);
    lemma_closed(c, b);
    // (a + b) + (c + d) = a + (b + (c + d)) = a + ((b + c) + d)
    lemma_associates(a, b, g1_sum(c, d));
    lemma_associates(b, c, d);
    // = a + ((c + b) + d) = a + (c + (b + d)) = (a + c) + (b + d)
    lemma_commutes(b, c);
    lemma_associates(c, b, d);
    lemma_associates(a, c, g1_sum(b, d));
}

/// A last term can move in front of the one before it.
pub proof fn lemma_swap_last(a: Coordinates, b: Coordinates, c: Coordinates)
    requires
        group_laws(),
        on_curve(a),
        on_curve(b),
        on_curve(c),
    ensures
        g1_sum(g1_sum(a, b), c) == g1_sum(g1_sum(a, c), b),
{
    lemma_associates(a, b, c);
    lemma_commutes(b, c);
    lemma_associates(a, c, b);
}

/// A scaled point is on the curve.
pub proof fn lemma_scalar_mul_on_curve(k: nat, p: Coordinates)
    requires
        group_laws(),
        on_curve(p),
    ensures
        on_curve(scalar_mul(k, p)),
    decreases k,
{
    if k > 0 {
        lemma_scalar_mul_on_curve((k - 1) as nat, p);
        lemma_closed(scalar_mul((k - 1) as nat, p), p);
    }
}

/// Scaling by one changes nothing, and doubling is scaling by two.
pub proof fn lemma_scalar_mul_small(p: Coordinates)
    requires
        group_laws(),
        on_curve(p),
    ensures
        scalar_mul(1, p) == p,
        scalar_mul(2, p) == g1_twice(p),
{
    reveal(doubling_adds);
    reveal_with_fuel(scalar_mul, 3);
    lemma_neutral(p);
}

/// Scaling by the outside crate is repeated addition.
pub proof fn lemma_scaled(p: Coordinates, s: nat)
    requires
        group_laws(),
        on_curve(p),
    ensures
        g1_scaled(p, s) == scalar_mul(s, p),
{
    reveal(scaling_adds);
}

/// A difference is on the curve and undone by adding what was taken away.
pub proof fn lemma_difference(a: Coordinates, b: Coordinates)
    requires
        group_laws(),
        on_curve(a),
        on_curve(b),
    ensures
        on_curve(g1_difference(a, b)),
        g1_sum(g1_difference(a, b), b) == a,
{
    reveal(subtraction_undoes);
}

/// Scaling by a sum is adding the scaled points.
pub proof fn lemma_scalar_mul_adds(a: nat, b: nat, p: Coordinates)
    requires
        group_laws(),
        on_curve(p),
    ensures
        scalar_mul(a + b, p) == g1_sum(scalar_mul(a, p), scalar_mul(b, p)),
    decreases b,
{
    lemma_scalar_mul_on_curve(a, p);
    if b == 0 {
        lemma_neutral(scalar_mul(a, p));
    } else {
        let b1 = (b - 1) as nat;
        lemma_scalar_mul_adds(a, b1, p);
        lemma_scalar_mul_on_curve(b1, p);
        assert(scalar_mul(a + b, p) == g1_sum(scalar_mul((a + b - 1) as nat, p), p));
        lemma_associates(scalar_mul(a, p), scalar_mul(b1, p), p);
    }
}

/// Scaling the point at infinity gives the point at infinity.
pub proof fn lemma_scalar_mul_identity(k: nat)
    requires
        group_laws(),
    ensures
        scalar_mul(k, identity()) == identity(),
    decreases k,
{
    if k > 0 {
        lemma_scalar_mul_identity((k - 1) as nat);
        lemma_neutral(identity());
    }
}

/// Scaling a sum is adding the scaled terms.
pub proof fn lemma_scalar_mul_distributes(k: nat, p: Coordinates, q: Coordinates)
    requires
        group_laws(),
        on_curve(p),
        on_curve(q),
    ensures
        scalar_mul(k, g1_sum(p, q)) == g1_sum(scalar_mul(k, p), scalar_mul(k, q)),
    decreases k,
{
    lemma_closed(p, q);
    if k == 0 {
        lemma_neutral(identity());
    } else {
        let k1 = (k - 1) as nat;
        lemma_scalar_mul_distributes(k1, p, q);
        lemma_scalar_mul_on_curve(k1, p);
        lemma_scalar_mul_on_curve(k1, q);
        lemma_shuffle(scalar_mul(k1, p), scalar_mul(k1, q), p, q);
    }
}

/// Scaling by a product is scaling twice.
pub proof fn lemma_scalar_mul_muls(a: nat, b: nat, p: Coordinates)
    requires
        group_laws(),
        on_curve(p),
    ensures
        scalar_mul(a * b, p) == scalar_mul(a, scalar_mul(b, p)),
    decreases a,
{
    if a == 0 {
        assert(0 * b == 0) by (nonlinear_arith);
    } else {
        let a1 = (a - 1) as nat;
        lemma_scalar_mul_muls(a1, b, p);
        assert(a * b == a1 * b + b) by (nonlinear_arith)
            requires
                a1 == a - 1,
        ;
        lemma_scalar_mul_adds(a1 * b, b, p);
    }
}

/// A sum of scaled points of the curve is on the curve.
pub proof fn lemma_msm_on_curve(ks: Seq<nat>, ps: Seq<Coordinates>, n: nat)
    requires
        group_laws(),
        all_on_curve(ps),
        n <= ps.len(),
    ensures
        on_curve(msm(ks, ps, n)),
    decreases n,
{
    if n > 0 {
        lemma_msm_on_curve(ks, ps, (n - 1) as nat);
        lemma_scalar_mul_on_curve(ks[n - 1], ps[n - 1]);
        lemma_closed(msm(ks, ps, (n - 1) as nat), scalar_mul(ks[n - 1], ps[n - 1]));
    }
}

/// The sum depends on the first `n` coefficients and points alone.
pub proof fn lemma_msm_agrees(
    ks: Seq<nat>,
    ps: Seq<Coordinates>,
    ks2: Seq<nat>,
    ps2: Seq<Coordinates>,
    n: nat,
)
    requires
        forall|i: int| 0 <= i < n ==> ks[i] == ks2[i] && ps[i] == ps2[i],
    ensures
        msm(ks, ps, n) == msm(ks2, ps2, n),
    decreases n,
{
    if n > 0 {
        lemma_msm_agrees(ks, ps, ks2, ps2, (n - 1) as nat);
    }
}

/// With all coefficients zero the sum is the point at infinity.
pub proof fn lemma_msm_zero(ks: Seq<nat>, ps: Seq<Coordinates>, n: nat)
    requires
        group_laws(),
        forall|i: int| 0 <= i < n ==> ks[i] == 0,
    ensures
        msm(ks, ps, n) == identity(),
    decreases n,
{
    if n > 0 {
        lemma_msm_zero(ks, ps, (n - 1) as nat);
        lemma_neutral(identity());
    }
}

/// Coefficients that are sums split the sum in two.
pub proof fn lemma_msm_adds(
    ks: Seq<nat>,
    ks1: Seq<nat>,
    ks2: Seq<nat>,
    ps: Seq<Coordinates>,
    n: nat,
)
    requires
        group_laws(),
        all_on_curve(ps),
        n <= ps.len(),
        forall|i: int| 0 <= i < n ==> ks[i] == ks1[i] + ks2[i],
    ensures
        msm(ks, ps, n) == g1_sum(msm(ks1, ps, n), msm(ks2, ps, n)),
    decreases n,
{
    if n == 0 {
        lemma_neutral(identity());
    } else {
        let m = (n - 1) as nat;
        lemma_msm_adds(ks, ks1, ks2, ps, m);
        lemma_msm_on_curve(ks1, ps, m);
        lemma_msm_on_curve(ks2, ps, m);
        let p = ps[n - 1];
        lemma_scalar_mul_adds(ks1[n - 1], ks2[n - 1], p);
        lemma_scalar_mul_on_curve(ks1[n - 1], p);
        lemma_scalar_mul_on_curve(ks2[n - 1], p);
        lemma_shuffle(
            msm(ks1, ps, m),
            msm(ks2, ps, m),
            scalar_mul(ks1[n - 1], p),
            scalar_mul(ks2[n - 1], p),
        );
    }
}

/// Coefficients with a common factor scale the sum.
pub proof fn lemma_msm_scales(k: nat, ks: Seq<nat>, scaled: Seq<nat>, ps: Seq<Coordinates>, n: nat)
    requires
        group_laws(),
        all_on_curve(ps),
        n <= ps.len(),
        forall|i: int| 0 <= i < n ==> scaled[i] == k * ks[i],
    ensures
        msm(scaled, ps, n) == scalar_mul(k, msm(ks, ps, n)),
    decreases n,
{
    if n == 0 {
        lemma_scalar_mul_identity(k);
    } else {
        let m = (n - 1) as nat;
        lemma_msm_scales(k, ks, scaled, ps, m);
        lemma_msm_on_curve(ks, ps, m);
        let p = ps[n - 1];
        lemma_scalar_mul_muls(k, ks[n - 1], p);
        lemma_scalar_mul_on_curve(ks[n - 1], p);
        lemma_scalar_mul_distributes(k, msm(ks, ps, m), scalar_mul(ks[n - 1], p));
    }
}

/// A window of coefficients: where each coefficient is a multiple of `base`
/// plus a digit, the sum is the sum over the multiples, scaled, plus the sum
/// over the digits.
pub proof fn lemma_msm_window(
    base: nat,
    ks: Seq<nat>,
    high: Seq<nat>,
    digits: Seq<nat>,
    ps: Seq<Coordinates>,
    n: nat,
)
    requires
        group_laws(),
        all_on_curve(ps),
        n <= ps.len(),
        forall|i: int| 0 <= i < n ==> ks[i] == base * high[i] + digits[i],
    ensures
        msm(ks, ps, n) == g1_sum(scalar_mul(base, msm(high, ps, n)), msm(digits, ps, n)),
{
    let scaled = Seq::new(n, |i: int| base * high[i]);
    lemma_msm_adds(ks, scaled, digits, ps, n);
    lemma_msm_scales(base, high, scaled, ps, n);
}

/// The sum over a list is the sum over its first `a` entries plus the sum over
/// the `m` entries that follow.
pub proof fn lemma_msm_splits(ks: Seq<nat>, ps: Seq<Coordinates>, a: nat, m: nat)
    requires
        group_laws(),
        all_on_curve(ps),
        a + m <= ps.len(),
        a + m <= ks.len(),
    ensures
        msm(ks, ps, a + m) == g1_sum(
            msm(ks, ps, a),
            msm(ks.subrange(a as int, (a + m) as int), ps.subrange(a as int, (a + m) as int), m),
        ),
    decreases m,
{
    let ks2 = ks.subrange(a as int, (a + m) as int);
    let ps2 = ps.subrange(a as int, (a + m) as int);
    lemma_msm_on_curve(ks, ps, a);
    if m == 0 {
        lemma_neutral(msm(ks, ps, a));
    } else {
        let m1 = (m - 1) as nat;
        lemma_msm_splits(ks, ps, a, m1);
        let ks1 = ks.subrange(a as int, (a + m1) as int);
        let ps1 = ps.subrange(a as int, (a + m1) as int);
        lemma_msm_agrees(ks1, ps1, ks2, ps2, m1);
        assert(ks2[m - 1] == ks[a + m - 1]);
        assert(ps2[m - 1] == ps[a + m - 1]);
        assert(all_on_curve(ps2));
        lemma_msm_on_curve(ks2, ps2, m1);
        lemma_scalar_mul_on_curve(ks[a + m - 1], ps[a + m - 1]);
        lemma_associates(
            msm(ks, ps, a),
            msm(ks2, ps2, m1),
            scalar_mul(ks[a + m - 1], ps[a + m - 1]),
        );
    }
}

/// Suffix sums of points of the curve are on the curve.
pub proof fn lemma_suffix_sum_on_curve(bs: Seq<Coordinates>, j: nat)
    requires
        group_laws(),
        all_on_curve(bs),
    ensures
        on_curve(suffix_sum(bs, j)),
        on_curve(stair_sum(bs, j)),
        on_curve(weighted_sum(bs, j)),
    decreases bs.len() - j,
{
    if j < bs.len() {
        lemma_suffix_sum_on_curve(bs, j + 1);
        lemma_closed(suffix_sum(bs, j + 1), bs[j as int]);
        lemma_closed(stair_sum(bs, j + 1), suffix_sum(bs, j));
        lemma_scalar_mul_on_curve(j + 1, bs[j as int]);
        lemma_closed(weighted_sum(bs, j + 1), scalar_mul(j + 1, bs[j as int]));
    }
}

/// Summation by parts: the running sums, added up from the last bucket down
/// to bucket `j`, together with `j` times the last running sum, are the
/// weighted sum of the buckets from `j` on.
pub proof fn lemma_stair_sum(bs: Seq<Coordinates>, j: nat)
    requires
        group_laws(),
        all_on_curve(bs),
        j <= bs.len(),
    ensures
        g1_sum(stair_sum(bs, j), scalar_mul(j, suffix_sum(bs, j))) == weighted_sum(bs, j),
    decreases bs.len() - j,
{
    if j == bs.len() {
        lemma_scalar_mul_identity(j);
        lemma_neutral(identity());
    } else {
        lemma_stair_sum(bs, j + 1);
        lemma_suffix_sum_on_curve(bs, j + 1);
        lemma_suffix_sum_on_curve(bs, j);
        let b = bs[j as int];
        let t1 = suffix_sum(bs, j + 1);
        let t0 = suffix_sum(bs, j);
        let u1 = stair_sum(bs, j + 1);
        // stair(j) + j * t0 = (u1 + t0) + j * t0 = u1 + (j + 1) * t0
        lemma_scalar_mul_on_curve(j, t0);
        lemma_associates(u1, t0, scalar_mul(j, t0));
        lemma_scalar_mul_small(t0);
        lemma_scalar_mul_adds(1, j, t0);
        assert(1 + j == j + 1);
        // (j + 1) * t0 = (j + 1) * t1 + (j + 1) * b
        lemma_scalar_mul_distributes(j + 1, t1, b);
        lemma_scalar_mul_on_curve(j + 1, t1);
        lemma_scalar_mul_on_curve(j + 1, b);
        lemma_associates(u1, scalar_mul(j + 1, t1), scalar_mul(j + 1, b));
    }
}

/// The running sums added up from the last bucket down to the first are the
/// weighted sum of all buckets.
pub proof fn lemma_stair_sum_total(bs: Seq<Coordinates>)
    requires
        group_laws(),
        all_on_curve(bs),
    ensures
        stair_sum(bs, 0) == weighted_sum(bs, 0),
{
    lemma_stair_sum(bs, 0);
    lemma_suffix_sum_on_curve(bs, 0);
    lemma_neutral(stair_sum(bs, 0));
}

/// A point added to bucket `i` adds `i + 1` times that point to the weighted
/// sum of the buckets from `j` on, where bucket `i` is among them.
pub proof fn lemma_weighted_sum_update(bs: Seq<Coordinates>, i: nat, p: Coordinates, j: nat)
    requires
        group_laws(),
        all_on_curve(bs),
        on_curve(p),
        i < bs.len(),
        j <= bs.len(),
    ensures
        weighted_sum(bs.update(i as int, g1_sum(bs[i as int], p)), j) == if i >= j {
            g1_sum(weighted_sum(bs, j), scalar_mul(i + 1, p))
        } else {
            weighted_sum(bs, j)
        },
    decreases bs.len() - j,
{
    let bs2 = bs.update(i as int, g1_sum(bs[i as int], p));
    lemma_closed(bs[i as int], p);
    assert(all_on_curve(bs2));
    if j < bs.len() {
        lemma_weighted_sum_update(bs, i, p, j + 1);
        lemma_suffix_sum_on_curve(bs, j + 1);
        let w1 = weighted_sum(bs, j + 1);
        let term = scalar_mul(j + 1, bs[j as int]);
        lemma_scalar_mul_on_curve(j + 1, bs[j as int]);
        lemma_scalar_mul_on_curve(i + 1, p);
        if i == j {
            lemma_scalar_mul_distributes(j + 1, bs[j as int], p);
            lemma_associates(w1, term, scalar_mul(j + 1, p));
        } else if i > j {
            assert(bs2[j as int] == bs[j as int]);
            lemma_swap_last(w1, scalar_mul(i + 1, p), term);
        } else {
            assert(bs2[j as int] == bs[j as int]);
        }
    }
}

} // verus!
