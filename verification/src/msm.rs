//! Multi-scalar multiplication: the weighted sum of curve points, computed
//! window by window with buckets.
//!
//! Every function states the point it returns as the sum `msm` under
//! `group_laws`, the hypothesis that the curve's operations form a commutative
//! group.

use crate::arithmetic::{get_at, window, window_bits, window_width};
use crate::bits::{lemma_digit_split, lemma_le_value_bound, lemma_one_shl, lemma_small_quotient};
use crate::curve::{
    g1_sum, g1_twice, group_laws, identity, on_curve, scalar_mul, Coordinates, G1,
};
use crate::field::{
    all_wf, lemma_shl_pow_64, lemma_shl_pow_adds, lemma_shl_pow_positive, shl_pow, values_of, Fr,
};
use crate::sums::{
    all_on_curve, lemma_associates, lemma_msm_agrees, lemma_msm_on_curve, lemma_msm_splits,
    lemma_msm_window, lemma_msm_zero, lemma_neutral, lemma_scalar_mul_distributes,
    lemma_scalar_mul_identity, lemma_scalar_mul_muls, lemma_scalar_mul_on_curve,
    lemma_scalar_mul_small, lemma_stair_sum_total, lemma_suffix_sum_on_curve,
    lemma_weighted_sum_update, msm, stair_sum, suffix_sum, weighted_sum,
};
use vstd::prelude::*;
use vstd::slice::slice_subrange;

verus! {

/// The coordinates of a list of points.
pub open spec fn points_of(bases: Seq<G1>) -> Seq<Coordinates> {
    bases.map_values(|p: G1| p@)
}

/// Every point of the list is a point of the curve.
pub open spec fn all_points_wf(bases: Seq<G1>) -> bool {
    forall|i: int| 0 <= i < bases.len() ==> (#[trigger] bases[i]).wf()
}

/// A value without its lowest `shift` bits.
pub open spec fn high_bits(value: nat, shift: nat) -> nat {
    value / shl_pow(shift)
}

/// The `c` bits of a value from bit `shift` on.
pub open spec fn digit(value: nat, shift: nat, c: nat) -> nat {
    (value / shl_pow(shift)) % shl_pow(c)
}

/// Each value without its lowest `shift` bits.
pub open spec fn shifted(vals: Seq<nat>, shift: nat) -> Seq<nat> {
    Seq::new(vals.len(), |i: int| high_bits(vals[i], shift))
}

/// Of each value the `c` bits from bit `shift` on.
pub open spec fn digits(vals: Seq<nat>, shift: nat, c: nat) -> Seq<nat> {
    Seq::new(vals.len(), |i: int| digit(vals[i], shift, c))
}

/// The number of windows of `c` bits that cover a scalar.
pub open spec fn segment_count(c: nat) -> nat {
    256nat / c + 1
}

/// What a bucket has collected: nothing, one base as it came, or a sum.
#[derive(Clone, Copy, Debug)]
pub enum Bucket {
    Empty,
    Affine(G1),
    Projective(G1),
}

impl Bucket {
    /// The sum of what the bucket has collected.
    pub open spec fn point(&self) -> Coordinates {
        match *self {
            Bucket::Empty => identity(),
            Bucket::Affine(a) => a@,
            Bucket::Projective(a) => a@,
        }
    }

    /// What the bucket holds, if it holds anything.
    pub open spec fn holds(&self) -> Option<Coordinates> {
        match *self {
            Bucket::Empty => None,
            Bucket::Affine(a) => Some(a@),
            Bucket::Projective(a) => Some(a@),
        }
    }

    /// What the bucket holds is a point of the curve.
    pub open spec fn wf(&self) -> bool {
        match *self {
            Bucket::Empty => true,
            Bucket::Affine(a) => a.wf(),
            Bucket::Projective(a) => a.wf(),
        }
    }

    /// Adds a base to the bucket.
    pub fn add_assign(&mut self, other: &G1)
        requires
            old(self).wf(),
            other.wf(),
        ensures
            final(self).wf(),
            match *old(self) {
                Bucket::Empty => *final(self) == Bucket::Affine(*other),
                Bucket::Affine(a) => *final(self) is Projective && final(self).point() == g1_sum(
                    a@,
                    other@,
                ),
                Bucket::Projective(a) => *final(self) is Projective && final(self).point()
                    == g1_sum(a@, other@),
            },
    {
        *self = match *self {
            Bucket::Empty => Bucket::Affine(*other),
            Bucket::Affine(a) => Bucket::Projective(a.add(other)),
            Bucket::Projective(a) => Bucket::Projective(a.add(other)),
        }
    }

    /// Adds what the bucket has collected to a point.
    pub fn add(self, other: G1) -> (r: G1)
        requires
            self.wf(),
            other.wf(),
        ensures
            r.wf(),
            match self {
                Bucket::Empty => r == other,
                Bucket::Affine(a) => r@ == g1_sum(other@, a@),
                Bucket::Projective(a) => r@ == g1_sum(other@, a@),
            },
    {
        match self {
            Bucket::Empty => other,
            Bucket::Affine(a) => other.add(&a),
            Bucket::Projective(a) => other.add(&a),
        }
    }
}

/// What a list of buckets has collected.
pub open spec fn bucket_points(buckets: Seq<Bucket>) -> Seq<Coordinates> {
    buckets.map_values(|b: Bucket| b.point())
}

/// What each bucket of a list holds.
pub open spec fn bucket_contents(buckets: Seq<Bucket>) -> Seq<Option<Coordinates>> {
    buckets.map_values(|b: Bucket| b.holds())
}

/// A point doubled `c` times.
pub open spec fn doubled(p: Coordinates, c: nat) -> Coordinates
    decreases c,
{
    if c == 0 {
        p
    } else {
        g1_twice(doubled(p, (c - 1) as nat))
    }
}

/// A bucket after a base was added to it: the base itself where the bucket
/// was empty, else the sum of what it held and the base.
pub open spec fn with_base(bucket: Option<Coordinates>, base: Coordinates) -> Option<Coordinates> {
    match bucket {
        None => Some(base),
        Some(held) => Some(g1_sum(held, base)),
    }
}

/// `count` buckets after the first `n` bases were sorted into them by their
/// digits: a base with digit `d` goes to bucket `d - 1`, one with digit zero
/// nowhere.
pub open spec fn sorted_into(ds: Seq<nat>, ps: Seq<Coordinates>, count: nat, n: nat) -> Seq<
    Option<Coordinates>,
>
    decreases n,
{
    if n == 0 {
        Seq::new(count, |j: int| None::<Coordinates>)
    } else {
        let before = sorted_into(ds, ps, count, (n - 1) as nat);
        let d = ds[n - 1];
        if d == 0 || d > count {
            before
        } else {
            before.update(d - 1, with_base(before[d - 1], ps[n - 1]))
        }
    }
}

/// A point after a bucket was added to it: the point itself where the bucket
/// is empty.
pub open spec fn added_to(bucket: Option<Coordinates>, point: Coordinates) -> Coordinates {
    match bucket {
        None => point,
        Some(held) => g1_sum(point, held),
    }
}

/// The running sum after the buckets from the last down to bucket `j` were
/// added to it.
pub open spec fn running_total(bs: Seq<Option<Coordinates>>, j: nat) -> Coordinates
    decreases bs.len() - j,
{
    if j >= bs.len() {
        identity()
    } else {
        added_to(bs[j as int], running_total(bs, j + 1))
    }
}

/// The accumulator after the running sums of the buckets from the last down
/// to bucket `j` were added to it.
pub open spec fn gathered(acc: Coordinates, bs: Seq<Option<Coordinates>>, j: nat) -> Coordinates
    decreases bs.len() - j,
{
    if j >= bs.len() {
        acc
    } else {
        g1_sum(gathered(acc, bs, j + 1), running_total(bs, j))
    }
}

/// The accumulator after one window: doubled as often as the window is wide,
/// with the buckets of the window gathered into it.
pub open spec fn window_sum(
    acc: Coordinates,
    vals: Seq<nat>,
    ps: Seq<Coordinates>,
    c: nat,
    segment: nat,
) -> Coordinates {
    gathered(
        doubled(acc, c),
        sorted_into(digits(vals, segment * c, c), ps, (shl_pow(c) - 1) as nat, vals.len()),
        0,
    )
}

/// The accumulator after the windows from the most significant down to
/// window `segment`.
pub open spec fn windows_from(
    acc: Coordinates,
    vals: Seq<nat>,
    ps: Seq<Coordinates>,
    c: nat,
    segment: nat,
) -> Coordinates
    decreases segment_count(c) - segment,
{
    if segment >= segment_count(c) {
        acc
    } else {
        window_sum(windows_from(acc, vals, ps, c, segment + 1), vals, ps, c, segment)
    }
}

/// What the bucket method makes of an accumulator, operation for operation:
/// every window of the scalars, from the most significant down, in windows as
/// wide as the number of points asks for.
pub open spec fn bucket_method(acc: Coordinates, vals: Seq<nat>, ps: Seq<Coordinates>)
    -> Coordinates {
    windows_from(acc, vals, ps, window_width(vals.len()), 0)
}

/// The sum after the first `n` bases whose scalar has the bit `bit` set were
/// added to it.
pub open spec fn with_bits(
    acc: Coordinates,
    vals: Seq<nat>,
    ps: Seq<Coordinates>,
    bit: nat,
    n: nat,
) -> Coordinates
    decreases n,
{
    if n == 0 {
        acc
    } else {
        let before = with_bits(acc, vals, ps, bit, (n - 1) as nat);
        if digit(vals[n - 1], bit, 1) != 0 {
            g1_sum(before, ps[n - 1])
        } else {
            before
        }
    }
}

/// What doubling and adding makes of the bits from the most significant down
/// to bit `bit`, operation for operation.
pub open spec fn double_and_add(vals: Seq<nat>, ps: Seq<Coordinates>, bit: nat) -> Coordinates
    decreases 256 - bit,
{
    if bit >= 256 {
        identity()
    } else {
        with_bits(g1_twice(double_and_add(vals, ps, bit + 1)), vals, ps, bit, vals.len())
    }
}

/// Where the piece that begins at `start` ends: `chunk` places on, or at the
/// end of the list.
pub open spec fn piece_stop(len: nat, chunk: nat, start: nat) -> nat {
    if len - start < chunk {
        len
    } else {
        start + chunk
    }
}

/// The sum `res` after the pieces from place `start` on were added to it, each
/// piece of `chunk` points summed by the bucket method on its own.
pub open spec fn pieces_onto(
    res: Coordinates,
    vals: Seq<nat>,
    ps: Seq<Coordinates>,
    chunk: nat,
    start: nat,
) -> Coordinates
    decreases vals.len() - start,
{
    if start >= vals.len() || chunk == 0 {
        res
    } else {
        let stop = piece_stop(vals.len(), chunk, start);
        pieces_onto(
            g1_sum(
                res,
                bucket_method(
                    identity(),
                    vals.subrange(start as int, stop as int),
                    ps.subrange(start as int, stop as int),
                ),
            ),
            vals,
            ps,
            chunk,
            stop,
        )
    }
}

/// What the multiplication on the CPU computes, operation for operation: with
/// more points than workers the sum of the pieces of `len / num_threads` points,
/// else the bucket method on all points.
pub open spec fn cpu_sum(vals: Seq<nat>, ps: Seq<Coordinates>, num_threads: nat) -> Coordinates {
    if vals.len() > num_threads {
        pieces_onto(identity(), vals, ps, vals.len() / num_threads, 0)
    } else {
        bucket_method(identity(), vals, ps)
    }
}

/// Every bucket of the list holds a point of the curve.
pub open spec fn buckets_wf(buckets: Seq<Bucket>) -> bool {
    forall|i: int| 0 <= i < buckets.len() ==> (#[trigger] buckets[i]).wf()
}

/// A scalar is below `2^256`.
proof fn lemma_scalar_bound(x: Fr)
    ensures
        x@ < shl_pow(256),
{
    x.lemma_bytes();
    lemma_le_value_bound(x.bytes());
}

/// The coordinates of well-formed points are on the curve.
proof fn lemma_points_on_curve(bases: Seq<G1>)
    requires
        all_points_wf(bases),
    ensures
        all_on_curve(points_of(bases)),
        points_of(bases).len() == bases.len(),
{
    assert forall|i: int| 0 <= i < points_of(bases).len() implies on_curve(
        #[trigger] points_of(bases)[i],
    ) by {
        assert(bases[i].wf());
    }
}

/// Doubles the accumulator `c` times.
fn double_times(acc: &mut G1, c: usize)
    requires
        old(acc).wf(),
    ensures
        final(acc).wf(),
        final(acc)@ == doubled(old(acc)@, c as nat),
        group_laws() ==> final(acc)@ == scalar_mul(shl_pow(c as nat), old(acc)@),
{
    let ghost start = acc@;
    let mut k: usize = 0;
    proof {
        assert(shl_pow(0) == 1);
        if group_laws() {
            lemma_scalar_mul_small(start);
        }
    }
    while k < c
        invariant
            k <= c,
            acc.wf(),
            start == old(acc)@,
            on_curve(start),
            acc@ == doubled(start, k as nat),
            group_laws() ==> acc@ == scalar_mul(shl_pow(k as nat), start),
        decreases c - k,
    {
        let ghost before = acc@;
        *acc = acc.double();
        proof {
            if group_laws() {
                lemma_scalar_mul_small(before);
                lemma_scalar_mul_muls(2, shl_pow(k as nat), start);
            }
        }
        k += 1;
    }
}

/// Sorts the bases into buckets by the digit of their scalar in one window:
/// bucket `d - 1` collects the bases whose digit is `d`; a base with digit
/// zero goes nowhere.
fn fill_buckets(coeffs: &[Fr], bases: &[G1], segment: usize, c: usize) -> (buckets: Vec<Bucket>)
    requires
        coeffs.len() == bases.len(),
        all_wf(coeffs@),
        all_points_wf(bases@),
        1 <= c <= 23,
        segment <= 256,
    ensures
        buckets_wf(buckets@),
        buckets.len() + 1 == shl_pow(c as nat),
        bucket_contents(buckets@) == sorted_into(
            digits(values_of(coeffs@), (segment * c) as nat, c as nat),
            points_of(bases@),
            buckets.len() as nat,
            coeffs.len() as nat,
        ),
        group_laws() ==> weighted_sum(bucket_points(buckets@), 0) == msm(
            digits(values_of(coeffs@), (segment * c) as nat, c as nat),
            points_of(bases@),
            coeffs.len() as nat,
        ),
{
    let ghost vals = values_of(coeffs@);
    let ghost ps = points_of(bases@);
    let ghost ds = digits(vals, (segment * c) as nat, c as nat);
    assert(segment * c <= 256 * 23) by (nonlinear_arith)
        requires
            segment <= 256,
            c <= 23,
    ;
    proof {
        lemma_one_shl(c as u64);
        lemma_shl_pow_positive(c as nat);
        crate::bits::lemma_shl_pow_monotonic(c as nat, 23);
        assert(shl_pow(23) == 0x80_0000) by {
            lemma_shl_pow_64();
            lemma_shl_pow_adds(8, 8);
            lemma_shl_pow_adds(16, 7);
            reveal_with_fuel(shl_pow, 8);
            assert(shl_pow(7) == 128);
            assert(shl_pow(16) == 65536) by (nonlinear_arith)
                requires
                    shl_pow(16) == shl_pow(8) * shl_pow(8),
                    shl_pow(8) == 256,
            ;
            assert(shl_pow(23) == 0x80_0000) by (nonlinear_arith)
                requires
                    shl_pow(23) == shl_pow(16) * shl_pow(7),
                    shl_pow(16) == 65536,
                    shl_pow(7) == 128,
            ;
        }
        lemma_points_on_curve(bases@);
    }
    let count: usize = ((1u64 << c) - 1) as usize;
    let mut buckets: Vec<Bucket> = Vec::new();
    let mut k: usize = 0;
    while k < count
        invariant
            k <= count,
            buckets.len() == k,
            forall|j: int| 0 <= j < k ==> buckets@[j] == Bucket::Empty,
        decreases count - k,
    {
        buckets.push(Bucket::Empty);
        k += 1;
    }
    proof {
        assert(bucket_contents(buckets@) =~= sorted_into(ds, ps, count as nat, 0));
        if group_laws() {
            lemma_weighted_sum_empty(bucket_points(buckets@), 0);
        }
    }
    let mut i: usize = 0;
    while i < coeffs.len()
        invariant
            i <= coeffs.len(),
            coeffs.len() == bases.len(),
            all_wf(coeffs@),
            all_points_wf(bases@),
            all_on_curve(ps),
            1 <= c <= 23,
            segment * c <= 256 * 23,
            vals == values_of(coeffs@),
            ps == points_of(bases@),
            ds == digits(vals, (segment * c) as nat, c as nat),
            buckets_wf(buckets@),
            buckets.len() + 1 == shl_pow(c as nat),
            bucket_contents(buckets@) == sorted_into(ds, ps, buckets.len() as nat, i as nat),
            group_laws() ==> weighted_sum(bucket_points(buckets@), 0) == msm(ds, ps, i as nat),
        decreases coeffs.len() - i,
    {
        let repr = coeffs[i].to_repr();
        let coeff = get_at(segment, c, &repr);
        let ghost before = bucket_points(buckets@);
        let ghost held = bucket_contents(buckets@);
        proof {
            coeffs@[i as int].lemma_bytes();
            assert(vals[i as int] == coeffs@[i as int]@);
            assert(ps[i as int] == bases@[i as int]@);
            assert(ds[i as int] == coeff);
            assert(all_on_curve(before)) by {
                assert forall|j: int| 0 <= j < before.len() implies on_curve(
                    #[trigger] before[j],
                ) by {
                    assert(buckets@[j].wf());
                }
            }
        }
        if coeff != 0 {
            let mut bucket = buckets[coeff - 1];
            bucket.add_assign(&bases[i]);
            buckets.set(coeff - 1, bucket);
            proof {
                assert(bucket_contents(buckets@) =~= held.update(
                    coeff - 1,
                    with_base(held[coeff - 1], ps[i as int]),
                ));
                if group_laws() {
                    let p = ps[i as int];
                    let slot = (coeff - 1) as nat;
                    lemma_neutral(p);
                    assert(bucket_points(buckets@) =~= before.update(
                        slot as int,
                        g1_sum(before[slot as int], p),
                    ));
                    lemma_weighted_sum_update(before, slot, p, 0);
                }
            }
        } else {
            proof {
                if group_laws() {
                    lemma_msm_on_curve(ds, ps, i as nat);
                    lemma_neutral(msm(ds, ps, i as nat));
                }
            }
        }
        i += 1;
    }
    buckets
}

/// Buckets that hold nothing weigh nothing.
proof fn lemma_weighted_sum_empty(bs: Seq<Coordinates>, j: nat)
    requires
        group_laws(),
        forall|i: int| 0 <= i < bs.len() ==> bs[i] == identity(),
    ensures
        weighted_sum(bs, j) == identity(),
    decreases bs.len() - j,
{
    if j < bs.len() {
        lemma_weighted_sum_empty(bs, j + 1);
        lemma_scalar_mul_identity(j + 1);
        lemma_neutral(identity());
    }
}

/// Adds to the accumulator the sum of the buckets, bucket `t` counted `t + 1`
/// times, by summation by parts: from the last bucket down, each bucket is added
/// to a running sum and the running sum to the accumulator.
fn sum_buckets(buckets: &Vec<Bucket>, acc: &mut G1)
    requires
        buckets_wf(buckets@),
        old(acc).wf(),
    ensures
        final(acc).wf(),
        final(acc)@ == gathered(old(acc)@, bucket_contents(buckets@), 0),
        group_laws() ==> final(acc)@ == g1_sum(
            old(acc)@,
            weighted_sum(bucket_points(buckets@), 0),
        ),
{
    let ghost bs = bucket_points(buckets@);
    let ghost held = bucket_contents(buckets@);
    let ghost start = acc@;
    let mut running_sum = G1::identity();
    let mut j: usize = buckets.len();
    proof {
        assert(all_on_curve(bs)) by {
            assert forall|t: int| 0 <= t < bs.len() implies on_curve(#[trigger] bs[t]) by {
                assert(buckets@[t].wf());
            }
        }
        if group_laws() {
            lemma_neutral(start);
        }
    }
    while j > 0
        invariant
            j <= buckets.len(),
            bs == bucket_points(buckets@),
            all_on_curve(bs),
            buckets_wf(buckets@),
            start == old(acc)@,
            on_curve(start),
            acc.wf(),
            running_sum.wf(),
            held == bucket_contents(buckets@),
            running_sum@ == running_total(held, j as nat),
            acc@ == gathered(start, held, j as nat),
            group_laws() ==> running_sum@ == suffix_sum(bs, j as nat),
            group_laws() ==> acc@ == g1_sum(start, stair_sum(bs, j as nat)),
        decreases j,
    {
        j -= 1;
        let exp = buckets[j];
        let ghost previous = running_sum@;
        running_sum = exp.add(running_sum);
        proof {
            assert(bs[j as int] == exp.point());
            assert(held[j as int] == exp.holds());
            if group_laws() {
                lemma_neutral(previous);
                assert(running_sum@ == suffix_sum(bs, j as nat));
                lemma_suffix_sum_on_curve(bs, j as nat + 1);
                lemma_associates(start, stair_sum(bs, j as nat + 1), running_sum@);
            }
        }
        *acc = acc.add(&running_sum);
    }
    proof {
        if group_laws() {
            lemma_stair_sum_total(bs);
        }
    }
}

/// The sum of the windows from `from` up is what the windows from `from + 1`
/// up sum to, scaled by `2^c`, plus the sum over the digits of window `from`.
proof fn lemma_window_step(vals: Seq<nat>, ps: Seq<Coordinates>, from: nat, c: nat)
    requires
        group_laws(),
        all_on_curve(ps),
        vals.len() == ps.len(),
    ensures
        msm(shifted(vals, from * c), ps, vals.len()) == g1_sum(
            scalar_mul(shl_pow(c), msm(shifted(vals, (from + 1) * c), ps, vals.len())),
            msm(digits(vals, from * c, c), ps, vals.len()),
        ),
{
    let low = shifted(vals, from * c);
    let high = shifted(vals, (from + 1) * c);
    let ds = digits(vals, from * c, c);
    assert((from + 1) * c == from * c + c) by (nonlinear_arith);
    assert(low.len() == vals.len());
    assert(high.len() == vals.len());
    assert(ds.len() == vals.len());
    assert forall|i: int| 0 <= i < vals.len() implies #[trigger] low[i] == shl_pow(c) * high[i]
        + ds[i] by {
        lemma_digit_split(vals[i], from * c, c);
    }
    lemma_msm_window(shl_pow(c), low, high, ds, ps, vals.len());
}

/// Adds to the accumulator, doubled once for every bit of the windows, the
/// sum of the bases scaled by their coefficients. The scalars are cut into
/// windows of `window_width` bits, taken from the most significant down: for each
/// the accumulator is doubled as often as the window is wide, the bases are
/// sorted into buckets by their digit in the window, and the buckets are summed
/// into the accumulator.
pub fn multiexp_serial(coeffs: &[Fr], bases: &[G1], acc: &mut G1)
    requires
        coeffs.len() == bases.len(),
        coeffs.len() <= u32::MAX,
        all_wf(coeffs@),
        all_points_wf(bases@),
        old(acc).wf(),
    ensures
        final(acc).wf(),
        final(acc)@ == bucket_method(old(acc)@, values_of(coeffs@), points_of(bases@)),
        group_laws() ==> final(acc)@ == g1_sum(
            scalar_mul(
                shl_pow(
                    window_width(coeffs.len() as nat) * segment_count(
                        window_width(coeffs.len() as nat),
                    ),
                ),
                old(acc)@,
            ),
            msm(values_of(coeffs@), points_of(bases@), coeffs.len() as nat),
        ),
        old(acc)@ == identity() && group_laws() ==> final(acc)@ == msm(
            values_of(coeffs@),
            points_of(bases@),
            coeffs.len() as nat,
        ),
{
    let c = window_bits(bases.len());
    let segments = (256 / c) + 1;
    let ghost vals = values_of(coeffs@);
    let ghost ps = points_of(bases@);
    let ghost n = coeffs.len() as nat;
    let ghost start = acc@;
    proof {
        lemma_points_on_curve(bases@);
        assert(shl_pow(0) == 1);
        assert(c * segments >= 256 && c * segments <= 256 + 23) by (nonlinear_arith)
            requires
                segments == 256usize / c + 1,
                1 <= c <= 23,
        ;
        assert(c * 0 == 0);
        assert(vals.len() == n);
        if group_laws() {
            lemma_scalar_mul_small(start);
            // above the last window every scalar is zero
            assert forall|i: int| 0 <= i < n implies (#[trigger] shifted(
                vals,
                (segments * c) as nat,
            )[i]) == 0 by {
                lemma_scalar_bound(coeffs@[i]);
                assert(segments * c == c * segments) by (nonlinear_arith);
                lemma_small_quotient(vals[i], 256, (segments * c) as nat);
            }
            lemma_msm_zero(shifted(vals, (segments * c) as nat), ps, n);
            lemma_neutral(start);
        }
    }
    let mut current_segment: usize = segments;
    while current_segment > 0
        invariant
            current_segment <= segments,
            segments == 256usize / c + 1,
            1 <= c <= 23,
            coeffs.len() == bases.len(),
            all_wf(coeffs@),
            all_points_wf(bases@),
            vals == values_of(coeffs@),
            ps == points_of(bases@),
            all_on_curve(ps),
            n == coeffs.len(),
            start == old(acc)@,
            on_curve(start),
            acc.wf(),
            acc@ == windows_from(start, vals, ps, c as nat, current_segment as nat),
            group_laws() ==> acc@ == g1_sum(
                scalar_mul(shl_pow((c * (segments - current_segment)) as nat), start),
                msm(shifted(vals, (current_segment * c) as nat), ps, n),
            ),
        decreases current_segment,
    {
        let ghost done = (c * (segments - current_segment)) as nat;
        let ghost upper = current_segment as nat;
        let ghost before = acc@;
        current_segment -= 1;
        double_times(acc, c);
        let buckets = fill_buckets(coeffs, bases, current_segment, c);
        sum_buckets(&buckets, acc);
        proof {
            assert(buckets.len() == shl_pow(c as nat) - 1);
            assert(acc@ == window_sum(before, vals, ps, c as nat, current_segment as nat));
            assert(c * (segments - current_segment) == done + c) by (nonlinear_arith)
                requires
                    done == c * (segments - (current_segment + 1)),
            ;
            if group_laws() {
                let lower = current_segment as nat;
                let head = scalar_mul(shl_pow(done), start);
                let high = msm(shifted(vals, (upper * c) as nat), ps, n);
                let ds = msm(digits(vals, (lower * c) as nat, c as nat), ps, n);
                lemma_scalar_mul_on_curve(shl_pow(done), start);
                lemma_msm_on_curve(shifted(vals, (upper * c) as nat), ps, n);
                lemma_msm_on_curve(digits(vals, (lower * c) as nat, c as nat), ps, n);
                // doubling: 2^c * (head + high) = 2^c * head + 2^c * high
                lemma_scalar_mul_distributes(shl_pow(c as nat), head, high);
                lemma_scalar_mul_muls(shl_pow(c as nat), shl_pow(done), start);
                lemma_shl_pow_adds(c as nat, done);
                assert(c as nat + done == done + c);
                let head2 = scalar_mul(shl_pow((done + c) as nat), start);
                let high2 = scalar_mul(shl_pow(c as nat), high);
                lemma_scalar_mul_on_curve(shl_pow((done + c) as nat), start);
                lemma_scalar_mul_on_curve(shl_pow(c as nat), high);
                // (head2 + high2) + ds = head2 + (high2 + ds)
                lemma_associates(head2, high2, ds);
                assert(upper == lower + 1);
                lemma_window_step(vals, ps, lower, c as nat);
            }
        }
    }
    proof {
        if group_laws() {
            assert(shifted(vals, 0) =~= vals) by {
                assert forall|i: int| 0 <= i < vals.len() implies shifted(vals, 0)[i]
                    == vals[i] by {
                    assert(vals[i] / 1 == vals[i]);
                }
            }
            assert(0 * c == 0);
            assert(c * (segments - 0) == c * segments);
            assert(window_width(n) * segment_count(window_width(n)) == c * segments);
            if start == identity() {
                lemma_scalar_mul_identity(shl_pow((c * segments) as nat));
                lemma_msm_on_curve(vals, ps, n);
                lemma_neutral(msm(vals, ps, n));
            }
        }
    }
}

/// The sum of the bases scaled by their coefficients, by doubling and adding:
/// for each bit of the scalars, from the most significant down, the sum so far
/// is doubled and the bases whose scalar has that bit set are added.
pub fn small_multiexp(coeffs: &[Fr], bases: &[G1]) -> (acc: G1)
    requires
        coeffs.len() <= bases.len(),
        all_wf(coeffs@),
        all_points_wf(bases@),
    ensures
        acc.wf(),
        acc@ == double_and_add(
            values_of(coeffs@),
            points_of(bases@).take(coeffs.len() as int),
            0,
        ),
        group_laws() ==> acc@ == msm(values_of(coeffs@), points_of(bases@), coeffs.len() as nat),
{
    let ghost vals = values_of(coeffs@);
    let ghost ps = points_of(bases@).take(coeffs.len() as int);
    let ghost n = coeffs.len() as nat;
    let mut acc = G1::identity();
    let mut bit: usize = 256;
    proof {
        lemma_points_on_curve(bases@);
        assert(all_on_curve(ps));
        if group_laws() {
            assert forall|i: int| 0 <= i < n implies (#[trigger] shifted(vals, 256)[i]) == 0 by {
                lemma_scalar_bound(coeffs@[i]);
                lemma_small_quotient(vals[i], 256, 256);
            }
            lemma_msm_zero(shifted(vals, 256), ps, n);
        }
    }
    while bit > 0
        invariant
            bit <= 256,
            coeffs.len() <= bases.len(),
            all_wf(coeffs@),
            all_points_wf(bases@),
            vals == values_of(coeffs@),
            ps == points_of(bases@).take(coeffs.len() as int),
            all_on_curve(ps),
            n == coeffs.len(),
            acc.wf(),
            acc@ == double_and_add(vals, ps, bit as nat),
            group_laws() ==> acc@ == msm(shifted(vals, bit as nat), ps, n),
        decreases bit,
    {
        bit -= 1;
        let ghost before = acc@;
        acc = acc.double();
        let ghost doubled = acc@;
        let ghost ds = digits(vals, bit as nat, 1);
        let mut coeff_idx: usize = 0;
        proof {
            if group_laws() {
                lemma_neutral(doubled);
            }
        }
        while coeff_idx < coeffs.len()
            invariant
                coeff_idx <= coeffs.len(),
                coeffs.len() <= bases.len(),
                bit < 256,
                all_wf(coeffs@),
                all_points_wf(bases@),
                vals == values_of(coeffs@),
                ps == points_of(bases@).take(coeffs.len() as int),
                all_on_curve(ps),
                ds == digits(vals, bit as nat, 1),
                on_curve(doubled),
                acc.wf(),
                acc@ == with_bits(doubled, vals, ps, bit as nat, coeff_idx as nat),
                group_laws() ==> acc@ == g1_sum(doubled, msm(ds, ps, coeff_idx as nat)),
            decreases coeffs.len() - coeff_idx,
        {
            let repr = coeffs[coeff_idx].to_repr();
            let bit_value = get_at(bit, 1, &repr);
            proof {
                coeffs@[coeff_idx as int].lemma_bytes();
                assert(bit * 1 == bit);
                assert(vals[coeff_idx as int] == coeffs@[coeff_idx as int]@);
                assert(ds[coeff_idx as int] == bit_value);
                assert(ps[coeff_idx as int] == bases@[coeff_idx as int]@);
                assert(shl_pow(1) == 2) by {
                    reveal_with_fuel(shl_pow, 2);
                }
                if group_laws() {
                    lemma_msm_on_curve(ds, ps, coeff_idx as nat);
                }
            }
            if bit_value != 0 {
                acc = acc.add(&bases[coeff_idx]);
                proof {
                    if group_laws() {
                        let p = ps[coeff_idx as int];
                        lemma_scalar_mul_small(p);
                        lemma_associates(doubled, msm(ds, ps, coeff_idx as nat), p);
                    }
                }
            } else {
                proof {
                    if group_laws() {
                        lemma_neutral(msm(ds, ps, coeff_idx as nat));
                    }
                }
            }
            coeff_idx += 1;
        }
        proof {
            assert(vals.len() == n);
            if group_laws() {
                lemma_scalar_mul_small(before);
                assert(shl_pow(1) == 2) by {
                    reveal_with_fuel(shl_pow, 2);
                }
                assert(bit * 1 == bit && (bit + 1) * 1 == bit + 1);
                lemma_window_step(vals, ps, bit as nat, 1);
            }
        }
    }
    proof {
        if group_laws() {
            assert(shl_pow(0) == 1);
            assert(shifted(vals, 0) =~= vals);
            lemma_msm_agrees(vals, ps, vals, points_of(bases@), n);
        }
    }
    acc
}

/// The sum of the bases scaled by their coefficients. Where there are more
/// points than workers, the input is cut into consecutive pieces of
/// `len / num_threads` points, each piece is summed on its own, and the partial
/// sums are added up.
pub fn best_multiexp_cpu(coeffs: &[Fr], bases: &[G1], num_threads: usize) -> (res: G1)
    requires
        coeffs.len() == bases.len(),
        coeffs.len() <= u32::MAX,
        num_threads >= 1,
        all_wf(coeffs@),
        all_points_wf(bases@),
    ensures
        res.wf(),
        res@ == cpu_sum(values_of(coeffs@), points_of(bases@), num_threads as nat),
        group_laws() ==> res@ == msm(values_of(coeffs@), points_of(bases@), coeffs.len() as nat),
{
    let ghost vals = values_of(coeffs@);
    let ghost ps = points_of(bases@);
    proof {
        lemma_points_on_curve(bases@);
        assert(vals.len() == coeffs.len());
    }
    if coeffs.len() > num_threads {
        let chunk = coeffs.len() / num_threads;
        let mut res = G1::identity();
        let mut start: usize = 0;
        assert(chunk >= 1) by {
            vstd::arithmetic::div_mod::lemma_div_non_zero(
                coeffs.len() as int,
                num_threads as int,
            );
        }
        while start < coeffs.len()
            invariant
                start <= coeffs.len(),
                chunk >= 1,
                coeffs.len() == bases.len(),
                coeffs.len() <= u32::MAX,
                all_wf(coeffs@),
                all_points_wf(bases@),
                vals == values_of(coeffs@),
                ps == points_of(bases@),
                all_on_curve(ps),
                res.wf(),
                pieces_onto(res@, vals, ps, chunk as nat, start as nat) == pieces_onto(
                    identity(),
                    vals,
                    ps,
                    chunk as nat,
                    0,
                ),
                group_laws() ==> res@ == msm(vals, ps, start as nat),
            decreases coeffs.len() - start,
        {
            let end = if coeffs.len() - start < chunk {
                coeffs.len()
            } else {
                start + chunk
            };
            let piece_coeffs = slice_subrange(coeffs, start, end);
            let piece_bases = slice_subrange(bases, start, end);
            let mut acc = G1::identity();
            assert(all_wf(piece_coeffs@)) by {
                assert forall|i: int| 0 <= i < piece_coeffs@.len() implies (
                #[trigger] piece_coeffs@[i]).wf() by {
                    assert(piece_coeffs@[i] == coeffs@[start + i]);
                }
            }
            assert(all_points_wf(piece_bases@)) by {
                assert forall|i: int| 0 <= i < piece_bases@.len() implies (
                #[trigger] piece_bases@[i]).wf() by {
                    assert(piece_bases@[i] == bases@[start + i]);
                }
            }
            multiexp_serial(piece_coeffs, piece_bases, &mut acc);
            res = res.add(&acc);
            proof {
                assert(values_of(piece_coeffs@) =~= vals.subrange(start as int, end as int));
                assert(points_of(piece_bases@) =~= ps.subrange(start as int, end as int));
                assert(piece_stop(vals.len(), chunk as nat, start as nat) == end);
                if group_laws() {
                    let m = (end - start) as nat;
                    lemma_msm_splits(vals, ps, start as nat, m);
                }
            }
            start = end;
        }
        res
    } else {
        let mut acc = G1::identity();
        multiexp_serial(coeffs, bases, &mut acc);
        acc
    }
}

/// The sum of the bases scaled by their coefficients.
pub fn best_multiexp(coeffs: &[Fr], bases: &[G1], num_threads: usize) -> (res: G1)
    requires
        coeffs.len() == bases.len(),
        coeffs.len() <= u32::MAX,
        num_threads >= 1,
        all_wf(coeffs@),
        all_points_wf(bases@),
    ensures
        res.wf(),
        res@ == cpu_sum(values_of(coeffs@), points_of(bases@), num_threads as nat),
        group_laws() ==> res@ == msm(values_of(coeffs@), points_of(bases@), coeffs.len() as nat),
{
    best_multiexp_cpu(coeffs, bases, num_threads)
}

} // verus!
