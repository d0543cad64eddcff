//! What the arithmetic kernels share: logarithms, powers of two, reversed
//! bits, the windows of bits that scalars are cut into, and the cutting of a list
//! into pieces for workers.

use crate::bits::{
    lemma_div_shl_pow, lemma_le_value_append, lemma_le_value_bound, lemma_le_value_skip,
    lemma_le_value_zero_tail, lemma_one_shl, lemma_shl_pow_monotonic, lemma_small_quotient,
    lemma_window_within_word,
};
use crate::field::{
    le_value, lemma_shl_pow_64, lemma_shl_pow_adds, lemma_shl_pow_positive, lemma_shr_is_div,
    shl_pow,
};
use vstd::arithmetic::div_mod::*;
use vstd::prelude::*;

verus! {

/// The binary logarithm, rounded down: the `r` with `2^r <= num < 2^(r + 1)`.
pub fn log2_floor(num: usize) -> (pow: u32)
    requires
        num > 0,
    ensures
        shl_pow(pow as nat) <= num < shl_pow(pow as nat + 1),
{
    let mut pow: u32 = 0;
    let mut power: usize = 1;
    assert(shl_pow(0) == 1);
    while power <= num / 2
        invariant
            power == shl_pow(pow as nat),
            power <= num,
            pow < 64,
        decreases num - power,
    {
        proof {
            lemma_shl_pow_64();
            lemma_shl_pow_positive(pow as nat);
            if pow >= 63 {
                lemma_shl_pow_monotonic(63, pow as nat);
                lemma_shl_pow_adds(63, 1);
                assert(shl_pow(1) == 2) by {
                    reveal_with_fuel(shl_pow, 2);
                }
            }
        }
        power = power * 2;
        pow = pow + 1;
    }
    pow
}

/// The number is a power of two.
pub open spec fn is_pow2(n: nat) -> bool
    decreases n,
{
    n == 1 || (n > 1 && n % 2 == 0 && is_pow2(n / 2))
}

/// Whether `n` is a power of two.
pub fn is_power_of_two(n: usize) -> (r: bool)
    ensures
        r == is_pow2(n as nat),
{
    if n == 0 {
        return false;
    }
    let mut m = n;
    while m % 2 == 0
        invariant
            m >= 1,
            is_pow2(m as nat) == is_pow2(n as nat),
        decreases m,
    {
        m = m / 2;
    }
    m == 1
}

/// The number whose lowest `l` bits are those of `n` in reverse order, and
/// whose other bits are zero.
pub open spec fn bit_reversal(n: nat, l: nat) -> nat
    decreases l,
{
    if l == 0 {
        0
    } else {
        (n % 2) * shl_pow((l - 1) as nat) + bit_reversal(n / 2, (l - 1) as nat)
    }
}

/// A reversal of `l` bits is below `2^l`.
pub proof fn lemma_bit_reversal_bound(n: nat, l: nat)
    ensures
        bit_reversal(n, l) < shl_pow(l),
    decreases l,
{
    if l == 0 {
        assert(shl_pow(0) == 1);
    } else {
        lemma_bit_reversal_bound(n / 2, (l - 1) as nat);
        let p = shl_pow((l - 1) as nat);
        assert((n % 2) * p <= p) by (nonlinear_arith)
            requires
                n % 2 <= 1,
        ;
    }
}

/// Reversing one more bit: the bits reversed so far move up by one, and the
/// next bit of `n` comes in below them.
proof fn lemma_bit_reversal_step(n: nat, l: nat)
    ensures
        bit_reversal(n, l + 1) == 2 * bit_reversal(n, l) + (n / shl_pow(l)) % 2,
    decreases l,
{
    if l == 0 {
        reveal_with_fuel(bit_reversal, 2);
        assert(shl_pow(0) == 1);
        assert((n % 2) * 1 == n % 2) by (nonlinear_arith);
    } else {
        lemma_bit_reversal_step(n / 2, (l - 1) as nat);
        let p = shl_pow((l - 1) as nat);
        assert(shl_pow(l) == 2 * p);
        // (n / 2) / 2^(l - 1) == n / 2^l
        assert(shl_pow(1) == 2) by {
            reveal_with_fuel(shl_pow, 2);
        }
        lemma_div_shl_pow(n, 1, (l - 1) as nat);
        assert(1 + (l - 1) as nat == l);
        assert((n % 2) * (2 * p) == 2 * ((n % 2) * p)) by (nonlinear_arith);
    }
}

/// Reverses the `l` lowest bits of `n`. Bits that the reversal pushes past the
/// width of a word are lost.
pub fn bitreverse(n: usize, l: usize) -> (r: usize)
    ensures
        r == bit_reversal(n as nat, l as nat) % (usize::MAX as nat + 1),
        shl_pow(l as nat) <= usize::MAX as nat + 1 ==> r == bit_reversal(n as nat, l as nat),
{
    let mut n = n;
    let ghost n0 = n as nat;
    let ghost word = usize::MAX as nat + 1;
    let mut r: usize = 0;
    let mut i: usize = 0;
    proof {
        assert(shl_pow(0) == 1);
        lemma_small_mod(0, word);
    }
    while i < l
        invariant
            i <= l,
            word == usize::MAX as nat + 1,
            n as nat == n0 / shl_pow(i as nat),
            r as nat == bit_reversal(n0, i as nat) % word,
        decreases l - i,
    {
        let bit = n % 2;
        let doubled = if r > usize::MAX / 2 {
            (r - (usize::MAX / 2 + 1)) * 2
        } else {
            r * 2
        };
        proof {
            lemma_bit_reversal_step(n0, i as nat);
            let prev = bit_reversal(n0, i as nat);
            // doubled == (2 * r) % word
            assert(word % 2 == 0 && word / 2 == usize::MAX / 2 + 1) by {
                assert(usize::MAX == 0xffff_ffff || usize::MAX == 0xffff_ffff_ffff_ffff);
            }
            assert(doubled as nat == (2 * r as nat) % word) by {
                if r > usize::MAX / 2 {
                    lemma_fundamental_div_mod_converse(
                        2 * r as int,
                        word as int,
                        1,
                        doubled as int,
                    );
                } else {
                    lemma_small_mod(2 * r as nat, word);
                }
            }
            lemma_mul_mod_noop_right(2, prev as int, word as int);
            assert(doubled % 2 == 0);
            assert(doubled + bit < word);
            // (2 * prev + bit) % word == ((2 * prev) % word + bit) % word
            lemma_add_mod_noop(2 * prev as int, bit as int, word as int);
            lemma_small_mod(bit as nat, word);
            lemma_small_mod((doubled + bit) as nat, word);
            lemma_div_shl_pow(n0, i as nat, 1);
            assert(shl_pow(1) == 2) by {
                reveal_with_fuel(shl_pow, 2);
            }
        }
        r = doubled + bit;
        n = n / 2;
        i += 1;
    }
    proof {
        if shl_pow(l as nat) <= word {
            lemma_bit_reversal_bound(n0, l as nat);
            lemma_small_mod(bit_reversal(n0, l as nat), word);
        }
    }
    r
}

/// The digit of `bytes`, read as a little-endian number, in base `2^c` at
/// position `segment`: the bits `segment * c` up to `segment * c + c`.
pub open spec fn window(bytes: Seq<u8>, segment: nat, c: nat) -> nat {
    (le_value(bytes) / shl_pow(segment * c)) % shl_pow(c)
}

/// Reads the `c` bits of a 32-byte little-endian number that start at bit
/// `segment * c`. Bits past the end of the number are zero.
pub fn get_at(segment: usize, c: usize, bytes: &[u8; 32]) -> (r: usize)
    requires
        c <= 32,
        segment * c <= usize::MAX,
    ensures
        r == window(bytes@, segment as nat, c as nat),
        r < shl_pow(c as nat),
{
    let skip_bits = segment * c;
    let skip_bytes = skip_bits / 8;
    let ghost value = le_value(bytes@);
    proof {
        lemma_shl_pow_positive(c as nat);
        lemma_shl_pow_positive(skip_bits as nat);
        lemma_mod_bound((value / shl_pow(skip_bits as nat)) as int, shl_pow(c as nat) as int);
    }
    if skip_bytes >= 32 {
        proof {
            lemma_le_value_bound(bytes@);
            lemma_small_quotient(value, 256, skip_bits as nat);
            lemma_small_mod(0, shl_pow(c as nat));
        }
        return 0;
    }
    let ghost rest = bytes@.skip(skip_bytes as int);
    let ghost word = Seq::new(8, |i: int| if skip_bytes + i < 32 { bytes@[skip_bytes + i] } else { 0u8 });
    let mut tmp: u64 = 0;
    let mut i: usize = 8;
    assert(le_value(word.skip(8)) == 0);
    while i > 0
        invariant
            i <= 8,
            skip_bytes < 32,
            word == Seq::new(
                8,
                |i: int| if skip_bytes + i < 32 { bytes@[skip_bytes + i] } else { 0u8 },
            ),
            tmp as nat == le_value(word.skip(i as int)),
            (tmp as nat) < shl_pow(8 * (8 - i) as nat),
        decreases i,
    {
        i -= 1;
        let byte: u8 = if skip_bytes + i < 32 {
            bytes[skip_bytes + i]
        } else {
            0
        };
        proof {
            assert(word.skip(i as int)[0] == byte);
            assert(word.skip(i as int).skip(1) =~= word.skip(i + 1));
            lemma_shl_pow_adds(8, 8 * (7 - i) as nat);
            lemma_shl_pow_64();
            assert(8 * (8 - i) as nat == 8 + 8 * (7 - i) as nat);
            lemma_shl_pow_monotonic(8 * (8 - i) as nat, 64);
            let p = shl_pow(8 * (7 - i) as nat);
            assert(byte as nat + 256 * (tmp as nat) < 256 * p) by (nonlinear_arith)
                requires
                    (tmp as nat) < p,
                    byte < 256,
            ;
        }
        tmp = tmp * 256 + byte as u64;
    }
    let shift = skip_bits - skip_bytes * 8;
    let shifted = tmp >> shift;
    let mask: u64 = 1u64 << c;
    proof {
        assert(word.skip(0) =~= word);
        // the word read is the rest of the number modulo 2^64
        lemma_le_value_skip(bytes@, skip_bytes as nat);
        assert(le_value(rest) % shl_pow(64) == le_value(word)) by {
            lemma_shl_pow_positive(64);
            if rest.len() >= 8 {
                let high = rest.skip(8);
                assert(rest =~= word + high);
                lemma_le_value_append(word, high);
                lemma_le_value_bound(word);
                assert(le_value(rest) == le_value(high) * shl_pow(64) + le_value(word))
                    by (nonlinear_arith)
                    requires
                        le_value(rest) == le_value(word) + shl_pow(64) * le_value(high),
                ;
                lemma_fundamental_div_mod_converse(
                    le_value(rest) as int,
                    shl_pow(64) as int,
                    le_value(high) as int,
                    le_value(word) as int,
                );
            } else {
                let zeros = Seq::new((8 - rest.len()) as nat, |i: int| 0u8);
                assert(word =~= rest + zeros);
                lemma_le_value_zero_tail(rest, zeros);
                lemma_le_value_bound(rest);
                lemma_shl_pow_monotonic(8 * rest.len(), 64);
                lemma_small_mod(le_value(rest), shl_pow(64));
            }
        }
        // the digit lies within the word
        lemma_div_shl_pow(value, 8 * skip_bytes as nat, shift as nat);
        assert(8 * skip_bytes as nat + shift as nat == skip_bits as nat);
        lemma_window_within_word(le_value(rest), shift as nat, c as nat);
        lemma_shr_is_div(tmp, shift as u32);
        lemma_one_shl(c as u64);
        lemma_shl_pow_positive(c as nat);
        lemma_shl_pow_monotonic(c as nat, 32);
        lemma_shl_pow_64();
        lemma_mod_bound(shifted as int, mask as int);
    }
    let digit = shifted % mask;
    digit as usize
}

/// The largest whole number not above `e^k`, for `k` up to 23.
pub open spec fn floor_exp(k: nat) -> nat {
    if k == 0 {
        1
    } else if k == 1 {
        2
    } else if k == 2 {
        7
    } else if k == 3 {
        20
    } else if k == 4 {
        54
    } else if k == 5 {
        148
    } else if k == 6 {
        403
    } else if k == 7 {
        1096
    } else if k == 8 {
        2980
    } else if k == 9 {
        8103
    } else if k == 10 {
        22026
    } else if k == 11 {
        59874
    } else if k == 12 {
        162754
    } else if k == 13 {
        442413
    } else if k == 14 {
        1202604
    } else if k == 15 {
        3269017
    } else if k == 16 {
        8886110
    } else if k == 17 {
        24154952
    } else if k == 18 {
        65659969
    } else if k == 19 {
        178482300
    } else if k == 20 {
        485165195
    } else if k == 21 {
        1318815734
    } else if k == 22 {
        3584912846
    } else {
        9744803446
    }
}

/// The first exponent from `k` on whose power of `e` reaches `n`.
pub open spec fn ceil_ln_from(n: nat, k: nat) -> nat
    decreases 23 - k,
{
    if k >= 23 || n <= floor_exp(k) {
        k
    } else {
        ceil_ln_from(n, k + 1)
    }
}

/// The natural logarithm of `n`, rounded up: the least `k` with `n <= e^k`.
pub open spec fn ceil_ln(n: nat) -> nat {
    ceil_ln_from(n, 0)
}

/// The width of the windows that a multiplication of `n` points is cut into:
/// one bit below four points, three below 32, else the natural logarithm of
/// `n`, rounded up.
pub open spec fn window_width(n: nat) -> nat {
    if n < 4 {
        1
    } else if n < 32 {
        3
    } else {
        ceil_ln(n)
    }
}

/// The largest whole number not above `e^k`.
fn floor_exp_of(k: u32) -> (r: u64)
    requires
        k <= 23,
    ensures
        r == floor_exp(k as nat),
{
    if k == 0 {
        1
    } else if k == 1 {
        2
    } else if k == 2 {
        7
    } else if k == 3 {
        20
    } else if k == 4 {
        54
    } else if k == 5 {
        148
    } else if k == 6 {
        403
    } else if k == 7 {
        1096
    } else if k == 8 {
        2980
    } else if k == 9 {
        8103
    } else if k == 10 {
        22026
    } else if k == 11 {
        59874
    } else if k == 12 {
        162754
    } else if k == 13 {
        442413
    } else if k == 14 {
        1202604
    } else if k == 15 {
        3269017
    } else if k == 16 {
        8886110
    } else if k == 17 {
        24154952
    } else if k == 18 {
        65659969
    } else if k == 19 {
        178482300
    } else if k == 20 {
        485165195
    } else if k == 21 {
        1318815734
    } else if k == 22 {
        3584912846
    } else {
        9744803446
    }
}

/// The rounded-up logarithm is the exponent whose power of `e` is the first
/// to reach `n`.
pub proof fn lemma_ceil_ln_unique(n: nat, k: nat)
    requires
        k <= 23,
        n <= floor_exp(k),
        k > 0 ==> floor_exp((k - 1) as nat) < n,
    ensures
        ceil_ln(n) == k,
{
    lemma_ceil_ln_from(n, 0, k);
}

proof fn lemma_ceil_ln_from(n: nat, j: nat, k: nat)
    requires
        j <= k <= 23,
        n <= floor_exp(k),
        k > 0 ==> floor_exp((k - 1) as nat) < n,
    ensures
        ceil_ln_from(n, j) == k,
    decreases k - j,
{
    if j < k {
        lemma_floor_exp_step(j, (k - 1) as nat);
        lemma_ceil_ln_from(n, j + 1, k);
    }
}

proof fn lemma_floor_exp_step(a: nat, b: nat)
    requires
        a <= b <= 23,
    ensures
        floor_exp(a) <= floor_exp(b),
    decreases b - a,
{
    if a < b {
        lemma_floor_exp_step(a, (b - 1) as nat);
    }
}

/// The window width for `n` points.
pub fn window_bits(n: usize) -> (c: usize)
    requires
        n <= u32::MAX,
    ensures
        c == window_width(n as nat),
        1 <= c <= 23,
{
    if n < 4 {
        1
    } else if n < 32 {
        3
    } else {
        let mut k: u32 = 4;
        while floor_exp_of(k) < n as u64
            invariant
                4 <= k <= 23,
                32 <= n <= u32::MAX,
                floor_exp((k - 1) as nat) < n,
            decreases 23 - k,
        {
            k += 1;
        }
        proof {
            lemma_ceil_ln_unique(n as nat, k as nat);
        }
        k as usize
    }
}

/// The length of the pieces that a list of `n` items is cut into for
/// `num_threads` workers: `n / num_threads`, but one where that is less than the
/// number of workers.
pub open spec fn piece_size(n: nat, num_threads: nat) -> nat {
    if n / num_threads < num_threads {
        1
    } else {
        n / num_threads
    }
}

/// Where piece `c` ends: a piece later than it begins, or at the end of the
/// list.
pub open spec fn piece_end(n: nat, chunk: nat, c: nat) -> nat {
    if (c + 1) * chunk < n {
        (c + 1) * chunk
    } else {
        n
    }
}

/// Piece `c` of `after` is what `f` made of piece `c` of `before` and the
/// place where that piece begins.
pub open spec fn piece_mapped<T, F: Fn(Vec<T>, usize) -> Vec<T>>(
    f: F,
    before: Seq<T>,
    after: Seq<T>,
    chunk: nat,
    c: nat,
) -> bool {
    exists|piece: Vec<T>, out: Vec<T>|
        {
            &&& piece@ == before.subrange((c * chunk) as int, piece_end(before.len(), chunk, c) as int)
            &&& #[trigger] f.ensures((piece, (c * chunk) as usize), out)
            &&& out@ == after.subrange((c * chunk) as int, piece_end(before.len(), chunk, c) as int)
        }
}

/// Applies `f` to a list piece by piece: the list is cut into pieces of
/// `piece_size` items, and each piece is replaced by what `f` makes of it and of
/// the place where it begins. `f` gives back as many items as it is given.
pub fn parallelize<T, F: Fn(Vec<T>, usize) -> Vec<T>>(v: &mut Vec<T>, num_threads: usize, f: F)
    requires
        num_threads >= 1,
        forall|piece: Vec<T>, start: usize| #[trigger] f.requires((piece, start)),
        forall|piece: Vec<T>, start: usize, out: Vec<T>| #[trigger]
            f.ensures((piece, start), out) ==> out.len() == piece.len(),
    ensures
        final(v).len() == old(v).len(),
        forall|c: nat|
            c * piece_size(old(v).len() as nat, num_threads as nat) < old(v).len()
                ==> #[trigger] piece_mapped(
                f,
                old(v)@,
                final(v)@,
                piece_size(old(v).len() as nat, num_threads as nat),
                c,
            ),
{
    let n = v.len();
    let mut chunk = n / num_threads;
    if chunk < num_threads {
        chunk = 1;
    }
    let ghost before = v@;
    let mut rest = v.split_off(0);
    let mut start: usize = 0;
    let ghost mut done: nat = 0;
    proof {
        assert(rest@ =~= before);
        assert(0 * chunk == 0);
    }
    while rest.len() > 0
        invariant
            chunk >= 1,
            chunk == piece_size(n as nat, num_threads as nat),
            n == before.len(),
            start <= n,
            start == if done * chunk < n {
                done * chunk
            } else {
                n as int
            },
            v.len() == start,
            rest@ == before.subrange(start as int, n as int),
            forall|piece: Vec<T>, start: usize| #[trigger] f.requires((piece, start)),
            forall|piece: Vec<T>, start: usize, out: Vec<T>| #[trigger]
                f.ensures((piece, start), out) ==> out.len() == piece.len(),
            forall|c: nat| c < done ==> #[trigger] piece_mapped(f, before, v@, chunk as nat, c),
        decreases rest.len(),
    {
        let take = if rest.len() < chunk {
            rest.len()
        } else {
            chunk
        };
        let tail = rest.split_off(take);
        let piece = rest;
        rest = tail;
        let ghost piece_view = piece@;
        let ghost earlier = v@;
        let ghost witness = piece;
        let mut out = f(piece, start);
        let ghost out_view = out@;
        let ghost produced = out;
        v.append(&mut out);
        proof {
            let end = (start + take) as nat;
            assert(done * chunk == start) by {
                if done * chunk >= n {
                    assert(start == n);
                }
            }
            assert((done + 1) * chunk == start + chunk) by (nonlinear_arith)
                requires
                    done * chunk == start,
            ;
            assert(piece_end(n as nat, chunk as nat, done) == end);
            assert(piece_view =~= before.subrange(start as int, end as int));
            assert(out_view =~= v@.subrange(start as int, end as int));
            assert(rest@ =~= before.subrange(end as int, n as int));
            assert forall|c: nat| c < done + 1 implies #[trigger] piece_mapped(
                f,
                before,
                v@,
                chunk as nat,
                c,
            ) by {
                if c < done {
                    assert(piece_mapped(f, before, earlier, chunk as nat, c));
                    let (p, o) = choose|p: Vec<T>, o: Vec<T>|
                        {
                            &&& p@ == before.subrange(
                                (c * chunk) as int,
                                piece_end(before.len(), chunk as nat, c) as int,
                            )
                            &&& #[trigger] f.ensures((p, (c * chunk) as usize), o)
                            &&& o@ == earlier.subrange(
                                (c * chunk) as int,
                                piece_end(before.len(), chunk as nat, c) as int,
                            )
                        };
                    // the pieces before lie within what was there already
                    assert((c + 1) * chunk <= done * chunk) by (nonlinear_arith)
                        requires
                            c < done,
                    ;
                    assert(c * chunk <= (c + 1) * chunk) by (nonlinear_arith);
                    assert(o@ =~= v@.subrange(
                        (c * chunk) as int,
                        piece_end(before.len(), chunk as nat, c) as int,
                    ));
                } else {
                    assert(f.ensures((witness, (c * chunk) as usize), produced));
                }
            }
            done = done + 1;
            assert(done * chunk == start + chunk);
        }
        start = start + take;
    }
    proof {
        assert forall|c: nat| c * chunk < n implies #[trigger] piece_mapped(
            f,
            before,
            v@,
            chunk as nat,
            c,
        ) by {
            assert(c < done) by {
                if c >= done {
                    assert(c * chunk >= done * chunk) by (nonlinear_arith)
                        requires
                            c >= done,
                    ;
                }
            }
        }
    }
}

} // verus!
