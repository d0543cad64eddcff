use ff::{Field, PrimeField};
use rand_core::OsRng;
use zkml::arithmetic::{bitreverse, get_at, log2_floor, parallelize, window_bits};
use zkml::field::{batch_invert, Fr};
use zkml::poly::{
    chunk_len, compute_inner_product, eval_polynomial, evaluate_vanishing_polynomial,
    kate_division, lagrange_interpolate, powers,
};

fn random_fr() -> Fr {
    Fr::from_repr(halo2curves::bn256::Fr::random(OsRng).to_repr()).unwrap()
}

fn frs(values: &[u64]) -> Vec<Fr> {
    values.iter().map(|v| Fr::from_u64(*v)).collect()
}

#[test]
fn test_lagrange_interpolate() {
    let points = (0..5).map(|_| random_fr()).collect::<Vec<_>>();
    let evals = (0..5).map(|_| random_fr()).collect::<Vec<_>>();

    for coeffs in 0..5 {
        let points = &points[0..coeffs];
        let evals = &evals[0..coeffs];

        let poly = lagrange_interpolate(points, evals);
        assert_eq!(poly.len(), points.len());

        for (point, eval) in points.iter().zip(evals) {
            assert_eq!(eval_polynomial(&poly, *point, 4), *eval);
        }
    }
}

#[test]
fn lagrange_interpolate_of_a_line() {
    // through (1, 5) and (3, 11): 2 + 3 X
    let poly = lagrange_interpolate(&frs(&[1, 3]), &frs(&[5, 11]));
    assert_eq!(poly, frs(&[2, 3]));
    // through (0, 1), (1, 2), (2, 5): 1 + X^2
    let poly = lagrange_interpolate(&frs(&[0, 1, 2]), &frs(&[1, 2, 5]));
    assert_eq!(poly, frs(&[1, 0, 1]));
    // one point: the constant
    assert_eq!(lagrange_interpolate(&frs(&[9]), &frs(&[4])), frs(&[4]));
}

#[test]
fn log2_floor_rounds_down() {
    assert_eq!(log2_floor(1), 0);
    assert_eq!(log2_floor(2), 1);
    assert_eq!(log2_floor(3), 1);
    assert_eq!(log2_floor(4), 2);
    assert_eq!(log2_floor(1023), 9);
    assert_eq!(log2_floor(1024), 10);
    assert_eq!(log2_floor(usize::MAX), usize::BITS - 1);
}

#[test]
fn bitreverse_reverses_the_low_bits() {
    assert_eq!(bitreverse(0b0001, 4), 0b1000);
    assert_eq!(bitreverse(0b0110, 4), 0b0110);
    assert_eq!(bitreverse(0b1011, 4), 0b1101);
    assert_eq!(bitreverse(0b1011, 2), 0b11);
    assert_eq!(bitreverse(5, 0), 0);
    assert_eq!(bitreverse(1, usize::BITS as usize), 1 << (usize::BITS - 1));
    // bits pushed past the word are lost
    assert_eq!(bitreverse(1, usize::BITS as usize + 1), 0);
    for n in 0..64usize {
        assert_eq!(bitreverse(bitreverse(n, 6), 6), n);
    }
}

#[test]
fn get_at_reads_windows_of_bits() {
    let mut bytes = [0u8; 32];
    bytes[0] = 0b1011_0110;
    bytes[1] = 0b0000_0001;
    bytes[31] = 0x80;
    assert_eq!(get_at(0, 3, &bytes), 0b110);
    assert_eq!(get_at(1, 3, &bytes), 0b110);
    assert_eq!(get_at(2, 3, &bytes), 0b110);
    assert_eq!(get_at(0, 1, &bytes), 0);
    assert_eq!(get_at(1, 1, &bytes), 1);
    assert_eq!(get_at(0, 9, &bytes), 0b1_1011_0110);
    assert_eq!(get_at(255, 1, &bytes), 1);
    assert_eq!(get_at(254, 1, &bytes), 0);
    // the last window reaches past the number
    assert_eq!(get_at(85, 3, &bytes), 0b1);
    assert_eq!(get_at(86, 3, &bytes), 0);
    assert_eq!(get_at(1000, 23, &bytes), 0);
    assert_eq!(get_at(7, 0, &bytes), 0);
}

#[test]
fn window_width_follows_the_logarithm() {
    assert_eq!(window_bits(0), 1);
    assert_eq!(window_bits(3), 1);
    assert_eq!(window_bits(4), 3);
    assert_eq!(window_bits(31), 3);
    assert_eq!(window_bits(32), 4);
    assert_eq!(window_bits(54), 4);
    assert_eq!(window_bits(55), 5);
    assert_eq!(window_bits(148), 5);
    assert_eq!(window_bits(149), 6);
    assert_eq!(window_bits(1 << 10), 7);
    assert_eq!(window_bits(1 << 20), 14);
    assert_eq!(window_bits(u32::MAX as usize), 23);
    for n in [32usize, 100, 403, 404, 5000, 22026, 22027, 1 << 16, 3584912846, 3584912847] {
        assert_eq!(window_bits(n), (n as f64).ln().ceil() as usize);
    }
}

#[test]
fn eval_polynomial_is_the_sum_of_terms() {
    // 7 + 2 x + 3 x^2 + x^3 at 5
    let poly = frs(&[7, 2, 3, 1]);
    let x = Fr::from_u64(5);
    for threads in [1usize, 2, 3, 4, 8, 100] {
        assert_eq!(eval_polynomial(&poly, x, threads), Fr::from_u64(7 + 10 + 75 + 125));
    }
    assert_eq!(eval_polynomial(&[], x, 1), Fr::zero());
    assert_eq!(eval_polynomial(&[], x, 7), Fr::zero());
    let long: Vec<Fr> = (0..37).map(|_| random_fr()).collect();
    let point = random_fr();
    let mut expected = Fr::zero();
    for (i, c) in long.iter().enumerate() {
        expected = expected.add(&c.mul(&point.pow(i as u64)));
    }
    for threads in [1usize, 2, 5, 16, 37, 74, 75, 200] {
        assert_eq!(eval_polynomial(&long, point, threads), expected);
    }
}

#[test]
fn pieces_are_the_items_per_worker_rounded_up() {
    assert_eq!(chunk_len(10, 3), 4);
    assert_eq!(chunk_len(9, 3), 3);
    assert_eq!(chunk_len(1, 8), 1);
    assert_eq!(chunk_len(0, 8), 0);
    assert_eq!(chunk_len(usize::MAX, 1), usize::MAX);
}

#[test]
fn inner_product_adds_the_products() {
    let a = frs(&[1, 2, 3]);
    let b = frs(&[4, 5, 6]);
    assert_eq!(compute_inner_product(&a, &b), Fr::from_u64(32));
    assert_eq!(compute_inner_product(&[], &[]), Fr::zero());
}

#[test]
fn kate_division_divides_by_a_linear_factor() {
    // (X - 2)(3 + X + 4 X^2) = -6 + X - 7 X^2 + 4 X^3
    let minus = |v: u64| Fr::from_u64(v).neg();
    let a = vec![minus(6), Fr::from_u64(1), minus(7), Fr::from_u64(4)];
    assert_eq!(kate_division(&a, Fr::from_u64(2)), frs(&[3, 1, 4]));
    // a constant has an empty quotient
    assert_eq!(kate_division(&frs(&[5]), Fr::from_u64(2)), vec![]);
    // with a remainder: a(x) = (x - b) q(x) + a(b)
    let a: Vec<Fr> = (0..9).map(|_| random_fr()).collect();
    let b = random_fr();
    let q = kate_division(&a, b);
    assert_eq!(q.len(), 8);
    let x = random_fr();
    let lhs = eval_polynomial(&a, x, 1);
    let rhs = x.sub(&b).mul(&eval_polynomial(&q, x, 1)).add(&eval_polynomial(&a, b, 1));
    assert_eq!(lhs, rhs);
}

#[test]
fn vanishing_polynomial_is_the_product_of_differences() {
    let roots = frs(&[1, 2, 3, 4, 5]);
    for threads in [1usize, 2, 3, 5, 9, 10, 11, 64] {
        assert_eq!(
            evaluate_vanishing_polynomial(&roots, Fr::from_u64(7), threads),
            Fr::from_u64(6 * 5 * 4 * 3 * 2)
        );
        assert_eq!(evaluate_vanishing_polynomial(&roots, Fr::from_u64(3), threads), Fr::zero());
    }
    assert_eq!(evaluate_vanishing_polynomial(&[], Fr::from_u64(3), 2), Fr::one());
}

#[test]
fn powers_start_at_one() {
    assert_eq!(powers(Fr::from_u64(3), 5), frs(&[1, 3, 9, 27, 81]));
    assert_eq!(powers(Fr::from_u64(3), 0), vec![]);
}

#[test]
fn batch_invert_leaves_zeros() {
    let mut values = frs(&[2, 0, 5]);
    batch_invert(&mut values);
    assert_eq!(values[0].mul(&Fr::from_u64(2)), Fr::one());
    assert_eq!(values[0], Fr::two_inv());
    assert_eq!(values[1], Fr::zero());
    assert_eq!(values[2].mul(&Fr::from_u64(5)), Fr::one());
}

#[test]
fn field_arithmetic_is_modular() {
    let minus_one = Fr::zero().sub(&Fr::one());
    assert_eq!(minus_one.add(&Fr::one()), Fr::zero());
    assert_eq!(minus_one.mul(&minus_one), Fr::one());
    assert_eq!(minus_one, Fr::one().neg());
    assert_eq!(Fr::from_u64(6).mul(&Fr::from_u64(7)), Fr::from_u64(42));
    assert_eq!(Fr::from_u64(6).square(), Fr::from_u64(36));
    assert_eq!(Fr::from_u64(2).pow(10), Fr::from_u64(1024));
    assert_eq!(Fr::from_u64(2).pow(0), Fr::one());
    assert_eq!(Fr::zero().invert(), None);
    assert_eq!(Fr::from_u64(2).invert(), Some(Fr::two_inv()));
    // the modulus itself is no canonical encoding, the modulus less one is
    let modulus_minus_one = minus_one.to_repr();
    assert_eq!(Fr::from_repr(modulus_minus_one), Some(minus_one));
    let mut modulus = modulus_minus_one;
    modulus[0] += 1;
    assert_eq!(Fr::from_repr(modulus), None);
    assert_eq!(Fr::from_repr([0xff; 32]), None);
    let mut one = [0u8; 32];
    one[0] = 1;
    assert_eq!(Fr::from_repr(one), Some(Fr::one()));
    assert_eq!(Fr::from_u64(0x0102).to_repr()[0..2], [2, 1]);
    // the roots of unity
    assert_eq!(Fr::root_of_unity().mul(&Fr::root_of_unity_inv()), Fr::one());
    assert_eq!(Fr::root_of_unity().pow(1 << 27), minus_one);
    assert_eq!(Fr::root_of_unity_inv().pow(1 << 27), minus_one);
}

#[test]
fn parallelize_maps_pieces_in_place() {
    for (n, threads) in [(10usize, 3usize), (10, 1), (10, 2), (3, 8), (0, 4), (16, 4), (17, 4)] {
        let mut v: Vec<usize> = (0..n).collect();
        let mut starts = std::cell::RefCell::new(Vec::new());
        parallelize(&mut v, threads, |piece: Vec<usize>, start: usize| {
            starts.borrow_mut().push((start, piece.len()));
            piece.iter().enumerate().map(|(i, x)| x * 100 + start + i).collect()
        });
        // every item was given to the function with its own place
        assert_eq!(v, (0..n).map(|i| i * 101).collect::<Vec<_>>());
        // the pieces are of the length that the number of workers gives
        let chunk = if n / threads < threads { 1 } else { n / threads };
        let expected: Vec<(usize, usize)> =
            (0..n).step_by(chunk).map(|s| (s, chunk.min(n - s))).collect();
        assert_eq!(*starts.get_mut(), expected);
    }
}
