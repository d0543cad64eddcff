use ff::{Field, PrimeField};
use group::prime::PrimeCurveAffine;
use group::{Curve, Group};
use halo2curves::bn256;
use halo2curves::CurveAffine;
use rand_core::OsRng;

use zkml::curve::G1;
use zkml::fft::{best_fft, FFTData, FftStats};
use zkml::field::Fr;
use zkml::msm::{best_multiexp, multiexp_serial, small_multiexp};

fn scalar(x: &bn256::Fr) -> Fr {
    Fr::from_repr(x.to_repr()).unwrap()
}

fn point(p: &bn256::G1Affine) -> G1 {
    G1::from_xy(p.x.to_repr(), p.y.to_repr()).unwrap()
}

fn random_input(n: usize) -> (Vec<bn256::Fr>, Vec<bn256::G1Affine>) {
    let scalars = (0..n).map(|_| bn256::Fr::random(OsRng)).collect();
    let points = (0..n).map(|_| bn256::G1::random(OsRng).to_affine()).collect();
    (scalars, points)
}

#[test]
fn field_operations_agree_with_the_curve_library() {
    for _ in 0..20 {
        let a = bn256::Fr::random(OsRng);
        let b = bn256::Fr::random(OsRng);
        assert_eq!(scalar(&a).add(&scalar(&b)), scalar(&(a + b)));
        assert_eq!(scalar(&a).sub(&scalar(&b)), scalar(&(a - b)));
        assert_eq!(scalar(&a).mul(&scalar(&b)), scalar(&(a * b)));
        assert_eq!(scalar(&a).neg(), scalar(&-a));
        assert_eq!(scalar(&a).square(), scalar(&a.square()));
        assert_eq!(scalar(&a).invert(), Option::from(a.invert()).map(|x: bn256::Fr| scalar(&x)));
        assert_eq!(scalar(&a).pow(12345), scalar(&a.pow_vartime([12345u64])));
    }
    assert_eq!(Fr::root_of_unity(), scalar(&bn256::Fr::ROOT_OF_UNITY));
    assert_eq!(Fr::root_of_unity_inv(), scalar(&bn256::Fr::ROOT_OF_UNITY_INV));
    assert_eq!(Fr::two_inv(), scalar(&bn256::Fr::TWO_INV));
    assert_eq!(zkml::field::TWO_ADICITY, bn256::Fr::S);
}

#[test]
fn curve_operations_agree_with_the_curve_library() {
    assert_eq!(G1::generator(), point(&bn256::G1Affine::generator()));
    assert_eq!(G1::identity(), point(&bn256::G1Affine::identity()));
    for _ in 0..10 {
        let p = bn256::G1::random(OsRng).to_affine();
        let q = bn256::G1::random(OsRng).to_affine();
        let s = bn256::Fr::random(OsRng);
        assert_eq!(point(&p).add(&point(&q)), point(&(p + q).to_affine()));
        assert_eq!(point(&p).sub(&point(&q)), point(&(p - q).to_affine()));
        assert_eq!(point(&p).double(), point(&p.to_curve().double().to_affine()));
        assert_eq!(point(&p).mul(&scalar(&s)), point(&(p * s).to_affine()));
        assert!(bool::from(p.is_on_curve()));
    }
}

#[test]
fn multiexp_agrees_with_the_curve_library() {
    for n in [1usize, 2, 7, 33, 70] {
        let (scalars, points) = random_input(n);
        let expected = point(&halo2curves::msm::best_multiexp(&scalars, &points).to_affine());
        let coeffs: Vec<Fr> = scalars.iter().map(scalar).collect();
        let bases: Vec<G1> = points.iter().map(point).collect();
        assert_eq!(best_multiexp(&coeffs, &bases, 1), expected);
        assert_eq!(best_multiexp(&coeffs, &bases, 4), expected);
        if n <= 7 {
            assert_eq!(small_multiexp(&coeffs, &bases), expected);
        }
        // an accumulator that is not empty is doubled once for every bit of the windows
        let c = zkml::arithmetic::window_bits(n);
        let bits = (c * (256 / c + 1)) as u64;
        let start = bn256::G1::random(OsRng).to_affine();
        let mut acc = point(&start);
        multiexp_serial(&coeffs, &bases, &mut acc);
        let mut moved = start.to_curve();
        for _ in 0..bits {
            moved = moved.double();
        }
        assert_eq!(acc, point(&moved.to_affine()).add(&expected));
    }
}

#[test]
fn fft_agrees_with_the_curve_library() {
    for log_n in 1..8u32 {
        let n = 1usize << log_n;
        let mut omega = bn256::Fr::ROOT_OF_UNITY;
        for _ in log_n..bn256::Fr::S {
            omega = omega.square();
        }
        let input: Vec<bn256::Fr> = (0..n).map(|_| bn256::Fr::random(OsRng)).collect();
        let mut expected = input.clone();
        halo2curves::fft::best_fft(&mut expected, omega, log_n);

        let w = scalar(&omega);
        let data = FFTData::new(n, w, w.invert().unwrap());
        let mut a: Vec<Fr> = input.iter().map(scalar).collect();
        best_fft(&mut a, w, log_n, &data, false, &mut FftStats::new(), false);
        assert_eq!(a, expected.iter().map(scalar).collect::<Vec<_>>());
    }
}
