use zkml::curve::G1;
use zkml::fft::{
    best_fft, fft_stats, g_to_lagrange, inverse_of_length, reset_fft_stats, roots_of_unity,
    FFTData, FftStats,
};
use zkml::field::Fr;

/// The root of unity of order `2^log_n` and its inverse.
fn roots(log_n: u32) -> (Fr, Fr) {
    roots_of_unity(log_n)
}

#[test]
fn roots_of_unity_have_their_order() {
    let minus_one = Fr::one().neg();
    assert_eq!(roots_of_unity(0), (Fr::one(), Fr::one()));
    assert_eq!(roots_of_unity(1), (minus_one, minus_one));
    assert_eq!(roots_of_unity(28), (Fr::root_of_unity(), Fr::root_of_unity_inv()));
    for log_n in 1..12u32 {
        let (omega, omega_inv) = roots_of_unity(log_n);
        assert_eq!(omega.mul(&omega_inv), Fr::one());
        assert_eq!(omega.pow(1 << (log_n - 1)), minus_one);
        assert_eq!(omega_inv.pow(1 << (log_n - 1)), minus_one);
        assert_eq!(omega.pow(1 << log_n), Fr::one());
        assert_eq!(inverse_of_length(log_n).mul(&Fr::from_u64(1 << log_n)), Fr::one());
    }
    assert_eq!(inverse_of_length(0), Fr::one());
    assert_eq!(inverse_of_length(1), Fr::two_inv());
}

fn values(n: usize) -> Vec<Fr> {
    let mut out = Vec::new();
    let mut s = Fr::from_u64(0xfeed_beef_0123_4567);
    for i in 0..n {
        out.push(s);
        s = s.mul(&s).add(&Fr::from_u64(i as u64 + 11));
    }
    out
}

fn naive_dft(a: &[Fr], omega: &Fr) -> Vec<Fr> {
    (0..a.len())
        .map(|k| {
            let mut acc = Fr::zero();
            for (j, x) in a.iter().enumerate() {
                acc = acc.add(&omega.pow((j * k) as u64).mul(x));
            }
            acc
        })
        .collect()
}

#[test]
fn fft_of_one_element_is_the_element() {
    let (omega, omega_inv) = roots(0);
    let data = FFTData::new(1, omega, omega_inv);
    let mut a = vec![Fr::from_u64(5)];
    best_fft(&mut a, omega, 0, &data, false, &mut FftStats::new(), false);
    assert_eq!(a, vec![Fr::from_u64(5)]);
}

#[test]
fn fft_of_two_elements() {
    let (omega, omega_inv) = roots(1);
    // the root of order two is minus one
    assert_eq!(omega, Fr::one().neg());
    let data = FFTData::new(2, omega, omega_inv);
    let mut a = vec![Fr::from_u64(5), Fr::from_u64(3)];
    best_fft(&mut a, omega, 1, &data, false, &mut FftStats::new(), false);
    assert_eq!(a, vec![Fr::from_u64(8), Fr::from_u64(2)]);
}

#[test]
fn fft_matches_the_sum_it_stands_for() {
    for log_n in 0..7u32 {
        let n = 1usize << log_n;
        let (omega, omega_inv) = roots(log_n);
        let data = FFTData::new(n, omega, omega_inv);
        assert_eq!(data.len(), n);
        let input = values(n);

        let mut forward = input.clone();
        best_fft(&mut forward, omega, log_n, &data, false, &mut FftStats::new(), false);
        assert_eq!(forward, naive_dft(&input, &omega));

        let mut backward = input.clone();
        best_fft(&mut backward, omega_inv, log_n, &data, true, &mut FftStats::new(), false);
        assert_eq!(backward, naive_dft(&input, &omega_inv));
    }
}

#[test]
fn fft_forward_then_inverse_recovers_the_input() {
    for log_n in 0..8u32 {
        let n = 1usize << log_n;
        let (omega, omega_inv) = roots(log_n);
        let data = FFTData::new(n, omega, omega_inv);
        let n_inv = inverse_of_length(log_n);
        let input = values(n);
        let mut a = input.clone();
        best_fft(&mut a, omega, log_n, &data, false, &mut FftStats::new(), false);
        best_fft(&mut a, omega_inv, log_n, &data, true, &mut FftStats::new(), false);
        let scaled: Vec<Fr> = a.iter().map(|x| x.mul(&n_inv)).collect();
        assert_eq!(scaled, input);
    }
}

#[test]
fn fft_over_points_matches_the_sum_it_stands_for() {
    let log_n = 2u32;
    let (omega, omega_inv) = roots(log_n);
    let data = FFTData::new(4, omega, omega_inv);
    let g = G1::generator();
    let points = vec![g, g.double(), g.double().add(&g), g.double().double()];
    let mut a = points.clone();
    best_fft(&mut a, omega, log_n, &data, false, &mut FftStats::new(), false);
    for k in 0..4usize {
        let mut acc = G1::identity();
        for (j, p) in points.iter().enumerate() {
            acc = acc.add(&p.mul(&omega.pow((j * k) as u64)));
        }
        assert_eq!(a[k], acc);
    }
}

#[test]
fn g_to_lagrange_is_the_scaled_inverse_transform() {
    let k = 3u32;
    let (_, omega_inv) = roots(k);
    let n_inv = Fr::from_u64(8).invert().unwrap();
    assert_eq!(n_inv, Fr::two_inv().pow(3));
    let g = G1::generator();
    let mut points = Vec::new();
    let mut p = g;
    for _ in 0..8 {
        points.push(p);
        p = p.double().add(&g);
    }
    let mut stats = FftStats::new();
    let lagrange = g_to_lagrange(points.clone(), k, &mut stats, true);
    assert_eq!(stats, FftStats { total_us: 0, calls_total: 1, calls_field: 0, calls_group: 1 });
    assert_eq!(lagrange.len(), 8);
    for i in 0..8usize {
        let mut acc = G1::identity();
        for (j, p) in points.iter().enumerate() {
            acc = acc.add(&p.mul(&omega_inv.pow((i * j) as u64)));
        }
        assert_eq!(lagrange[i], acc.mul(&n_inv));
    }
    // one point: nothing to transform
    assert_eq!(g_to_lagrange(vec![g], 0, &mut stats, false), vec![g]);
    assert_eq!(stats.calls_total, 1);
}

#[test]
fn fft_statistics_count_what_is_recorded() {
    let mut stats = FftStats::new();
    stats.count::<Fr>(true);
    stats.add_time(true, 250);
    stats.count::<G1>(true);
    stats.add_time(true, 50);
    stats.count::<Fr>(false);
    stats.add_time(false, 1000);
    assert_eq!(
        fft_stats(&stats),
        FftStats { total_us: 300, calls_total: 2, calls_field: 1, calls_group: 1 }
    );
    stats.add_time(true, usize::MAX);
    assert_eq!(fft_stats(&stats).total_us, 299);
    assert_eq!(fft_stats(&stats).calls_total, 2);
    reset_fft_stats(&mut stats);
    assert_eq!(
        fft_stats(&stats),
        FftStats { total_us: 0, calls_total: 0, calls_field: 0, calls_group: 0 }
    );
}

#[test]
fn each_transform_is_counted_once_by_the_type_of_its_elements() {
    let (omega, omega_inv) = roots(2);
    let data = FFTData::new(4, omega, omega_inv);
    let mut stats = FftStats::new();
    let mut scalars = values(4);
    best_fft(&mut scalars, omega, 2, &data, false, &mut stats, true);
    assert_eq!(stats, FftStats { total_us: 0, calls_total: 1, calls_field: 1, calls_group: 0 });
    let g = G1::generator();
    let mut points = vec![g, g.double(), g, G1::identity()];
    best_fft(&mut points, omega, 2, &data, false, &mut stats, true);
    assert_eq!(stats, FftStats { total_us: 0, calls_total: 2, calls_field: 1, calls_group: 1 });
    best_fft(&mut scalars, omega_inv, 2, &data, true, &mut stats, false);
    assert_eq!(stats, FftStats { total_us: 0, calls_total: 2, calls_field: 1, calls_group: 1 });
}

#[test]
fn points_come_back_from_the_transform_and_its_inverse() {
    for log_n in 0..5u32 {
        let n = 1usize << log_n;
        let (omega, omega_inv) = roots(log_n);
        let data = FFTData::new(n, omega, omega_inv);
        let g = G1::generator();
        let mut points = Vec::new();
        let mut p = g.double();
        for _ in 0..n {
            points.push(p);
            p = p.double().add(&g);
        }
        let mut a = points.clone();
        let mut stats = FftStats::new();
        best_fft(&mut a, omega, log_n, &data, false, &mut stats, true);
        if n > 1 {
            assert_ne!(a, points);
        }
        best_fft(&mut a, omega_inv, log_n, &data, true, &mut stats, true);
        let n_inv = inverse_of_length(log_n);
        let scaled: Vec<G1> = a.iter().map(|p| p.mul(&n_inv)).collect();
        assert_eq!(scaled, points);
        assert_eq!(stats.calls_group, 2);
        assert_eq!(stats.calls_field, 0);
    }
}
