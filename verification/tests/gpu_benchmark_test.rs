use std::time::Instant;

use ff::PrimeField;

use zkml::arithmetic::is_power_of_two;
use zkml::curve::{Fq, G1};
use zkml::fft::{FFTData, FftStats};
use zkml::field::Fr;
use zkml::gpu::{
    best_multiexp_bn256, ensure_initialized, fft, fr_to_icicle, g1_to_icicle, gpu_msm,
    gpu_msm_call_count, gpu_msm_step, icicle_to_fr, icicle_to_g1,
    gpu_ntt_call_count, gpu_ntt_step, init_gpu, is_gpu_available,
    reset_gpu_msm_call_count, reset_gpu_ntt_call_count, try_gpu_ntt_inplace, GpuBackend, GpuInit,
    GpuStep, GPU_MSM_MIN_SIZE, GPU_NTT_MIN_SIZE,
};
use zkml::msm::{best_multiexp, best_multiexp_cpu, small_multiexp};

fn points(n: usize) -> Vec<G1> {
    let mut out = Vec::new();
    let mut p = G1::generator();
    for _ in 0..n {
        out.push(p);
        p = p.double().add(&G1::generator());
    }
    out
}

fn scalars(n: usize) -> Vec<Fr> {
    let mut out = Vec::new();
    let mut s = Fr::from_u64(0x1234_5678_9abc_def1);
    for i in 0..n {
        out.push(s);
        s = s.mul(&s).add(&Fr::from_u64(i as u64 + 3));
    }
    out
}

fn naive(coeffs: &[Fr], bases: &[G1]) -> G1 {
    let mut acc = G1::identity();
    for (c, b) in coeffs.iter().zip(bases.iter()) {
        acc = acc.add(&b.mul(c));
    }
    acc
}

#[test]
fn test_cpu_baseline() {
    println!("\n=== CPU Baseline Test ===\n");
    for n in [0usize, 1, 3, 4, 5, 31, 32, 40] {
        let coeffs = scalars(n);
        let bases = points(n);
        let expected = naive(&coeffs, &bases);
        assert_eq!(best_multiexp(&coeffs, &bases, 1), expected);
        assert_eq!(best_multiexp_cpu(&coeffs, &bases, 3), expected);
        assert_eq!(small_multiexp(&coeffs, &bases), expected);
    }
    // bases past the last coefficient are left out
    let coeffs = scalars(3);
    let bases = points(5);
    assert_eq!(small_multiexp(&coeffs, &bases), naive(&coeffs, &bases[..3]));
    println!("CPU baseline test passed");
}

fn roots(log_n: u32) -> (Fr, Fr) {
    let mut omega = Fr::root_of_unity();
    let mut omega_inv = Fr::root_of_unity_inv();
    for _ in log_n..28 {
        omega = omega.square();
        omega_inv = omega_inv.square();
    }
    (omega, omega_inv)
}

fn ready_backend(max_size: usize) -> GpuBackend {
    let mut gpu = GpuBackend::new();
    assert!(init_gpu(&mut gpu, GpuInit::Ready));
    assert!(ensure_initialized(&mut gpu, max_size, true, GpuInit::Ready));
    gpu
}

#[test]
fn test_gpu_ntt_vs_cpu_fft_benchmark() {
    println!("\n=== GPU NTT vs CPU FFT Benchmark ===\n");

    let log_n: u32 = 16;
    let n: usize = 1 << log_n;

    let (omega, omega_inv) = roots(log_n);
    let fft_data = FFTData::new(n, omega, omega_inv);

    let input: Vec<Fr> = scalars(n);

    // CPU FFT baseline (GPU path off)
    let mut backend = ready_backend(n);
    let mut cpu = input.clone();
    let t0 = Instant::now();
    let mut stats = FftStats::new();
    fft(
        &mut backend,
        &mut cpu,
        omega,
        log_n,
        &fft_data,
        false,
        false,
        false,
        None,
        &mut stats,
        true,
    );
    let cpu_time = t0.elapsed();
    assert_eq!(gpu_ntt_call_count(&backend), 0);

    // GPU NTT (opt-in), with the curve library's transform standing in for the device
    reset_gpu_ntt_call_count(&mut backend);
    let to_device = |x: &Fr| halo2curves::bn256::Fr::from_repr(fr_to_icicle(x)).unwrap();
    let mut on_device: Vec<halo2curves::bn256::Fr> = input.iter().map(to_device).collect();
    halo2curves::fft::best_fft(&mut on_device, to_device(&omega), log_n);
    let device_output: Vec<Fr> =
        on_device.iter().map(|x| icicle_to_fr(&x.to_repr()).unwrap()).collect();

    let mut gpu = input.clone();
    let t1 = Instant::now();
    assert_eq!(gpu_ntt_step(&backend, n, true, true), GpuStep::Run);
    fft(
        &mut backend,
        &mut gpu,
        omega,
        log_n,
        &fft_data,
        false,
        true,
        true,
        Some(device_output),
        &mut stats,
        true,
    );
    let gpu_time = t1.elapsed();
    assert_eq!(stats, FftStats { total_us: 0, calls_total: 2, calls_field: 2, calls_group: 0 });

    assert_eq!(cpu, gpu, "GPU NTT output must match CPU FFT output");

    println!("Size: 2^{} = {}", log_n, n);
    println!("CPU FFT time: {:?}", cpu_time);
    println!("GPU NTT time: {:?}", gpu_time);
    println!("GPU NTT calls (successful): {}", gpu_ntt_call_count(&backend));
    assert_eq!(gpu_ntt_call_count(&backend), 1);
}

#[test]
fn gpu_initialization_is_recorded_once() {
    let mut gpu = GpuBackend::new();
    assert_eq!(is_gpu_available(&gpu), None);
    assert!(!init_gpu(&mut gpu, GpuInit::BackendMissing));
    assert_eq!(is_gpu_available(&gpu), Some(false));
    // a failed attempt is never made good
    assert!(!init_gpu(&mut gpu, GpuInit::Ready));
    assert_eq!(is_gpu_available(&gpu), Some(false));

    let mut gpu = GpuBackend::new();
    assert!(!init_gpu(&mut gpu, GpuInit::DeviceUnavailable));
    let mut gpu = GpuBackend::new();
    assert!(init_gpu(&mut gpu, GpuInit::Ready));
    assert!(init_gpu(&mut gpu, GpuInit::BackendMissing));
    assert_eq!(is_gpu_available(&gpu), Some(true));
}

#[test]
fn gpu_msm_is_used_at_and_above_the_threshold() {
    assert_eq!(GPU_MSM_MIN_SIZE, 1024);
    let fresh = GpuBackend::new();
    let ready = ready_backend(0);
    let mut missing = GpuBackend::new();
    init_gpu(&mut missing, GpuInit::BackendMissing);

    // lengths that differ, and small inputs that are not forced, stay on the CPU
    assert_eq!(gpu_msm_step(&ready, 2000, 1999, true), GpuStep::Fallback);
    assert_eq!(gpu_msm_step(&ready, 1023, 1023, false), GpuStep::Fallback);
    assert_eq!(gpu_msm_step(&fresh, 1023, 1023, false), GpuStep::Fallback);
    // at the threshold, or forced
    assert_eq!(gpu_msm_step(&ready, 1024, 1024, false), GpuStep::Run);
    assert_eq!(gpu_msm_step(&ready, 3, 3, true), GpuStep::Run);
    assert_eq!(gpu_msm_step(&fresh, 1024, 1024, false), GpuStep::Initialize);
    assert_eq!(gpu_msm_step(&fresh, 3, 3, true), GpuStep::Initialize);
    assert_eq!(gpu_msm_step(&missing, 1024, 1024, false), GpuStep::Fallback);
    assert_eq!(gpu_msm_step(&missing, 3, 3, true), GpuStep::Fallback);
}

#[test]
fn gpu_msm_counts_what_the_device_did() {
    let point = G1::generator().double();
    let mut gpu = ready_backend(0);
    assert_eq!(gpu_msm_call_count(&gpu), 0);
    assert_eq!(gpu_msm(&mut gpu, 4, 4, true, Some(point)), Some(point));
    assert_eq!(gpu_msm(&mut gpu, 4, 4, true, Some(point)), Some(point));
    assert_eq!(gpu_msm_call_count(&gpu), 2);
    // the device failed
    assert_eq!(gpu_msm(&mut gpu, 4, 4, true, None), None);
    // the device was not owed the work
    assert_eq!(gpu_msm(&mut gpu, 4, 4, false, Some(point)), None);
    assert_eq!(gpu_msm(&mut gpu, 4, 5, true, Some(point)), None);
    assert_eq!(gpu_msm_call_count(&gpu), 2);
    reset_gpu_msm_call_count(&mut gpu);
    assert_eq!(gpu_msm_call_count(&gpu), 0);
    let mut fresh = GpuBackend::new();
    assert_eq!(gpu_msm(&mut fresh, 4, 4, true, Some(point)), None);
    assert_eq!(gpu_msm_call_count(&fresh), 0);
}

#[test]
fn best_multiexp_falls_back_to_the_cpu() {
    let coeffs = scalars(6);
    let bases = points(6);
    let expected = naive(&coeffs, &bases);
    let device_point = G1::generator();

    // no backend: the CPU, whatever the device is said to have returned
    let mut gpu = GpuBackend::new();
    init_gpu(&mut gpu, GpuInit::DeviceUnavailable);
    let r = best_multiexp_bn256(&mut gpu, &coeffs, &bases, 2, true, Some(device_point));
    assert_eq!(r, expected);
    // a backend, but the input is small and not forced
    let mut gpu = ready_backend(0);
    let r = best_multiexp_bn256(&mut gpu, &coeffs, &bases, 2, false, Some(device_point));
    assert_eq!(r, expected);
    // the device failed
    let r = best_multiexp_bn256(&mut gpu, &coeffs, &bases, 2, true, None);
    assert_eq!(r, expected);
    assert_eq!(gpu_msm_call_count(&gpu), 0);
    // the device did the work; where it is right, both paths agree
    let r = best_multiexp_bn256(&mut gpu, &coeffs, &bases, 2, true, Some(expected));
    assert_eq!(r, expected);
    assert_eq!(gpu_msm_call_count(&gpu), 1);
}

#[test]
fn gpu_ntt_is_opt_in_and_needs_its_domain() {
    assert_eq!(GPU_NTT_MIN_SIZE, 1 << 16);
    let fresh = GpuBackend::new();
    assert_eq!(gpu_ntt_step(&fresh, 0, true, true), GpuStep::Done);
    assert_eq!(gpu_ntt_step(&fresh, 12, true, true), GpuStep::Fallback);
    assert_eq!(gpu_ntt_step(&fresh, 1 << 15, true, false), GpuStep::Fallback);
    assert_eq!(gpu_ntt_step(&fresh, 1 << 16, false, false), GpuStep::Fallback);
    assert_eq!(gpu_ntt_step(&fresh, 1 << 16, true, false), GpuStep::Initialize);
    assert_eq!(gpu_ntt_step(&fresh, 8, true, true), GpuStep::Initialize);

    // the domain is set up once, for the size first asked for
    let mut gpu = GpuBackend::new();
    assert!(!ensure_initialized(&mut gpu, 8, false, GpuInit::Ready));
    assert_eq!(gpu_ntt_step(&gpu, 8, true, true), GpuStep::Initialize);
    assert!(ensure_initialized(&mut gpu, 8, true, GpuInit::Ready));
    assert!(ensure_initialized(&mut gpu, 4, true, GpuInit::DomainFailed));
    assert!(!ensure_initialized(&mut gpu, 16, true, GpuInit::Ready));
    assert_eq!(gpu_ntt_step(&gpu, 8, true, true), GpuStep::Run);
    assert_eq!(gpu_ntt_step(&gpu, 16, true, true), GpuStep::Fallback);

    let mut failed = GpuBackend::new();
    assert!(!ensure_initialized(&mut failed, 8, true, GpuInit::DomainFailed));
    assert!(!ensure_initialized(&mut failed, 8, true, GpuInit::Ready));
    assert_eq!(gpu_ntt_step(&failed, 8, true, true), GpuStep::Fallback);

    assert!(is_power_of_two(1));
    assert!(is_power_of_two(1 << 20));
    assert!(!is_power_of_two(0));
    assert!(!is_power_of_two(12));
}

#[test]
fn gpu_ntt_replaces_the_values_only_by_a_whole_answer() {
    let mut gpu = ready_backend(8);
    let input = scalars(8);
    let answer = scalars(9)[1..].to_vec();

    let mut values = input.clone();
    assert!(try_gpu_ntt_inplace(&mut gpu, &mut values, true, true, Some(answer.clone())));
    assert_eq!(values, answer);
    assert_eq!(gpu_ntt_call_count(&gpu), 1);

    // an answer of another length, no answer, or a path that is switched off
    let attempts: Vec<(bool, Option<Vec<Fr>>)> =
        vec![(true, Some(scalars(7))), (true, None), (false, Some(answer.clone()))];
    for (enabled, device) in attempts {
        let mut values = input.clone();
        assert!(!try_gpu_ntt_inplace(&mut gpu, &mut values, enabled, true, device));
        assert_eq!(values, input);
    }
    assert_eq!(gpu_ntt_call_count(&gpu), 1);

    // nothing to transform
    let mut none: Vec<Fr> = vec![];
    assert!(try_gpu_ntt_inplace(&mut gpu, &mut none, false, false, None));
    assert_eq!(gpu_ntt_call_count(&gpu), 1);
}

#[test]
fn scalars_cross_to_the_device_as_bytes() {
    let x = Fr::from_u64(0x0102);
    let bytes = fr_to_icicle(&x);
    assert_eq!(bytes[0..3], [2, 1, 0]);
    assert_eq!(icicle_to_fr(&bytes), Some(x));
    assert_eq!(icicle_to_fr(&bytes[..31]), None);
    assert_eq!(icicle_to_fr(&[0xff; 32]), None);
    assert_eq!(icicle_to_fr(&[0u8; 33]), None);
}

#[test]
fn points_cross_to_the_device_and_back() {
    let g = G1::generator();
    let three_g = g.double().add(&g);
    let (x, y) = g1_to_icicle(&three_g);
    assert_eq!((x, y), three_g.to_xy());
    assert_eq!(g1_to_icicle(&G1::identity()), ([0u8; 32], [0u8; 32]));

    let mut one = [0u8; 32];
    one[0] = 1;
    // z = 1: the point itself
    assert_eq!(icicle_to_g1(&x, &y, &one), Some(three_g));
    // (x : y : z) scaled by 5 is the same point
    let five = Fq::from_repr({
        let mut b = [0u8; 32];
        b[0] = 5;
        b
    })
    .unwrap();
    let sx = Fq::from_repr(x).unwrap().mul(&five).to_repr();
    let sy = Fq::from_repr(y).unwrap().mul(&five).to_repr();
    assert_eq!(icicle_to_g1(&sx, &sy, &five.to_repr()), Some(three_g));
    // z = 0: the point at infinity
    assert_eq!(icicle_to_g1(&[0u8; 32], &one, &[0u8; 32]), Some(G1::identity()));
    // not on the curve, not canonical, not 32 bytes
    assert_eq!(icicle_to_g1(&one, &one, &one), None);
    assert_eq!(icicle_to_g1(&[0xff; 32], &y, &one), None);
    assert_eq!(icicle_to_g1(&x, &y, &[0xff; 32]), None);
    assert_eq!(icicle_to_g1(&x[..31], &y, &one), None);
}

#[test]
fn base_field_arithmetic_is_modular() {
    let small = |v: u8| {
        let mut b = [0u8; 32];
        b[0] = v;
        Fq::from_repr(b).unwrap()
    };
    assert_eq!(small(6).mul(&small(7)).to_repr(), small(42).to_repr());
    let inv = small(2).invert().unwrap();
    assert_eq!(inv.mul(&small(2)).to_repr(), small(1).to_repr());
    assert!(small(0).invert().is_none());
    assert!(Fq::from_repr([0xff; 32]).is_none());
}
