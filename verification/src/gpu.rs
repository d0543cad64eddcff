//! The rules by which a multiplication or a transform is handed to a GPU
//! backend. The backend itself lives outside this library: a handle records
//! what is known of it, the functions here decide what is owed next, and the
//! caller reports what the device did.

use crate::arithmetic::{is_pow2, is_power_of_two};
use crate::curve::{fq_modulus, group_laws, identity, on_curve, qmul, Coordinates, Fq, G1};
use crate::fft::{
    best_fft, elements_valid, is_dft, is_primitive_root, models, with_transform, FFTData, FftStats,
};
use crate::field::{all_wf, fr_modulus, le_value, shl_pow, values_of, Fr};
use crate::msm::{all_points_wf, best_multiexp, cpu_sum, points_of};
use crate::sums::msm;
use vstd::prelude::*;

verus! {

/// Below this many points a multiplication stays on the CPU unless forced.
pub const GPU_MSM_MIN_SIZE: usize = 1024;

/// Below this many values a transform stays on the CPU unless forced.
pub const GPU_NTT_MIN_SIZE: usize = 65536;

/// How an attempt to bring up the backend ended.
#[derive(Clone, Copy, Debug, PartialEq, Eq, Structural)]
pub enum GpuInit {
    /// No backend could be loaded.
    BackendMissing,
    /// A backend was loaded, but no device could be selected.
    DeviceUnavailable,
    /// A device was selected, but the transform's domain could not be set up.
    DomainFailed,
    /// The backend is ready.
    Ready,
}

/// What a caller owes next.
#[derive(Clone, Copy, Debug, PartialEq, Eq, Structural)]
pub enum GpuStep {
    /// There is nothing to compute.
    Done,
    /// The CPU does the work.
    Fallback,
    /// The backend was never brought up: try once, and report how it ended.
    Initialize,
    /// Hand the work to the device, and report what it returned.
    Run,
}

/// What is known of the GPU backend: whether bringing it up was tried and how
/// that ended, for multiplications and for transforms, and how often the device
/// did the work.
#[derive(Clone, Copy, Debug)]
pub struct GpuBackend {
    initialized: bool,
    available: bool,
    msm_calls: usize,
    ntt_initialized: bool,
    ntt_ready: bool,
    ntt_max_size: usize,
    ntt_calls: usize,
}

/// The state of a handle.
pub struct GpuBackendView {
    pub initialized: bool,
    pub available: bool,
    pub msm_calls: nat,
    pub ntt_initialized: bool,
    pub ntt_ready: bool,
    pub ntt_max_size: nat,
    pub ntt_calls: nat,
}

impl View for GpuBackend {
    type V = GpuBackendView;

    closed spec fn view(&self) -> GpuBackendView {
        GpuBackendView {
            initialized: self.initialized,
            available: self.available,
            msm_calls: self.msm_calls as nat,
            ntt_initialized: self.ntt_initialized,
            ntt_ready: self.ntt_ready,
            ntt_max_size: self.ntt_max_size as nat,
            ntt_calls: self.ntt_calls as nat,
        }
    }
}

/// A counter after one more call; it starts over past the largest count.
pub open spec fn counted(calls: nat) -> nat {
    if calls >= usize::MAX {
        0
    } else {
        calls + 1
    }
}

/// What a multiplication of `scalars` scalars and `bases` bases owes next:
/// the CPU where the lengths differ, where the input is small and not forced, or
/// where the backend is known to be unavailable; an attempt to bring the backend
/// up where none was made; else the device.
pub open spec fn msm_step(gpu: GpuBackendView, scalars: nat, bases: nat, force: bool) -> GpuStep {
    if scalars != bases {
        GpuStep::Fallback
    } else if scalars < GPU_MSM_MIN_SIZE && !force {
        GpuStep::Fallback
    } else if !gpu.initialized {
        GpuStep::Initialize
    } else if !gpu.available {
        GpuStep::Fallback
    } else {
        GpuStep::Run
    }
}

/// Whether the backend is ready for a transform of `len` values.
pub open spec fn ntt_domain_ready(gpu: GpuBackendView, len: nat) -> bool {
    gpu.ntt_initialized && gpu.ntt_ready && gpu.ntt_max_size >= len
}

/// What a transform of `len` values owes next: nothing for no values; the CPU
/// for a length that is no power of two, for a small input that is not forced,
/// where the GPU path is not enabled or where the backend is not ready for this
/// length; an attempt to bring the backend up where none was made; else the
/// device.
pub open spec fn ntt_step(gpu: GpuBackendView, len: nat, enabled: bool, force: bool) -> GpuStep {
    if len == 0 {
        GpuStep::Done
    } else if !is_pow2(len) {
        GpuStep::Fallback
    } else if len < GPU_NTT_MIN_SIZE && !force {
        GpuStep::Fallback
    } else if !enabled {
        GpuStep::Fallback
    } else if !gpu.ntt_initialized {
        GpuStep::Initialize
    } else if !ntt_domain_ready(gpu, len) {
        GpuStep::Fallback
    } else {
        GpuStep::Run
    }
}

impl GpuBackend {
    /// A handle of which nothing is known yet.
    pub fn new() -> (r: GpuBackend)
        ensures
            r@ == (GpuBackendView {
                initialized: false,
                available: false,
                msm_calls: 0,
                ntt_initialized: false,
                ntt_ready: false,
                ntt_max_size: 0,
                ntt_calls: 0,
            }),
    {
        GpuBackend {
            initialized: false,
            available: false,
            msm_calls: 0,
            ntt_initialized: false,
            ntt_ready: false,
            ntt_max_size: 0,
            ntt_calls: 0,
        }
    }
}

/// How often the device has done a multiplication.
pub fn gpu_msm_call_count(gpu: &GpuBackend) -> (r: usize)
    ensures
        r == gpu@.msm_calls,
{
    gpu.msm_calls
}

/// Starts the count of multiplications over.
pub fn reset_gpu_msm_call_count(gpu: &mut GpuBackend)
    ensures
        final(gpu)@ == (GpuBackendView { msm_calls: 0, ..old(gpu)@ }),
{
    gpu.msm_calls = 0;
}

/// Records how the one attempt to bring the backend up ended, and returns
/// whether the backend is available. Once an attempt is recorded, a later
/// report changes nothing: a failed attempt is never made good.
pub fn init_gpu(gpu: &mut GpuBackend, outcome: GpuInit) -> (r: bool)
    ensures
        old(gpu)@.initialized ==> final(gpu)@ == old(gpu)@ && r == old(gpu)@.available,
        !old(gpu)@.initialized ==> final(gpu)@ == (GpuBackendView {
            initialized: true,
            available: outcome == GpuInit::Ready,
            ..old(gpu)@
        }) && r == (outcome == GpuInit::Ready),
{
    if gpu.initialized {
        return gpu.available;
    }
    let available = outcome == GpuInit::Ready;
    gpu.initialized = true;
    gpu.available = available;
    available
}

/// Whether the backend is available; `None` before any attempt to bring it up
/// was recorded.
pub fn is_gpu_available(gpu: &GpuBackend) -> (r: Option<bool>)
    ensures
        r == if gpu@.initialized {
            Some(gpu@.available)
        } else {
            None
        },
{
    if !gpu.initialized {
        None
    } else {
        Some(gpu.available)
    }
}

/// What a multiplication owes next.
pub fn gpu_msm_step(gpu: &GpuBackend, scalars: usize, bases: usize, force: bool) -> (r: GpuStep)
    ensures
        r == msm_step(gpu@, scalars as nat, bases as nat, force),
{
    if scalars != bases {
        GpuStep::Fallback
    } else if scalars < GPU_MSM_MIN_SIZE && !force {
        GpuStep::Fallback
    } else if !gpu.initialized {
        GpuStep::Initialize
    } else if !gpu.available {
        GpuStep::Fallback
    } else {
        GpuStep::Run
    }
}

/// The point that the GPU path yields: what the device returned, where the
/// device was owed the work and returned a point.
pub open spec fn gpu_msm_result(
    gpu: GpuBackendView,
    scalars: nat,
    bases: nat,
    force: bool,
    device: Option<G1>,
) -> Option<G1> {
    if msm_step(gpu, scalars, bases, force) == GpuStep::Run {
        device
    } else {
        None
    }
}

/// Takes what the device returned for a multiplication. The result counts,
/// and is counted, only where the device was owed the work; `None` sends the
/// caller to the CPU.
pub fn gpu_msm(
    gpu: &mut GpuBackend,
    scalars: usize,
    bases: usize,
    force: bool,
    device: Option<G1>,
) -> (r: Option<G1>)
    ensures
        r == gpu_msm_result(old(gpu)@, scalars as nat, bases as nat, force, device),
        r is Some ==> final(gpu)@ == (GpuBackendView {
            msm_calls: counted(old(gpu)@.msm_calls),
            ..old(gpu)@
        }),
        r is None ==> final(gpu)@ == old(gpu)@,
{
    match gpu_msm_step(gpu, scalars, bases, force) {
        GpuStep::Run => match device {
            Some(point) => {
                gpu.msm_calls = if gpu.msm_calls == usize::MAX {
                    0
                } else {
                    gpu.msm_calls + 1
                };
                Some(point)
            },
            None => None,
        },
        _ => None,
    }
}

/// The sum of the bases scaled by their coefficients: what the device
/// returned where it was owed the work and returned a point, else the sum
/// computed on the CPU.
pub fn best_multiexp_bn256(
    gpu: &mut GpuBackend,
    coeffs: &[Fr],
    bases: &[G1],
    num_threads: usize,
    force: bool,
    device: Option<G1>,
) -> (res: G1)
    requires
        coeffs.len() == bases.len(),
        coeffs.len() <= u32::MAX,
        num_threads >= 1,
        all_wf(coeffs@),
        all_points_wf(bases@),
    ensures
        match gpu_msm_result(
            old(gpu)@,
            coeffs.len() as nat,
            bases.len() as nat,
            force,
            device,
        ) {
            Some(point) => res == point && final(gpu)@ == (GpuBackendView {
                msm_calls: counted(old(gpu)@.msm_calls),
                ..old(gpu)@
            }),
            None => {
                &&& final(gpu)@ == old(gpu)@
                &&& res.wf()
                &&& res@ == cpu_sum(values_of(coeffs@), points_of(bases@), num_threads as nat)
                &&& group_laws() ==> res@ == msm(
                    values_of(coeffs@),
                    points_of(bases@),
                    coeffs.len() as nat,
                )
            },
        },
{
    match gpu_msm(gpu, coeffs.len(), bases.len(), force, device) {
        Some(result) => result,
        None => best_multiexp(coeffs, bases, num_threads),
    }
}

/// How often the device has done a transform.
pub fn gpu_ntt_call_count(gpu: &GpuBackend) -> (r: usize)
    ensures
        r == gpu@.ntt_calls,
{
    gpu.ntt_calls
}

/// Starts the count of transforms over.
pub fn reset_gpu_ntt_call_count(gpu: &mut GpuBackend)
    ensures
        final(gpu)@ == (GpuBackendView { ntt_calls: 0, ..old(gpu)@ }),
{
    gpu.ntt_calls = 0;
}

/// Records how the one attempt to bring the backend up for transforms of up
/// to `max_size` values ended, and returns whether the backend is ready for that
/// size. Where the GPU path is not enabled nothing is recorded. Once an attempt is
/// recorded, a later report changes nothing.
pub fn ensure_initialized(gpu: &mut GpuBackend, max_size: usize, enabled: bool, outcome: GpuInit)
    -> (r: bool)
    ensures
        !enabled ==> final(gpu)@ == old(gpu)@ && !r,
        enabled && old(gpu)@.ntt_initialized ==> final(gpu)@ == old(gpu)@,
        enabled && !old(gpu)@.ntt_initialized ==> final(gpu)@ == (GpuBackendView {
            ntt_initialized: true,
            ntt_ready: outcome == GpuInit::Ready,
            ntt_max_size: if outcome == GpuInit::Ready {
                max_size as nat
            } else {
                old(gpu)@.ntt_max_size
            },
            ..old(gpu)@
        }),
        enabled ==> r == ntt_domain_ready(final(gpu)@, max_size as nat),
{
    if !enabled {
        return false;
    }
    if !gpu.ntt_initialized {
        gpu.ntt_initialized = true;
        if outcome == GpuInit::Ready {
            gpu.ntt_max_size = max_size;
            gpu.ntt_ready = true;
        } else {
            gpu.ntt_ready = false;
        }
    }
    gpu.ntt_ready && gpu.ntt_max_size >= max_size
}

/// What a transform owes next.
pub fn gpu_ntt_step(gpu: &GpuBackend, len: usize, enabled: bool, force: bool) -> (r: GpuStep)
    ensures
        r == ntt_step(gpu@, len as nat, enabled, force),
{
    if len == 0 {
        GpuStep::Done
    } else if !is_power_of_two(len) {
        GpuStep::Fallback
    } else if len < GPU_NTT_MIN_SIZE && !force {
        GpuStep::Fallback
    } else if !enabled {
        GpuStep::Fallback
    } else if !gpu.ntt_initialized {
        GpuStep::Initialize
    } else if !(gpu.ntt_ready && gpu.ntt_max_size >= len) {
        GpuStep::Fallback
    } else {
        GpuStep::Run
    }
}

/// The device's output replaces the values: the device was owed the work and
/// returned as many values as it was given.
pub open spec fn ntt_accepts(
    gpu: GpuBackendView,
    len: nat,
    enabled: bool,
    force: bool,
    device: Option<Vec<Fr>>,
) -> bool {
    ntt_step(gpu, len, enabled, force) == GpuStep::Run && device is Some && device.unwrap().len()
        == len
}

/// Takes what the device returned for a transform of `values`. Returns `true`
/// where the GPU path is done with them: there were none, or the device was owed
/// the work and its output has replaced them, which is counted. `false` sends the
/// caller to the CPU with the values untouched.
pub fn try_gpu_ntt_inplace(
    gpu: &mut GpuBackend,
    values: &mut Vec<Fr>,
    enabled: bool,
    force: bool,
    device: Option<Vec<Fr>>,
) -> (r: bool)
    ensures
        ({
            let len = old(values).len() as nat;
            let accepted = ntt_accepts(old(gpu)@, len, enabled, force, device);
            &&& r == (len == 0 || accepted)
            &&& accepted ==> final(values)@ == device.unwrap()@
            &&& accepted ==> final(gpu)@ == (GpuBackendView {
                ntt_calls: counted(old(gpu)@.ntt_calls),
                ..old(gpu)@
            })
            &&& !accepted ==> final(values)@ == old(values)@
            &&& !accepted ==> final(gpu)@ == old(gpu)@
        }),
{
    match gpu_ntt_step(gpu, values.len(), enabled, force) {
        GpuStep::Done => true,
        GpuStep::Run => match device {
            Some(output) => {
                if output.len() != values.len() {
                    return false;
                }
                *values = output;
                gpu.ntt_calls = if gpu.ntt_calls == usize::MAX {
                    0
                } else {
                    gpu.ntt_calls + 1
                };
                true
            },
            None => false,
        },
        _ => false,
    }
}

/// The 32 bytes of a slice, if it has as many.
fn array_of(bytes: &[u8]) -> (r: Option<[u8; 32]>)
    ensures
        r is Some <==> bytes.len() == 32,
        r is Some ==> r.unwrap()@ == bytes@,
{
    if bytes.len() != 32 {
        return None;
    }
    let mut out = [0u8;32];
    let mut j: usize = 0;
    while j < 32
        invariant
            j <= 32,
            bytes.len() == 32,
            forall|t: int| 0 <= t < j ==> out@[t] == bytes@[t],
        decreases 32 - j,
    {
        out[j] = bytes[j];
        j += 1;
    }
    assert(out@ =~= bytes@);
    Some(out)
}

/// A scalar as the device takes it: its 32 little-endian bytes.
pub fn fr_to_icicle(fr: &Fr) -> (r: [u8; 32])
    ensures
        r@ == fr.bytes(),
        le_value(r@) == fr@,
{
    fr.to_repr()
}

/// A scalar as the device gives it back: 32 little-endian bytes of a number
/// below the field's order, or no scalar.
pub fn icicle_to_fr(bytes: &[u8]) -> (r: Option<Fr>)
    ensures
        r is Some <==> bytes.len() == 32 && le_value(bytes@) < fr_modulus(),
        r is Some ==> r.unwrap().wf() && r.unwrap().bytes() == bytes@,
{
    match array_of(bytes) {
        Some(repr) => Fr::from_repr(repr),
        None => None,
    }
}

/// A point as the device takes it: the little-endian bytes of its two affine
/// coordinates, both zero for the point at infinity.
pub fn g1_to_icicle(point: &G1) -> (r: ([u8; 32], [u8; 32]))
    ensures
        (r.0@, r.1@) == point.bytes(),
        (le_value(r.0@), le_value(r.1@)) == point@,
{
    point.to_xy()
}

/// The bytes are the encoding of a coordinate: 32 bytes of a number below the
/// base field's order.
pub open spec fn is_coordinate(bytes: Seq<u8>) -> bool {
    bytes.len() == 32 && le_value(bytes) < fq_modulus()
}

/// The affine point of the projective coordinates `(x : y : z)`, with `zinv`
/// the inverse of `z`.
pub open spec fn affine_of(x: nat, y: nat, zinv: nat) -> Coordinates {
    (qmul(x, zinv), qmul(y, zinv))
}

/// A point as the device gives it back: from the little-endian bytes of its
/// projective coordinates `(x : y : z)` the point `(x / z, y / z)`, or the point
/// at infinity where `z` is zero. No point where a coordinate is not encoded
/// canonically or the point is not on the curve.
pub fn icicle_to_g1(x: &[u8], y: &[u8], z: &[u8]) -> (r: Option<G1>)
    ensures
        !(is_coordinate(x@) && is_coordinate(y@) && is_coordinate(z@)) ==> r is None,
        is_coordinate(x@) && is_coordinate(y@) && is_coordinate(z@) && le_value(z@) == 0 ==> r
            is Some && r.unwrap()@ == identity(),
        is_coordinate(x@) && is_coordinate(y@) && is_coordinate(z@) && le_value(z@) != 0
            ==> exists|zinv: nat|
            {
                &&& zinv < fq_modulus()
                &&& #[trigger] qmul(zinv, le_value(z@)) == 1
                &&& r is Some <==> on_curve(affine_of(le_value(x@), le_value(y@), zinv))
                &&& r is Some ==> r.unwrap()@ == affine_of(le_value(x@), le_value(y@), zinv)
            },
        r is Some ==> r.unwrap().wf(),
{
    let x = match array_of(x) {
        Some(b) => b,
        None => {
            return None;
        },
    };
    let y = match array_of(y) {
        Some(b) => b,
        None => {
            return None;
        },
    };
    let z = match array_of(z) {
        Some(b) => b,
        None => {
            return None;
        },
    };
    let x = match Fq::from_repr(x) {
        Some(v) => v,
        None => {
            return None;
        },
    };
    let y = match Fq::from_repr(y) {
        Some(v) => v,
        None => {
            return None;
        },
    };
    let z = match Fq::from_repr(z) {
        Some(v) => v,
        None => {
            return None;
        },
    };
    match z.invert() {
        None => Some(G1::identity()),
        Some(z_inv) => {
            let affine_x = x.mul(&z_inv);
            let affine_y = y.mul(&z_inv);
            let r = G1::from_xy(affine_x.to_repr(), affine_y.to_repr());
            proof {
                let zinv = z_inv@;
                assert(qmul(zinv, z@) == 1);
                assert(affine_of(x@, y@, zinv) == (affine_x@, affine_y@));
            }
            r
        },
    }
}

/// Transforms field elements in place: by the device's output where the
/// device was owed the work and returned as many values as it was given, else on
/// the CPU as `best_fft` does. Either way it is one transform of field elements
/// to the statistics.
pub fn fft(
    gpu: &mut GpuBackend,
    a: &mut Vec<Fr>,
    omega: Fr,
    log_n: u32,
    data: &FFTData,
    inverse: bool,
    enabled: bool,
    force: bool,
    device: Option<Vec<Fr>>,
    stats: &mut FftStats,
    stats_enabled: bool,
)
    requires
        old(a).len() == shl_pow(log_n as nat),
        elements_valid::<Fr>(old(a)@),
        omega.wf(),
        data.size() == old(a).len(),
        data.serves(omega@, inverse),
        is_primitive_root(omega@, old(a).len() as nat),
    ensures
        ({
            let len = old(a).len() as nat;
            let accepted = ntt_accepts(old(gpu)@, len, enabled, force, device);
            &&& final(a).len() == len
            &&& accepted ==> final(a)@ == device.unwrap()@
            &&& accepted ==> final(gpu)@ == (GpuBackendView {
                ntt_calls: counted(old(gpu)@.ntt_calls),
                ..old(gpu)@
            })
            &&& !accepted ==> final(gpu)@ == old(gpu)@
            &&& !accepted ==> elements_valid::<Fr>(final(a)@)
            &&& !accepted ==> is_dft::<Fr>(models::<Fr>(final(a)@), models::<Fr>(old(a)@), omega@)
        }),
        *final(stats) == with_transform::<Fr>(*old(stats), stats_enabled),
{
    proof {
        crate::field::lemma_shl_pow_positive(log_n as nat);
        crate::fft::lemma_fr_module_laws();
    }
    if try_gpu_ntt_inplace(gpu, a, enabled, force, device) {
        stats.count::<Fr>(stats_enabled);
        return;
    }
    best_fft::<Fr>(a, omega, log_n, data, inverse, stats, stats_enabled);
}

} // verus!
