use rustfft::num_complex::Complex;
use rustfft::FftPlanner;
use wasm_audio::dft::{dft, idft};
use wasm_audio::engine::{
    cooley_tukey_fft,
    fft_forward,
    fft_inverse,
    fft_simd,
    fft_with_strategy,
    simd_cooley_tukey_fft3,
    try_fft,
    ComplexLanes,
    FftError,
};
use wasm_audio::schedule::Strategy;

#[derive(Clone, Copy, Debug, PartialEq)]
struct C64 {
    re: f64,
    im: f64,
}

impl C64 {
    fn new(re: f64, im: f64) -> Self {
        C64 { re, im }
    }

    fn minus(self, o: Self) -> Self {
        C64::new(self.re - o.re, self.im - o.im)
    }

    fn norm_sqr(self) -> f64 {
        self.re * self.re + self.im * self.im
    }

    fn dist(self, o: Self) -> f64 {
        self.minus(o).norm_sqr().sqrt()
    }
}

impl ComplexLanes for C64 {
    fn spec_zero() -> Self {
        C64::zero()
    }

    fn spec_one() -> Self {
        C64::one()
    }

    fn spec_twiddle(k: usize, m: usize, inverse: bool) -> Self {
        C64::twiddle(k, m, inverse)
    }

    fn spec_plus(a: Self, b: Self) -> Self {
        a.plus(b)
    }

    fn spec_minus(a: Self, b: Self) -> Self {
        a.minus(b)
    }

    fn spec_times(a: Self, b: Self) -> Self {
        a.times(b)
    }

    fn spec_divide(a: Self, n: usize) -> Self {
        a.divide(n)
    }

    fn zero() -> Self {
        C64::new(0.0, 0.0)
    }

    fn one() -> Self {
        C64::new(1.0, 0.0)
    }

    fn twiddle(k: usize, m: usize, inverse: bool) -> Self {
        let sign = if inverse { 1.0 } else { -1.0 };
        let theta = sign * 2.0 * std::f64::consts::PI * (k as f64) / (m as f64);
        C64::new(theta.cos(), theta.sin())
    }

    fn plus(self, o: Self) -> Self {
        C64::new(self.re + o.re, self.im + o.im)
    }

    fn times(self, o: Self) -> Self {
        C64::new(self.re * o.re - self.im * o.im, self.re * o.im + self.im * o.re)
    }

    fn divide(self, n: usize) -> Self {
        C64::new(self.re / n as f64, self.im / n as f64)
    }

    fn butterfly_step(u: Self, t: Self, w: Self, wm: Self) -> (Self, Self, Self) {
        let wt = w.times(t);
        (u.plus(wt), u.minus(wt), w.times(wm))
    }

    fn butterfly4(u: [Self; 4], t: [Self; 4], w: [Self; 4]) -> ([Self; 4], [Self; 4]) {
        let mut hi = [C64::zero(); 4];
        let mut lo = [C64::zero(); 4];
        for l in 0..4 {
            let wt = w[l].times(t[l]);
            hi[l] = u[l].plus(wt);
            lo[l] = u[l].minus(wt);
        }
        (hi, lo)
    }
}

/// Deterministic samples in [-1, 1).
fn samples(n: usize, seed: u64) -> Vec<C64> {
    let mut state = seed.wrapping_mul(6364136223846793005).wrapping_add(1442695040888963407);
    let mut next = || {
        state = state.wrapping_mul(6364136223846793005).wrapping_add(1442695040888963407);
        ((state >> 11) as f64 / (1u64 << 53) as f64) * 2.0 - 1.0
    };
    (0..n).map(|_| C64::new(next(), next())).collect()
}

fn max_dist(a: &[C64], b: &[C64]) -> f64 {
    a.iter().zip(b).map(|(x, y)| x.dist(*y)).fold(0.0, f64::max)
}

fn transform(x: &[C64], strategy: Strategy) -> Vec<C64> {
    let mut out = vec![C64::zero(); x.len()];
    fft_with_strategy(x, &mut out, strategy, false);
    out
}

#[test]
fn fft_matches_direct_dft() {
    let mut n = 1;
    while n <= 256 {
        let x = samples(n, n as u64);
        let mut expected = vec![C64::zero(); n];
        dft(&x, &mut expected);
        for strategy in [Strategy::Scalar, Strategy::CrossBlock, Strategy::CrossIndex] {
            let got = transform(&x, strategy);
            for (g, e) in got.iter().zip(&expected) {
                assert!(g.dist(*e) <= 1e-4 * e.norm_sqr().sqrt().max(1.0));
            }
        }
        n *= 2;
    }
}

#[test]
fn fft_matches_rustfft() {
    let n = 128;
    let x = samples(n, 7);
    let mut buffer: Vec<Complex<f64>> = x.iter().map(|c| Complex::new(c.re, c.im)).collect();
    let mut planner = FftPlanner::new();
    planner.plan_fft_forward(n).process(&mut buffer);
    let expected: Vec<C64> = buffer.iter().map(|c| C64::new(c.re, c.im)).collect();
    let mut got = vec![C64::zero(); n];
    cooley_tukey_fft(&x, &mut got);
    assert!(max_dist(&got, &expected) < 1e-9);
}

#[test]
fn inverse_undoes_forward() {
    for &n in &[1usize, 2, 8, 64, 512] {
        let x = samples(n, 3);
        for strategy in [Strategy::Scalar, Strategy::CrossBlock, Strategy::CrossIndex] {
            let mut buf = x.clone();
            fft_forward(&mut buf, strategy);
            fft_inverse(&mut buf, strategy);
            assert!(max_dist(&buf, &x) < 1e-9);
        }
    }
}

#[test]
fn direct_inverse_undoes_direct_forward() {
    for &n in &[1usize, 3, 6, 10] {
        let x = samples(n, 11);
        let mut y = vec![C64::zero(); n];
        let mut z = vec![C64::zero(); n];
        dft(&x, &mut y);
        idft(&y, &mut z);
        assert!(max_dist(&z, &x) < 1e-9);
    }
}

#[test]
fn parseval_energy_is_kept() {
    for &n in &[2usize, 16, 128] {
        let x = samples(n, 5);
        let spectrum = transform(&x, Strategy::Scalar);
        let time: f64 = x.iter().map(|c| c.norm_sqr()).sum();
        let freq: f64 = spectrum.iter().map(|c| c.norm_sqr()).sum::<f64>() / n as f64;
        assert!((time - freq).abs() <= 1e-9 * time.max(1.0));
    }
}

#[test]
fn impulse_gives_flat_spectrum() {
    let n = 32;
    let mut x = vec![C64::zero(); n];
    x[0] = C64::one();
    for strategy in [Strategy::Scalar, Strategy::CrossBlock, Strategy::CrossIndex] {
        let spectrum = transform(&x, strategy);
        for c in spectrum {
            assert!((c.norm_sqr().sqrt() - 1.0).abs() < 1e-12);
        }
    }
}

#[test]
fn constant_gives_energy_in_bin_zero() {
    let n = 64;
    let c = C64::new(0.75, -0.25);
    let x = vec![c; n];
    let spectrum = transform(&x, Strategy::CrossIndex);
    assert!(spectrum[0].dist(C64::new(0.75 * n as f64, -0.25 * n as f64)) < 1e-9);
    for bin in &spectrum[1..] {
        assert!(bin.norm_sqr().sqrt() < 1e-9);
    }
}

#[test]
fn vector_kernels_match_scalar_engine() {
    for &n in &[8usize, 16, 64, 1024] {
        let x = samples(n, 13);
        let scalar = transform(&x, Strategy::Scalar);
        assert!(max_dist(&transform(&x, Strategy::CrossBlock), &scalar) < 1e-5);
        assert!(max_dist(&transform(&x, Strategy::CrossIndex), &scalar) < 1e-5);
    }
}

#[test]
fn named_entry_points_agree() {
    let x = samples(64, 17);
    let mut a = vec![C64::zero(); 64];
    let mut b = vec![C64::zero(); 64];
    let mut c = vec![C64::zero(); 64];
    cooley_tukey_fft(&x, &mut a);
    fft_simd(&x, &mut b);
    simd_cooley_tukey_fft3(&x, &mut c);
    assert!(max_dist(&a, &b) < 1e-9);
    assert!(max_dist(&a, &c) < 1e-9);
}

#[test]
fn two_point_transform() {
    let x = vec![C64::new(1.0, 0.0), C64::new(2.0, 0.0)];
    let y = transform(&x, Strategy::Scalar);
    assert!(y[0].dist(C64::new(3.0, 0.0)) < 1e-12);
    assert!(y[1].dist(C64::new(-1.0, 0.0)) < 1e-12);
}

#[test]
fn one_point_transform_is_identity() {
    let x = vec![C64::new(0.5, -2.0)];
    let mut y = vec![C64::zero()];
    cooley_tukey_fft(&x, &mut y);
    assert_eq!(y, x);
}

#[test]
fn mismatched_lengths_are_refused_untouched() {
    let x = samples(8, 1);
    let mut out = vec![C64::new(9.0, 9.0); 4];
    assert_eq!(try_fft(&x, &mut out, Strategy::Scalar, false), Err(FftError::LengthMismatch));
    assert!(out.iter().all(|c| *c == C64::new(9.0, 9.0)));
}

#[test]
fn non_power_of_two_is_refused_untouched() {
    let x = samples(6, 1);
    let mut out = vec![C64::new(9.0, 9.0); 6];
    assert_eq!(try_fft(&x, &mut out, Strategy::CrossBlock, false), Err(FftError::NotPowerOfTwo));
    assert!(out.iter().all(|c| *c == C64::new(9.0, 9.0)));
    let empty: Vec<C64> = Vec::new();
    let mut none: Vec<C64> = Vec::new();
    assert_eq!(try_fft(&empty, &mut none, Strategy::Scalar, false), Err(FftError::NotPowerOfTwo));
}

#[test]
fn checked_transform_runs_on_valid_input() {
    let x = samples(16, 2);
    let mut out = vec![C64::zero(); 16];
    assert_eq!(try_fft(&x, &mut out, Strategy::CrossIndex, false), Ok(()));
    assert!(max_dist(&out, &transform(&x, Strategy::Scalar)) < 1e-9);
}

#[test]
fn vector_kernels_equal_scalar_engine_exactly() {
    for &n in &[8usize, 16, 64, 1024] {
        let x = samples(n, 19);
        let scalar = transform(&x, Strategy::Scalar);
        assert_eq!(transform(&x, Strategy::CrossBlock), scalar);
        assert_eq!(transform(&x, Strategy::CrossIndex), scalar);
    }
}

#[test]
fn transform_ignores_old_output_contents() {
    let x = samples(16, 23);
    let mut a = vec![C64::zero(); 16];
    let mut b = vec![C64::new(5.0, -7.0); 16];
    cooley_tukey_fft(&x, &mut a);
    cooley_tukey_fft(&x, &mut b);
    assert_eq!(a, b);
}
