use rustfft::num_complex::Complex32;
use rustfft::FftPlanner;
use spectral_morph::blend::Weight;
use spectral_morph::morph::{half_width, phase_source, spread_band, PhaseSource, SPREAD_SCALE};
use spectral_morph::processor::Processor;
use spectral_morph::util::lerpable::Lerpable;

const EPSILON: f32 = 1e-16;

#[derive(Clone, Copy)]
struct Gain(f32);

impl Lerpable<f32> for Gain {
    fn lerp(&self, from: f32, to: f32) -> f32 {
        from * (1.0 - self.0) + to * self.0
    }

    fn invlerp(&self, from: f32, to: f32) -> f32 {
        (self.0 - from) / (to - from)
    }
}

fn blend(w: Weight, from: f32, to: f32) -> f32 {
    Gain(w.num as f32 / w.den as f32).lerp(from, to)
}

fn spectrum(window: &[f32]) -> Vec<Complex32> {
    let mut bins: Vec<Complex32> = window.iter().map(|v| Complex32::new(*v, 0.0)).collect();
    FftPlanner::new().plan_fft_forward(window.len()).process(&mut bins);
    let scale = 1.0 / (window.len() as f32).sqrt();
    bins.iter().map(|bin| bin * scale).collect()
}

fn morph(a: &[f32], b: &[f32], k: f32, spread: f32, iterations: i32) -> Vec<f32> {
    assert_eq!(a.len(), b.len());
    let window = a.len();
    let (bins_a, bins_b) = (spectrum(a), spectrum(b));
    let z = half_width((SPREAD_SCALE as f32 * spread).floor() as usize);
    let zero = Complex32::new(0.0, 0.0);
    let mut bins = vec![zero; window];
    for i in 0..window {
        let phase = match phase_source(bins_a[i] == zero, bins_b[i] == zero) {
            PhaseSource::A => bins_a[i].arg(),
            PhaseSource::B => bins_b[i].arg(),
            PhaseSource::Blend => Gain(k).lerp(bins_a[i].arg(), bins_b[i].arg()),
        };
        let (lo, hi) = spread_band(i, z, window);
        let b_mag = bins_b[lo..hi].iter().map(|bin| bin.norm()).sum::<f32>() / (hi - lo) as f32;
        let mut a_mag = bins_a[i].norm();
        if a_mag != 0.0 || b_mag != 0.0 {
            for _ in 0..iterations {
                a_mag = Gain(k).lerp((a_mag + EPSILON).ln(), (b_mag + EPSILON).ln()).exp() - EPSILON;
            }
        }
        bins[i] = Complex32::from_polar(a_mag, phase);
    }
    FftPlanner::new().plan_fft_inverse(window).process(&mut bins);
    let scale = 1.0 / (window as f32).sqrt();
    bins.iter().map(|bin| bin.re * scale).collect()
}

fn sine(t: i64) -> f32 {
    if t < 0 {
        0.0
    } else {
        (2.0 * std::f64::consts::PI * 440.0 * t as f64 / 44100.0).sin() as f32
    }
}

fn chirp(t: i64) -> f32 {
    if t < 0 {
        0.0
    } else {
        (0.0003 * (t * t) as f64).cos() as f32 * 0.5
    }
}

#[test]
fn silence_morphs_to_silence() {
    let zeros = vec![0.0f32; 1024];
    for (k, spread, iterations) in [(0.0, 0.0, 0), (0.7, 1.0, 0), (0.3, 0.5, 5), (1.0, 0.0, 15)] {
        let out = morph(&zeros, &zeros, k, spread, iterations);
        assert_eq!(out.len(), 1024);
        assert!(out.iter().all(|v| *v == 0.0));
    }
}

#[test]
fn weight_zero_without_iterations_gives_back_channel_a() {
    let a: Vec<f32> = (0..1024).map(chirp).collect();
    let b: Vec<f32> = (0..1024).map(sine).collect();
    let out = morph(&a, &b, 0.0, 0.4, 0);
    for i in 0..1024 {
        assert!((out[i] - a[i]).abs() < 1e-4, "sample {}: {} for {}", i, out[i], a[i]);
    }
}

#[test]
fn sine_on_a_with_silent_b_comes_out_delayed() {
    let mut p = Processor::new(0.0f32);
    let fade = vec![Gain(0.0); 128];
    for m in 0..16i64 {
        let mut a: Vec<f32> = (0..128).map(|i| sine(128 * m + i)).collect();
        let b = vec![0.0f32; 128];
        p.process_2x(
            &mut a,
            &b,
            &fade,
            |x: Vec<f32>, y: Vec<f32>| (morph(&x, &y, 0.0, 0.0, 0), morph(&x, &y, 1.0, 0.0, 0)),
            &blend,
        );
        for i in 0..128i64 {
            let want = sine(128 * m - 528 + i);
            assert!((a[i as usize] - want).abs() < 1e-4, "block {} sample {}", m, i);
        }
    }
}

#[test]
fn identical_channels_come_out_as_their_common_signal() {
    let mut p = Processor::with_window(2048, 0.0f32);
    for m in 0..12i64 {
        let mut a: Vec<f32> = (0..256).map(|i| chirp(256 * m + i)).collect();
        let b = a.clone();
        p.process(&mut a, &b, |x: Vec<f32>, y: Vec<f32>| morph(&x, &y, 0.3, 0.7, 0), &blend);
        for i in 0..256i64 {
            let want = chirp(256 * m - 656 + i);
            assert!((a[i as usize] - want).abs() < 1e-3, "block {} sample {}", m, i);
        }
    }
}
