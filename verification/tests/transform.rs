use num::complex::Complex;
use rufft::{bit_reverse, fft_plan, Sample};

const TOL: f64 = 1e-9;

/// Runs one full transform by walking the plan the library computed: the
/// verified bit-reversal permutation, then the butterfly schedule with the
/// twiddle table evaluated to floating point, then (for the inverse
/// direction) the 1/n rescale.
fn run_fft(data: &mut Vec<Complex<f64>>, invert: bool) {
    let plan = match fft_plan(data.len(), invert) {
        Ok(plan) => plan,
        Err(e) => panic!("invalid transform length: {:?}", e),
    };

    let mut samples: Vec<Sample> = data
        .iter()
        .map(|c| Sample { re_bits: c.re.to_bits(), im_bits: c.im.to_bits() })
        .collect();
    bit_reverse(&mut samples);
    for (slot, s) in data.iter_mut().zip(samples.iter()) {
        *slot = Complex::new(f64::from_bits(s.re_bits), f64::from_bits(s.im_bits));
    }

    let twiddles: Vec<Complex<f64>> = plan
        .twiddles
        .iter()
        .map(|t| {
            let sign = if t.invert { 1.0 } else { -1.0 };
            Complex::from_polar(1.0, sign * 2.0 * std::f64::consts::PI * t.k as f64 / t.n as f64)
        })
        .collect();

    for stage in plan.stages.iter() {
        for op in stage.iter() {
            let a = data[op.lo];
            let b = data[op.hi] * twiddles[op.tw];
            data[op.lo] = a + b;
            data[op.hi] = a - b;
        }
    }

    if invert {
        let scale = 1.0 / data.len() as f64;
        for x in data.iter_mut() {
            *x = *x * scale;
        }
    }
}

fn assert_close(got: Complex<f64>, want: Complex<f64>) {
    assert!(
        (got.re - want.re).abs() < TOL && (got.im - want.im).abs() < TOL,
        "got {} want {}",
        got,
        want
    );
}

fn reals(values: &[f64]) -> Vec<Complex<f64>> {
    values.iter().map(|&re| Complex::new(re, 0.0)).collect()
}

#[test]
fn four_point_sine() {
    // The 4-point transform of the sampled sine [0, 1, 0, -1]: with the
    // forward convention e^(-2*pi*i*k*n/4), bin 1 is -2i and bin 3 is 2i.
    let mut data = reals(&[0.0, 1.0, 0.0, -1.0]);
    run_fft(&mut data, false);
    assert_close(data[0], Complex::new(0.0, 0.0));
    assert_close(data[1], Complex::new(0.0, -2.0));
    assert_close(data[2], Complex::new(0.0, 0.0));
    assert_close(data[3], Complex::new(0.0, 2.0));
}

#[test]
fn constant_input_has_only_dc() {
    // Eight ones: everything lands in the DC bin, 8 + 0i, zeros elsewhere.
    let mut data = reals(&[1.0; 8]);
    run_fft(&mut data, false);
    assert_close(data[0], Complex::new(8.0, 0.0));
    for k in 1..8 {
        assert_close(data[k], Complex::new(0.0, 0.0));
    }
}

#[test]
fn step_input_round_trip() {
    let original = reals(&[1.0, 1.0, 1.0, 1.0, 1.0, 0.0, 0.0, 0.0]);
    let mut data = original.clone();
    run_fft(&mut data, false);
    run_fft(&mut data, true);
    for (got, want) in data.iter().zip(original.iter()) {
        assert_close(*got, *want);
    }
}

#[test]
fn round_trip_identity_sixteen() {
    let original: Vec<Complex<f64>> = (0..16)
        .map(|i| Complex::new(0.25 * i as f64 - 1.5, (i * i % 7) as f64 * 0.5))
        .collect();
    let mut data = original.clone();
    run_fft(&mut data, false);
    run_fft(&mut data, true);
    for (got, want) in data.iter().zip(original.iter()) {
        assert_close(*got, *want);
    }
}

#[test]
fn round_trip_identity_short_lengths() {
    for len in [1usize, 2, 4] {
        let original: Vec<Complex<f64>> =
            (0..len).map(|i| Complex::new(i as f64 + 0.5, -(i as f64))).collect();
        let mut data = original.clone();
        run_fft(&mut data, false);
        run_fft(&mut data, true);
        for (got, want) in data.iter().zip(original.iter()) {
            assert_close(*got, *want);
        }
    }
}

#[test]
fn single_element_forward_is_identity() {
    let mut data = vec![Complex::new(3.25, -1.5)];
    run_fft(&mut data, false);
    assert_close(data[0], Complex::new(3.25, -1.5));
    run_fft(&mut data, true);
    assert_close(data[0], Complex::new(3.25, -1.5));
}

#[test]
fn two_point_butterfly() {
    let mut data = vec![Complex::new(2.0, 1.0), Complex::new(-1.0, 3.0)];
    run_fft(&mut data, false);
    assert_close(data[0], Complex::new(1.0, 4.0));
    assert_close(data[1], Complex::new(3.0, -2.0));
}

#[test]
fn twiddle_angles_evaluate_correctly() {
    // For n = 8 the forward entry at k = 1 is the unit complex number at
    // angle -pi/4, and the inverse entry is its conjugate at +pi/4.
    let fwd = fft_plan(8, false).unwrap().twiddles[1];
    let sign = if fwd.invert { 1.0 } else { -1.0 };
    let w = Complex::from_polar(1.0, sign * 2.0 * std::f64::consts::PI * fwd.k as f64 / fwd.n as f64);
    let want = Complex::from_polar(1.0, -std::f64::consts::FRAC_PI_4);
    assert_close(w, want);

    let inv = fft_plan(8, true).unwrap().twiddles[1];
    let sign = if inv.invert { 1.0 } else { -1.0 };
    let w = Complex::from_polar(1.0, sign * 2.0 * std::f64::consts::PI * inv.k as f64 / inv.n as f64);
    let want = Complex::from_polar(1.0, std::f64::consts::FRAC_PI_4);
    assert_close(w, want);
}
