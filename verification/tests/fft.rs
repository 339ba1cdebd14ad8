use dsp_lib::complex_numbers::ComplexNumber;
use dsp_lib::descrete_signal::DescreteSignal;
use dsp_lib::fft::{fft, FftParams};
use dsp_lib::rational::Rational;
use dsp_lib::DspError;

fn q(n: i64, d: i64) -> Rational {
    Rational::new(n, d)
}

const TWIDDLE_DEN: i64 = 1048576;

fn approx(x: f64) -> Rational {
    Rational::new((x * TWIDDLE_DEN as f64).round() as i64, TWIDDLE_DEN)
}

fn twiddles_for(n: usize) -> Vec<ComplexNumber> {
    let mut w: Vec<ComplexNumber> = Vec::new();
    let two_pi_by_n = 2.0 * std::f64::consts::PI / n as f64;
    for k in 0..n {
        let angle = two_pi_by_n * k as f64;
        w.push(ComplexNumber::new(approx(angle.cos()), approx(-angle.sin())));
    }
    w
}

fn create_fft_from_vector(data: &[Rational], sampling_period: Rational) -> (DescreteSignal, FftParams) {
    let mut samples: Vec<(Rational, Rational)> = Vec::new();
    let mut stamp = Rational::zero();
    for d in data.iter() {
        samples.push((stamp, *d));
        stamp = stamp.checked_add(&sampling_period).unwrap();
    }
    let signal = DescreteSignal::new_from_vec(samples);
    let twiddles = twiddles_for(data.len());
    let fourier = FftParams::new(&signal, &twiddles).unwrap();
    (signal, fourier)
}

#[test]
fn selftest_for_create_fft_from_vector() {
    let data = vec![q(346, 100), q(432, 100), q(32, 100), q(-1221423, 100)];
    let period = q(32, 100);
    let expected_signal = DescreteSignal::new_from_vec(vec![
        (q(0, 1), q(346, 100)),
        (q(32, 100), q(432, 100)),
        (q(64, 100), q(32, 100)),
        (q(96, 100), q(-1221423, 100)),
    ]);
    let expected_fourier = FftParams::new(&expected_signal, &twiddles_for(4)).unwrap();
    let (sig, fourier) = create_fft_from_vector(&data, period);
    assert_eq!(sig.get_data(), expected_signal.get_data());
    assert_eq!(fourier.n(), expected_fourier.n());
    assert_eq!(fourier.snk(), expected_fourier.snk());
}

#[test]
fn frequency_resolution_shall_be_equal_to_sampling_rate_divided_by_number_of_samples() {
    let signal = DescreteSignal::new_from_vec(vec![
        (q(1, 10), q(5, 1)),
        (q(2, 10), q(4, 1)),
        (q(3, 10), q(3, 1)),
        (q(4, 10), q(2, 1)),
    ]);
    let fft_object = FftParams::new(&signal, &twiddles_for(4)).unwrap();
    // 1 / (0.1 * 4)
    let expected_resolution = q(1, 1)
        .checked_div(&q(1, 10).checked_mul(&q(4, 1)).unwrap())
        .unwrap();
    assert_eq!(fft_object.resolution(), expected_resolution);
}

#[test]
fn constructor_shall_generate_vectors_of_specific_length() {
    let signal = DescreteSignal::new_from_vec(vec![
        (q(1, 1), q(5, 1)),
        (q(2, 1), q(4, 1)),
        (q(3, 1), q(3, 1)),
        (q(4, 1), q(2, 1)),
        (q(5, 1), q(1, 1)),
    ]);
    let fft_object = FftParams::new(&signal, &twiddles_for(5)).unwrap();
    assert_eq!(fft_object.n(), signal.len());
    assert_eq!(fft_object.snk().len(), signal.len());
    assert_eq!(fft_object.snk()[0].len(), signal.len());
}

#[test]
fn constructor_shall_generate_snk_coefficients() {
    let data = [q(10, 1), q(105, 10), q(11, 1)];
    let (_, fft_object) = create_fft_from_vector(&data, q(1, 1));
    let w = twiddles_for(3);
    let mut expected_snk: Vec<Vec<ComplexNumber>> = Vec::new();
    for i in 0..3 {
        let mut row: Vec<ComplexNumber> = Vec::new();
        for d in data.iter() {
            row.push(w[i].checked_scale(d).unwrap());
        }
        expected_snk.push(row);
    }
    assert_eq!(fft_object.snk(), &expected_snk);
}

#[test]
fn check_fft_result() {
    let values: [i64; 8] = [2, 1, 0, 1, 2, 1, 0, 1];
    let mut samples: Vec<(Rational, Rational)> = Vec::new();
    for (k, v) in values.iter().enumerate() {
        samples.push((q(k as i64, 1000), q(*v, 1)));
    }
    let signal = DescreteSignal::new_from_vec(samples);
    let mut calculated_fft = DescreteSignal::new();
    fft(&signal, &twiddles_for(8), &mut calculated_fft).unwrap();

    let data = calculated_fft.get_data();
    assert_eq!(data.len(), 4);
    // Frequencies 0, 125, 250, 375 Hz, exactly.
    assert_eq!(data[0].0, q(0, 1));
    assert_eq!(data[1].0, q(125, 1));
    assert_eq!(data[2].0, q(250, 1));
    assert_eq!(data[3].0, q(375, 1));
    // Magnitudes 1, ~0, 1, ~0.  Bins 0 and 2 only touch the twiddles
    // 1, -1 and 0, which the rational table holds exactly.
    let tolerance = q(1, 10000);
    assert_eq!(data[0].1, q(1, 1));
    assert!(data[1].1.lt(&tolerance));
    assert_eq!(data[2].1, q(1, 1));
    assert!(data[3].1.lt(&tolerance));
}

#[test]
fn fft_of_a_short_signal_is_reported() {
    let signal = DescreteSignal::new_from_vec(vec![(q(0, 1), q(1, 1))]);
    let mut spectrum = DescreteSignal::new();
    assert_eq!(
        fft(&signal, &twiddles_for(1), &mut spectrum).unwrap_err(),
        DspError::EmptySignal
    );
    let empty = DescreteSignal::new();
    assert_eq!(
        fft(&empty, &Vec::new(), &mut spectrum).unwrap_err(),
        DspError::EmptySignal
    );
}

#[test]
fn dc_bin_of_a_constant_signal_is_the_constant() {
    let c = q(7, 2);
    let mut samples: Vec<(Rational, Rational)> = Vec::new();
    for k in 0..6i64 {
        samples.push((q(k, 100), c));
    }
    let signal = DescreteSignal::new_from_vec(samples);
    let mut spectrum = DescreteSignal::new();
    fft(&signal, &twiddles_for(6), &mut spectrum).unwrap();
    assert_eq!(spectrum.get_data()[0].1, c);
}
