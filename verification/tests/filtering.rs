use dsp_lib::descrete_signal::DescreteSignal;
use dsp_lib::filtering::{boxcar_coefficients, fir_filter};
use dsp_lib::rational::Rational;
use dsp_lib::DspError;

fn q(n: i64, d: i64) -> Rational {
    Rational::new(n, d)
}

#[test]
fn fir_filter_shall_copy_timestamps_to_output() {
    let timestamps = [q(1, 1), q(32, 10), q(44, 10), q(652, 10), q(994, 10), q(2321314, 100)];
    let mut signal = DescreteSignal::new();
    for t in timestamps {
        signal.try_push(t, t).unwrap();
    }
    let fir = vec![q(1, 1)];
    let mut output = DescreteSignal::new();

    fir_filter(&signal, &fir, &mut output).unwrap();
    let data = output.get_data();
    assert_eq!(data.len(), timestamps.len());
    for (i, &(t, _)) in data.iter().enumerate() {
        assert_eq!(t, timestamps[i]);
    }
}

#[test]
fn fir_filter_shall_return_data_of_correct_length() {
    let sig_len: i64 = 1154;
    let fir_len = 32;
    let mut data: Vec<(Rational, Rational)> = Vec::new();
    for k in 0..sig_len {
        data.push((q(k, 1), q(0, 1)));
    }
    let signal = DescreteSignal::new_from_vec(data);
    let fir = vec![q(0, 1); fir_len];
    let mut output = DescreteSignal::new();
    let expected_len = sig_len as usize + 1 - fir_len;

    fir_filter(&signal, &fir, &mut output).unwrap();
    assert_eq!(output.len(), expected_len);
}

#[test]
fn fir_filter_shall_perform_convolution_on_signal() {
    let signal = DescreteSignal::new_from_vec(vec![
        (q(0, 1), q(0, 1)),
        (q(1, 1), q(1, 1)),
        (q(2, 1), q(0, 1)),
        (q(3, 1), q(-1, 1)),
        (q(4, 1), q(0, 1)),
        (q(5, 1), q(1, 1)),
        (q(6, 1), q(0, 1)),
        (q(7, 1), q(-1, 1)),
    ]);
    let fir = vec![q(1, 10), q(2, 1), q(10, 1)];
    let mut output = DescreteSignal::new();
    let expected = [
        (q(0, 1), q(2, 1)),
        (q(1, 1), q(99, 10)),
        (q(2, 1), q(-2, 1)),
        (q(3, 1), q(-99, 10)),
        (q(4, 1), q(2, 1)),
        (q(5, 1), q(99, 10)),
    ];

    fir_filter(&signal, &fir, &mut output).unwrap();
    let data = output.get_data();
    assert_eq!(data.len(), expected.len());
    for (i, &(t, v)) in data.iter().enumerate() {
        assert_eq!(t, expected[i].0);
        assert_eq!(v, expected[i].1);
    }
}

#[test]
fn fir_filter_rejects_bad_shapes() {
    let signal = DescreteSignal::new_from_vec(vec![(q(0, 1), q(1, 1)), (q(1, 1), q(2, 1))]);
    let mut output = DescreteSignal::new();
    assert_eq!(
        fir_filter(&signal, &Vec::new(), &mut output).unwrap_err(),
        DspError::EmptySignal
    );
    let long = vec![q(1, 3); 3];
    assert_eq!(
        fir_filter(&signal, &long, &mut output).unwrap_err(),
        DspError::FilterLongerThanSignal
    );
    let empty = DescreteSignal::new();
    assert_eq!(
        fir_filter(&empty, &long, &mut output).unwrap_err(),
        DspError::EmptySignal
    );
    assert_eq!(output.len(), 0);
}

#[test]
fn boxcar_taps_are_uniform_over_the_longer_bound() {
    let taps = boxcar_coefficients(3, 5).unwrap();
    assert_eq!(taps.len(), 5);
    for t in taps.iter() {
        assert_eq!(*t, q(1, 5));
    }
    let taps2 = boxcar_coefficients(4, 2).unwrap();
    assert_eq!(taps2.len(), 4);
    for t in taps2.iter() {
        assert_eq!(*t, q(1, 4));
    }
    assert_eq!(
        boxcar_coefficients(0, 0).unwrap_err(),
        DspError::EmptySignal
    );
}

#[test]
fn boxcar_filtering_keeps_a_constant_signal_constant() {
    let c = q(13, 4);
    let mut data: Vec<(Rational, Rational)> = Vec::new();
    for k in 0..9i64 {
        data.push((q(k, 1), c));
    }
    let signal = DescreteSignal::new_from_vec(data);
    let taps = boxcar_coefficients(4, 0).unwrap();
    let mut output = DescreteSignal::new();
    fir_filter(&signal, &taps, &mut output).unwrap();
    assert_eq!(output.len(), 6);
    for &(_, v) in output.get_data().iter() {
        assert_eq!(v, c);
    }
}
