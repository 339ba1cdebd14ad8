use dsp_lib::descrete_signal::DescreteSignal;
use dsp_lib::rational::Rational;
use dsp_lib::DspError;

fn q(n: i64, d: i64) -> Rational {
    Rational::new(n, d)
}

fn signal_of(pairs: &[(i64, i64, i64, i64)]) -> DescreteSignal {
    // Each entry is (t_num, t_den, v_num, v_den).
    let mut data: Vec<(Rational, Rational)> = Vec::new();
    for &(tn, td, vn, vd) in pairs {
        data.push((q(tn, td), q(vn, vd)));
    }
    DescreteSignal::new_from_vec(data)
}

fn assert_signal_eq(actual: &DescreteSignal, expected: &[(i64, i64, i64, i64)]) {
    let data = actual.get_data();
    assert_eq!(data.len(), expected.len());
    for (i, &(tn, td, vn, vd)) in expected.iter().enumerate() {
        assert_eq!(data[i].0, q(tn, td));
        assert_eq!(data[i].1, q(vn, vd));
    }
}

#[test]
fn adding_shall_extend_signal_with_data_after_last_stamp() {
    let first = signal_of(&[(1, 10, 0, 1), (2, 10, 300, 1), (3, 10, 4522, 100)]);
    let second = signal_of(&[(5, 10, 1, 10), (51, 100, 113, 10), (52, 100, 478, 100)]);
    let sum = first.add(&second).unwrap();
    assert_signal_eq(
        &sum,
        &[
            (1, 10, 0, 1),
            (2, 10, 300, 1),
            (3, 10, 4522, 100),
            (5, 10, 1, 10),
            (51, 100, 113, 10),
            (52, 100, 478, 100),
        ],
    );
}

#[test]
fn check_adding_to_signals_with_equal_stamps() {
    let first = signal_of(&[(0, 1, 0, 1), (1, 10, 300, 1), (15, 10, 4522, 100)]);
    let second = signal_of(&[(0, 1, 1, 10), (1, 10, 113, 10), (15, 10, 478, 100)]);
    let sum = first.add(&second).unwrap();
    assert_signal_eq(&sum, &[(0, 1, 1, 10), (1, 10, 3113, 10), (15, 10, 50, 1)]);
}

#[test]
fn check_adding_to_signals_with_stamps_between() {
    let first = signal_of(&[
        (0, 1, 0, 1),
        (1, 1, 10, 1),
        (225, 100, 225, 10),
        (25, 10, 25, 1),
        (275, 100, 275, 10),
    ]);
    let second = signal_of(&[(1, 1, 2, 1), (2, 1, 4, 1), (3, 1, 6, 1)]);
    let sum = first.add(&second).unwrap();
    assert_signal_eq(
        &sum,
        &[
            (0, 1, 0, 1),
            (1, 1, 12, 1),
            (2, 1, 24, 1),
            (225, 100, 27, 1),
            (25, 10, 30, 1),
            (275, 100, 33, 1),
            (3, 1, 6, 1),
        ],
    );
}

#[test]
fn check_adding_mixed_data() {
    let first = signal_of(&[
        (0, 1, 1, 1),
        (1, 1, 11, 1),
        (2, 1, 21, 1),
        (3, 1, 31, 1),
        (4, 1, 41, 1),
    ]);
    let second = signal_of(&[
        (0, 1, 2, 1),
        (1, 10, 3, 1),
        (2, 10, 4, 1),
        (33, 10, 35, 1),
        (36, 10, 38, 1),
        (41, 10, 43, 1),
    ]);
    let sum = first.add(&second).unwrap();
    assert_signal_eq(
        &sum,
        &[
            (0, 1, 3, 1),
            (1, 10, 5, 1),
            (2, 10, 7, 1),
            (1, 1, 23, 1),
            (2, 1, 43, 1),
            (3, 1, 63, 1),
            (33, 10, 69, 1),
            (36, 10, 75, 1),
            (4, 1, 83, 1),
            (41, 10, 43, 1),
        ],
    );
}

#[test]
fn clear_should_delete_all_data() {
    let mut signal = signal_of(&[
        (0, 1, 0, 1),
        (1, 1, 10, 1),
        (225, 100, 225, 10),
        (25, 10, 25, 1),
        (275, 100, 275, 10),
    ]);
    assert_ne!(signal.len(), 0);
    signal.clear();
    assert_eq!(signal.len(), 0);
    assert_eq!(signal.get_data().len(), 0);
}

#[test]
fn adding_an_empty_signal_is_reported() {
    let empty = DescreteSignal::new();
    let other = signal_of(&[(0, 1, 1, 1), (1, 1, 2, 1)]);
    assert_eq!(empty.add(&other).unwrap_err(), DspError::EmptySignal);
    assert_eq!(other.add(&empty).unwrap_err(), DspError::EmptySignal);
}

#[test]
fn adding_overflowing_values_is_reported() {
    let big = i64::MAX - 1;
    let first = signal_of(&[(0, 1, big, 1), (1, 1, big, 1)]);
    let second = signal_of(&[(0, 1, big, 1), (1, 1, big, 1)]);
    assert_eq!(first.add(&second).unwrap_err(), DspError::NumericOverflow);
}

#[test]
fn unordered_data_is_reported() {
    let data = vec![(q(1, 1), q(0, 1)), (q(1, 1), q(2, 1))];
    assert_eq!(
        DescreteSignal::try_new_from_vec(data).unwrap_err(),
        DspError::NonMonotonicTimestamps
    );
    let mut sig = DescreteSignal::new();
    sig.try_push(q(2, 1), q(0, 1)).unwrap();
    assert_eq!(
        sig.try_push(q(2, 1), q(1, 1)).unwrap_err(),
        DspError::NonMonotonicTimestamps
    );
    sig.try_push(q(3, 1), q(1, 1)).unwrap();
    assert_eq!(sig.len(), 2);
}

#[test]
fn degenerate_interpolation_is_reported() {
    let p1 = (q(2, 1), q(5, 1));
    let p2 = (q(4, 2), q(7, 1));
    assert_eq!(
        DescreteSignal::get_approximation_coeficients(p1, p2).unwrap_err(),
        DspError::DegenerateInterpolation
    );
}

#[test]
fn approximation_coeficients_describe_the_line() {
    // Through (1, 3) and (3, 7): slope 2, intercept 1.
    let p1 = (q(1, 1), q(3, 1));
    let p2 = (q(3, 1), q(7, 1));
    let (a, b) = DescreteSignal::get_approximation_coeficients(p1, p2).unwrap();
    assert_eq!(a, q(2, 1));
    assert_eq!(b, q(1, 1));
}
