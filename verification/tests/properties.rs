use dsp_lib::descrete_signal::DescreteSignal;
use dsp_lib::rational::Rational;

fn q(n: i64, d: i64) -> Rational {
    Rational::new(n, d)
}

fn signal_of(pairs: &[(i64, i64, i64, i64)]) -> DescreteSignal {
    let mut data: Vec<(Rational, Rational)> = Vec::new();
    for &(tn, td, vn, vd) in pairs {
        data.push((q(tn, td), q(vn, vd)));
    }
    DescreteSignal::new_from_vec(data)
}

#[test]
fn rational_equality_is_by_value() {
    assert_eq!(q(1, 2), q(2, 4));
    assert_eq!(q(-3, 7), q(6, -14));
    assert_ne!(q(1, 2), q(1, 3));
    assert!(q(1, 3).lt(&q(1, 2)));
    assert!(q(-1, 2).lt(&q(0, 1)));
    assert!(q(2, 4).le(&q(1, 2)));
}

#[test]
fn rational_arithmetic_is_exact() {
    assert_eq!(q(1, 10).checked_add(&q(2, 10)).unwrap(), q(3, 10));
    assert_eq!(q(1, 3).checked_sub(&q(1, 6)).unwrap(), q(1, 6));
    assert_eq!(q(3, 4).checked_mul(&q(2, 3)).unwrap(), q(1, 2));
    assert_eq!(q(3, 4).checked_div(&q(-3, 2)).unwrap(), q(-1, 2));
    assert!(q(i64::MAX, 1).checked_add(&q(1, 1)).is_none());
    assert!(q(i64::MAX, 1).checked_mul(&q(2, 1)).is_none());
}

#[test]
fn merge_addition_commutes() {
    let a = signal_of(&[(0, 1, 1, 1), (1, 1, 11, 1), (2, 1, 21, 1), (3, 1, 31, 1), (4, 1, 41, 1)]);
    let b = signal_of(&[
        (0, 1, 2, 1),
        (1, 10, 3, 1),
        (2, 10, 4, 1),
        (33, 10, 35, 1),
        (36, 10, 38, 1),
        (41, 10, 43, 1),
    ]);
    let ab = a.add(&b).unwrap();
    let ba = b.add(&a).unwrap();
    let ab_data = ab.get_data();
    let ba_data = ba.get_data();
    assert_eq!(ab_data.len(), ba_data.len());
    for i in 0..ab_data.len() {
        assert_eq!(ab_data[i].0, ba_data[i].0);
        assert_eq!(ab_data[i].1, ba_data[i].1);
    }
}

#[test]
fn samples_outside_the_overlap_pass_through() {
    // a's first two samples lie before b's range, its last two after it.
    let a = signal_of(&[
        (0, 1, 5, 1),
        (1, 1, 6, 1),
        (2, 1, 7, 1),
        (5, 1, 8, 1),
        (6, 1, 9, 1),
    ]);
    let b = signal_of(&[(15, 10, 100, 1), (3, 1, 200, 1)]);
    let sum = a.add(&b).unwrap();
    let data = sum.get_data();
    // Leading pass-through, verbatim.
    assert_eq!(data[0].0, q(0, 1));
    assert_eq!(data[0].1, q(5, 1));
    assert_eq!(data[1].0, q(1, 1));
    assert_eq!(data[1].1, q(6, 1));
    // Trailing pass-through, verbatim.
    let n = data.len();
    assert_eq!(data[n - 2].0, q(5, 1));
    assert_eq!(data[n - 2].1, q(8, 1));
    assert_eq!(data[n - 1].0, q(6, 1));
    assert_eq!(data[n - 1].1, q(9, 1));
}

#[test]
fn identical_grids_add_pointwise() {
    let a = signal_of(&[(0, 1, 1, 2), (1, 1, 3, 2), (2, 1, 5, 2)]);
    let b = signal_of(&[(0, 1, 1, 4), (1, 1, 1, 4), (2, 1, 1, 4)]);
    let sum = a.add(&b).unwrap();
    let data = sum.get_data();
    assert_eq!(data.len(), 3);
    assert_eq!(data[0].1, q(3, 4));
    assert_eq!(data[1].1, q(7, 4));
    assert_eq!(data[2].1, q(11, 4));
    assert_eq!(data[0].0, q(0, 1));
    assert_eq!(data[1].0, q(1, 1));
    assert_eq!(data[2].0, q(2, 1));
}
