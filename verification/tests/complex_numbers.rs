use dsp_lib::complex_numbers::ComplexNumber;
use dsp_lib::rational::Rational;

fn q(n: i64, d: i64) -> Rational {
    Rational::new(n, d)
}

#[test]
fn new_shall_create_tuple_based_on_args() {
    let input = (q(123324, 1000), q(5324522, 100));
    let c = ComplexNumber::new(input.0, input.1);
    assert_eq!(c.re(), input.0);
    assert_eq!(c.im(), input.1);
}

#[test]
fn re_shall_return_first_value() {
    let input = (q(1312414, 100), q(30980232, 1000));
    let c = ComplexNumber::new(input.0, input.1);
    assert_eq!(c.re(), input.0);
}

#[test]
fn im_shall_return_second_value() {
    let input = (q(984309234, 1000), q(89043583433, 10));
    let c = ComplexNumber::new(input.0, input.1);
    assert_eq!(c.im(), input.1);
}

#[test]
fn adding_shall_add_re_part_and_im_part_separately() {
    let in1 = (q(3243212312, 100000), q(1542789, 1000));
    let in2 = (q(54983246, 10000), q(46878654387, 100000));
    let c1 = ComplexNumber::new(in1.0, in1.1);
    let c2 = ComplexNumber::new(in2.0, in2.1);
    let c3 = c1.checked_add(&c2).unwrap();
    assert_eq!(c3.re(), in1.0.checked_add(&in2.0).unwrap());
    assert_eq!(c3.im(), in1.1.checked_add(&in2.1).unwrap());
}

#[test]
fn adding_float_shall_add_only_to_re_part() {
    let input = (q(61, 10), q(845, 10));
    let re = q(664, 10);
    let c1 = ComplexNumber::new(input.0, input.1);
    let c3 = c1.checked_add_real(&re).unwrap();
    assert_eq!(c3.re(), input.0.checked_add(&re).unwrap());
    assert_eq!(c3.im(), input.1);
}

#[test]
fn multiplying_shall_follow_correct_procedure() {
    let (x1, y1) = (q(61222, 100), q(84522, 100));
    let (x2, y2) = (q(12, 10), q(21, 10));
    let c1 = ComplexNumber::new(x1, y1);
    let c2 = ComplexNumber::new(x2, y2);
    let c3 = c1.checked_mul(&c2).unwrap();
    let expected_re = x1
        .checked_mul(&x2)
        .unwrap()
        .checked_sub(&y1.checked_mul(&y2).unwrap())
        .unwrap();
    let expected_im = x1
        .checked_mul(&y2)
        .unwrap()
        .checked_add(&y1.checked_mul(&x2).unwrap())
        .unwrap();
    assert_eq!(c3.re(), expected_re);
    assert_eq!(c3.im(), expected_im);
}

#[test]
fn multiplying_float_shall_multiply_both() {
    let input = (q(61, 10), q(845, 10));
    let mul = q(36, 10);
    let c1 = ComplexNumber::new(input.0, input.1);
    let c3 = c1.checked_scale(&mul).unwrap();
    assert_eq!(c3.re(), input.0.checked_mul(&mul).unwrap());
    assert_eq!(c3.im(), input.1.checked_mul(&mul).unwrap());
}

#[test]
fn module_shall_return_correct_float_number() {
    let c = ComplexNumber::new(q(3, 1), q(4, 1));
    let expected = q(5, 1);
    assert_eq!(c.module().unwrap(), expected);
}

#[test]
fn module_is_exact_on_either_axis() {
    assert_eq!(ComplexNumber::new(q(-7, 2), q(0, 1)).module().unwrap(), q(7, 2));
    assert_eq!(ComplexNumber::new(q(0, 1), q(-9, 4)).module().unwrap(), q(9, 4));
    assert_eq!(ComplexNumber::new(q(0, 1), q(0, 1)).module().unwrap(), q(0, 1));
}

#[test]
fn module_brackets_an_irrational_magnitude() {
    // |1 + i1| = sqrt(2): the result m satisfies m^2 <= 2 < (m + 2^-20)^2.
    let c = ComplexNumber::new(q(1, 1), q(1, 1));
    let m = c.module().unwrap();
    let two = q(2, 1);
    let msq = m.checked_mul(&m).unwrap();
    assert!(msq.le(&two));
    let upper = m.checked_add(&q(1, 1048576)).unwrap();
    let upper_sq = upper.checked_mul(&upper).unwrap();
    assert!(two.lt(&upper_sq));
}
