use rustemp::double::Double;

fn num(x: f64) -> Double {
    Double { bits: x.to_bits() }
}

fn value_of(d: Double) -> f64 {
    f64::from_bits(d.bits)
}

fn sample() -> Vec<f64> {
    let mut v = vec![
        0.0,
        5e-324,
        1e-310,
        2.2250738585072014e-308,
        1e-9,
        f64::EPSILON,
        0.25,
        0.5,
        0.9999999999999999,
        1.0,
        1.0000000000000002,
        1.5,
        255.0,
        65534.99999,
        65535.0,
        65535.5,
        65536.0,
        1e6,
        1e300,
        f64::MAX,
        f64::INFINITY,
    ];
    for i in 0..v.len() {
        v.push(-v[i]);
    }
    v.push(f64::NAN);
    v.push(-f64::NAN);
    v
}

#[test]
fn order_is_that_of_the_numbers() {
    for a in sample() {
        for b in sample() {
            assert_eq!(num(a).lt(num(b)), a < b, "{} {}", a, b);
            assert_eq!(num(a).le(num(b)), a <= b, "{} {}", a, b);
        }
    }
}

#[test]
fn signs() {
    for a in sample() {
        assert_eq!(num(a).abs().bits, a.abs().to_bits());
        assert_eq!(num(a).neg().bits, (-a).to_bits());
    }
}

#[test]
fn truncation_saturates() {
    for a in sample() {
        assert_eq!(num(a).to_u16(), a as u16, "{}", a);
    }
    for i in 0..70000u32 {
        for a in [i as f64 - 0.3, i as f64, i as f64 + 0.999999] {
            assert_eq!(num(a).to_u16(), a as u16);
        }
    }
}

#[test]
fn clamping() {
    for a in sample() {
        let expected = if a.is_nan() { a } else { a.clamp(0.0, 1.0) };
        assert_eq!(num(a).clamp_to_unit().bits, expected.to_bits());
        let twice = num(a).clamp_to_unit().clamp_to_unit();
        assert_eq!(twice, num(a).clamp_to_unit());
    }
    assert_eq!(value_of(num(7.0).clamp(num(2.0), num(5.0))), 5.0);
    assert_eq!(value_of(num(1.0).clamp(num(2.0), num(5.0))), 2.0);
    assert_eq!(value_of(num(3.0).clamp(num(2.0), num(5.0))), 3.0);
}

#[test]
fn floor_at_zero() {
    assert_eq!(num(-1.0).max_zero(), num(0.0));
    assert_eq!(num(f64::NAN).max_zero(), num(0.0));
    assert_eq!(num(0.25).max_zero(), num(0.25));
    assert_eq!(num(f64::INFINITY).max_zero(), num(f64::INFINITY));
}
