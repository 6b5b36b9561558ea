use radial::float::{Binary32, Binary64};

fn number(value: f64) -> Binary64 {
    Binary64::from_bits(value.to_bits())
}

const VALUES: [f64; 14] = [
    0.0,
    -0.0,
    1.0,
    -1.0,
    0.5,
    -0.5,
    1e-310,
    1e300,
    -1e300,
    f64::INFINITY,
    f64::NEG_INFINITY,
    f64::NAN,
    180.0,
    -89.25,
];

#[test]
fn comparisons_agree_with_arithmetic() {
    for a in VALUES {
        assert_eq!(number(a).is_nan(), a.is_nan());
        assert_eq!(number(a).is_finite(), a.is_finite());
        for b in VALUES {
            assert_eq!(number(a).lt(number(b)), a < b, "{a} < {b}");
            assert_eq!(number(a).le(number(b)), a <= b, "{a} <= {b}");
            assert_eq!(number(a).num_eq(number(b)), a == b, "{a} == {b}");
            let max = f64::from_bits(number(a).max(number(b)).to_bits());
            let min = f64::from_bits(number(a).min(number(b)).to_bits());
            assert!(max == a.max(b) || (max.is_nan() && a.max(b).is_nan()));
            assert!(min == a.min(b) || (min.is_nan() && a.min(b).is_nan()));
        }
    }
}

#[test]
fn clearances_are_rounded_up_and_saturated() {
    let expected = |v: f64| {
        let needed = v.max(0.0);
        if needed.is_finite() {
            needed.ceil().clamp(0.0, 65534.0) as u16
        } else {
            0
        }
    };
    for v in VALUES {
        assert_eq!(number(v).ceil_height(), expected(v), "{v}");
    }
    for v in [1e-320, 0.1, 0.999, 1.0001, 199.5, 200.0, 65533.2, 65534.0, 65534.5, 65535.0, 7e4] {
        assert_eq!(number(v).ceil_height(), expected(v), "{v}");
    }
    let mut v = 1.0f64;
    for _ in 0..2000 {
        v *= 1.0097;
        assert_eq!(number(v).ceil_height(), expected(v), "{v}");
        assert_eq!(number(1.0 / v).ceil_height(), expected(1.0 / v));
    }
}

#[test]
fn numbers_are_rounded_down() {
    let mut v = 0.001f64;
    while v < 32000.0 {
        for x in [v, -v, v.trunc(), -v.trunc()] {
            assert_eq!(number(x).floor(), x.floor() as i32, "{x}");
        }
        v *= 1.37;
    }
    assert_eq!(number(-0.0).floor(), 0);
    assert_eq!(number(-1e-300).floor(), -1);
    assert_eq!(number(1e-300).floor(), 0);
}

#[test]
fn elevations_are_rounded_to_the_nearest_metre() {
    let expected = |v: f32| v.round().clamp(i16::MIN as f32 + 1.0, i16::MAX as f32) as i16;
    let mut v = 0.0007f32;
    while v < 1e9 {
        for x in [v, -v, v.trunc() + 0.5, -v.trunc() - 0.5] {
            let elevation = Binary32 { bits: x.to_bits() }.rounded_elevation();
            assert_eq!(elevation, expected(x), "{x}");
        }
        v *= 1.21;
    }
    for x in [0.0, -0.0, f32::INFINITY, f32::NEG_INFINITY, f32::NAN, 32767.4, -32768.9, 1e-40] {
        assert_eq!(Binary32 { bits: x.to_bits() }.rounded_elevation(), expected(x), "{x}");
    }
}

#[test]
fn progress_stays_between_zero_and_one() {
    for x in [-1.0f32, -0.0, 0.0, 0.3, 1.0, 1.5, f32::INFINITY, f32::NEG_INFINITY] {
        let clamped = f32::from_bits(Binary32 { bits: x.to_bits() }.clamp_unit().bits);
        assert_eq!(clamped, x.clamp(0.0, 1.0));
    }
    assert!(f32::from_bits(Binary32 { bits: f32::NAN.to_bits() }.clamp_unit().bits).is_nan());
}
