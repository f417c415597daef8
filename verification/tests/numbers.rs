use engramai::binary::{Binary32, Binary64};

fn double(x: f64) -> Binary64 {
    Binary64 { bits: x.to_bits() }
}

fn single(x: f32) -> Binary32 {
    Binary32 { bits: x.to_bits() }
}

fn same64(a: Binary64, b: f64) -> bool {
    a.bits == b.to_bits() || (f64::from_bits(a.bits).is_nan() && b.is_nan())
}

fn same32(a: Binary32, b: f32) -> bool {
    a.bits == b.to_bits() || (f32::from_bits(a.bits).is_nan() && b.is_nan())
}

/// Bit patterns from all over: special ones, and pseudo-random ones.
fn doubles() -> Vec<f64> {
    let mut v = vec![
        0.0,
        -0.0,
        1.0,
        -1.0,
        0.1,
        0.5,
        2.0,
        3.0,
        f64::MIN_POSITIVE,
        -f64::MIN_POSITIVE,
        f64::from_bits(1),
        f64::from_bits(0x000f_ffff_ffff_ffff),
        f64::MAX,
        f64::MIN,
        f64::EPSILON,
        1.0 + f64::EPSILON,
        1.0 - f64::EPSILON / 2.0,
        f64::INFINITY,
        f64::NEG_INFINITY,
        f64::NAN,
    ];
    let mut x: u64 = 0x9e37_79b9_7f4a_7c15;
    for _ in 0..60 {
        x ^= x << 13;
        x ^= x >> 7;
        x ^= x << 17;
        v.push(f64::from_bits(x));
        v.push((x % 100_000) as f64 / 1000.0 - 50.0);
    }
    v
}

fn floats() -> Vec<f32> {
    let mut v = vec![
        0.0,
        -0.0,
        1.0,
        -1.0,
        0.1,
        0.5,
        f32::MIN_POSITIVE,
        f32::from_bits(1),
        f32::from_bits(0x007f_ffff),
        f32::MAX,
        f32::MIN,
        f32::EPSILON,
        f32::INFINITY,
        f32::NEG_INFINITY,
        f32::NAN,
    ];
    let mut x: u32 = 0x9e37_79b9;
    for _ in 0..60 {
        x ^= x << 13;
        x ^= x >> 17;
        x ^= x << 5;
        v.push(f32::from_bits(x));
        v.push((x % 100_000) as f32 / 1000.0 - 50.0);
    }
    v
}

#[test]
fn double_arithmetic_is_that_of_the_machine() {
    for a in doubles() {
        for b in doubles() {
            let (x, y) = (double(a), double(b));
            assert!(same64(x.add(y), a + b), "{} + {}", a, b);
            assert!(same64(x.sub(y), a - b), "{} - {}", a, b);
            assert!(same64(x.mul(y), a * b), "{} * {}", a, b);
            assert!(same64(x.div(y), a / b), "{} / {}", a, b);
            assert_eq!(x.lt(y), a < b);
            assert_eq!(x.ge(y), a >= b);
            assert_eq!(f64::from_bits(x.max(y).bits).is_nan(), a.max(b).is_nan());
            if !a.max(b).is_nan() {
                assert_eq!(f64::from_bits(x.max(y).bits), a.max(b));
                assert_eq!(f64::from_bits(x.min(y).bits), a.min(b));
            }
        }
    }
}

#[test]
fn double_conversions_are_those_of_the_machine() {
    for a in doubles() {
        assert_eq!(double(a).to_i32(), a as i32);
        assert_eq!(double(a).nan(), a.is_nan());
        assert!(same64(double(a).negate(), -a));
        assert!(same32(double(a).narrow(), a as f32), "{}", a);
        assert!(same64(double(a).clamp(double(-1.0), double(1.5)), a.clamp(-1.0, 1.5)));
    }
    for n in [0i64, 1, -1, 7, 1 << 53, (1 << 53) + 1, (1 << 53) + 3, i64::MAX, i64::MIN] {
        assert!(same64(Binary64::from_int(n as i128), n as f64));
    }
    for n in [u64::MAX, u64::MAX - 1023, u64::MAX - 1024] {
        assert!(same64(Binary64::from_int(n as i128), n as f64));
    }
}

#[test]
fn single_arithmetic_is_that_of_the_machine() {
    for a in floats() {
        assert!(same32(single(a).sqrt(), a.sqrt()), "root of {}", a);
        assert_eq!(single(a).nan(), a.is_nan());
        for b in floats() {
            let (x, y) = (single(a), single(b));
            assert!(same32(x.add(y), a + b), "{} + {}", a, b);
            assert!(same32(x.mul(y), a * b), "{} * {}", a, b);
            assert!(same32(x.div(y), a / b), "{} / {}", a, b);
            assert_eq!(x.lt(y), a < b);
            assert_eq!(x.ge(y), a >= b);
            if !a.is_nan() && !b.is_nan() {
                assert_eq!(x.rank() < y.rank(), a < b);
            }
        }
    }
}

#[test]
fn rounding_is_to_even() {
    let tie = Binary64::from_int((1i128 << 53) + 1);
    assert_eq!(tie.bits, ((1u64 << 53) as f64).to_bits());
    let up = Binary64::from_int((1i128 << 53) + 3);
    assert_eq!(up.bits, (((1u64 << 53) + 4) as f64).to_bits());
    assert_eq!(double(f64::MAX).add(double(f64::MAX)).bits, f64::INFINITY.to_bits());
}
