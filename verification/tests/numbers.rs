use swiss_cheese::rounding::{fraction, product, quotient, whole};
use swiss_cheese::Scalar;

fn scalar(x: f32) -> Scalar {
    Scalar { bits: x.to_bits() }
}

fn float(s: Scalar) -> f32 {
    f32::from_bits(s.bits)
}

fn panel() -> Vec<f32> {
    vec![
        0.0,
        -0.0,
        1.0,
        -1.0,
        0.5,
        -0.5,
        1.0000001,
        0.99999994,
        1e-4,
        -1e-4,
        3.4e38,
        -3.4e38,
        1e-45,
        -1e-45,
        1.1754944e-38,
        1.1754942e-38,
        f32::INFINITY,
        f32::NEG_INFINITY,
        f32::NAN,
        -f32::NAN,
    ]
}

#[test]
fn order_agrees_with_the_hardware() {
    for &a in panel().iter() {
        for &b in panel().iter() {
            assert_eq!(scalar(a).lt(scalar(b)), a < b, "{} < {}", a, b);
        }
        assert_eq!(scalar(a).is_negative(), a < 0.0, "{}", a);
        assert_eq!(scalar(a).is_nan(), a.is_nan(), "{}", a);
    }
}

#[test]
fn negative_zero_is_not_inside() {
    assert!(!scalar(-0.0).is_negative());
    assert!(scalar(-1e-45).is_negative());
}

#[test]
fn nothing_is_below_what_is_not_a_number() {
    assert!(!scalar(f32::NAN).lt(scalar(1.0)));
    assert!(!scalar(1.0).lt(scalar(f32::NAN)));
    assert!(!scalar(f32::NAN).is_negative());
    assert!(!scalar(-f32::NAN).is_negative());
}

#[test]
fn negation_agrees_with_the_hardware() {
    for &a in panel().iter() {
        assert_eq!(scalar(a).neg().bits, (-a).to_bits());
        assert_eq!(scalar(a).neg().neg(), scalar(a));
    }
}

#[test]
fn maximum_and_minimum_agree_with_the_hardware() {
    for &a in panel().iter() {
        for &b in panel().iter() {
            let most = float(scalar(a).max(scalar(b)));
            let least = float(scalar(a).min(scalar(b)));
            if a.is_nan() && b.is_nan() {
                assert!(most.is_nan() && least.is_nan());
            } else {
                assert_eq!(most, a.max(b), "max({}, {})", a, b);
                assert_eq!(least, a.min(b), "min({}, {})", a, b);
            }
        }
    }
}

#[test]
fn a_pattern_that_is_no_number_gives_way() {
    assert_eq!(scalar(f32::NAN).max(scalar(-3.0)), scalar(-3.0));
    assert_eq!(scalar(-3.0).max(scalar(f32::NAN)), scalar(-3.0));
    assert_eq!(scalar(f32::NAN).min(scalar(3.0)), scalar(3.0));
    assert_eq!(scalar(3.0).min(scalar(f32::NAN)), scalar(3.0));
}

#[test]
fn short_fractions_are_rounded_once() {
    for den in 1u64..200 {
        for num in 0..=den {
            assert_eq!(
                fraction(num, den).bits,
                (num as f32 / den as f32).to_bits(),
                "{} / {}",
                num,
                den
            );
        }
    }
}

#[test]
fn fractions_with_a_large_denominator_are_rounded_once() {
    let mut h: u32 = 1;
    for _ in 0..2000 {
        h = h.wrapping_mul(1664525).wrapping_add(1013904223);
        let exact = h as f64 / 4294967296.0;
        assert_eq!(fraction(h as u64, 0x1_0000_0000).bits, (exact as f32).to_bits(), "{}", h);
    }
}

#[test]
fn fractions_round_ties_to_even() {
    // Half a step above a half, between an even and an odd neighbour.
    assert_eq!(fraction(0x8000_0080, 0x1_0000_0000), scalar(0.5));
    assert_eq!(fraction(0x8000_0180, 0x1_0000_0000).bits, 0x3f00_0002);
    assert_eq!(fraction(0xffff_ff7f, 0x1_0000_0000).bits, 0x3f7f_ffff);
    assert_eq!(fraction(0xffff_ff80, 0x1_0000_0000), scalar(1.0));
}

#[test]
fn products_agree_with_the_hardware() {
    let mut a: u32 = 0x3f80_0000;
    let mut b: u32 = 0x3fc0_0000;
    for _ in 0..2000 {
        a = 0x3c00_0000 + a.wrapping_mul(1664525).wrapping_add(1013904223) % 0x0800_0000;
        b = 0x3c00_0000 + b.wrapping_mul(22695477).wrapping_add(1) % 0x0800_0000;
        let r = product(Scalar { bits: a }, Scalar { bits: b });
        assert_eq!(r.bits, (f32::from_bits(a) * f32::from_bits(b)).to_bits(), "{:x} {:x}", a, b);
    }
}

#[test]
fn rounding_keeps_the_order_of_fractions() {
    for num in 0..124u64 {
        let here = fraction(num, 124);
        let next = fraction(num + 1, 124);
        assert!(here.lt(next));
    }
    assert_eq!(fraction(0, 124), scalar(0.0));
    assert_eq!(fraction(124, 124), scalar(1.0));
}

#[test]
fn counts_agree_with_the_hardware() {
    assert_eq!(whole(0), scalar(0.0));
    assert_eq!(whole(1), scalar(1.0));
    assert_eq!(whole(16777217), scalar(16777216.0));
    assert_eq!(whole(16777219), scalar(16777220.0));
    let mut n: u64 = 1;
    for _ in 0..2000 {
        n = n.wrapping_mul(6364136223846793005).wrapping_add(1442695040888963407);
        for shift in [0u32, 7, 20, 33, 50, 63] {
            let m = n >> shift;
            assert_eq!(whole(m).bits, (m as f32).to_bits(), "{}", m);
        }
    }
    assert_eq!(whole(u64::MAX).bits, (u64::MAX as f32).to_bits());
}

#[test]
fn quotients_agree_with_the_hardware() {
    let mut a: u32 = 0x3f80_0000;
    for _ in 0..2000 {
        a = 0x3000_0000 + a.wrapping_mul(1664525).wrapping_add(1013904223) % 0x2000_0000;
        for den in [1u64, 2, 3, 124, 125, 1000003] {
            let r = quotient(Scalar { bits: a }, den);
            assert_eq!(r.bits, (f32::from_bits(a) / den as f32).to_bits(), "{:x} / {}", a, den);
        }
    }
}
