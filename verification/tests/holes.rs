use swiss_cheese::scatter::avalanche;
use swiss_cheese::{bubble, swiss_hash, CheeseSpec, Scalar};

fn mixed(mut h: u32) -> u32 {
    h ^= h >> 16;
    h = h.wrapping_mul(0x7feb352d);
    h ^= h >> 15;
    h = h.wrapping_mul(0x846ca68b);
    h ^= h >> 16;
    h
}

/// Runs the avalanche backward.
fn unmixed(mut h: u32) -> u32 {
    h ^= h >> 16;
    h = h.wrapping_mul(0x43021123);
    h ^= (h >> 15) ^ (h >> 30);
    h = h.wrapping_mul(0x1d69e2a5);
    h ^= h >> 16;
    h
}

fn hashed(h: u32) -> f32 {
    (mixed(h) as f32 / u32::MAX as f32).min(0.99999994)
}

fn inputs() -> Vec<u32> {
    let mut h: u32 = 7;
    let mut all = vec![0, 1, 2, 3, 0xA1, 0xB2, 0xC3, 0xD4, u32::MAX, 0x8000_0000];
    for _ in 0..2000 {
        h = h.wrapping_mul(1664525).wrapping_add(1013904223);
        all.push(h);
    }
    all
}

#[test]
fn avalanche_mixes_as_it_should() {
    assert_eq!(avalanche(0), 0);
    for h in inputs() {
        assert_eq!(avalanche(h), mixed(h));
    }
}

#[test]
fn avalanche_can_be_run_backward() {
    for h in inputs() {
        assert_eq!(unmixed(avalanche(h)), h);
    }
}

#[test]
fn hash_is_the_mixed_bits_over_their_range() {
    assert_eq!(swiss_hash(0).bits, 0);
    for h in inputs() {
        assert_eq!(swiss_hash(h).bits, hashed(h).to_bits(), "{}", h);
    }
}

#[test]
fn same_input_same_hash() {
    for h in inputs() {
        assert_eq!(swiss_hash(h), swiss_hash(h));
    }
}

#[test]
fn hash_stays_below_one_at_the_very_top() {
    let one = Scalar { bits: 1.0f32.to_bits() };
    assert_eq!(avalanche(0xD5F9_EFC4), u32::MAX);
    assert_eq!(swiss_hash(0xD5F9_EFC4).bits, 0.99999994f32.to_bits());
    for top in 0xffff_ff80..=u32::MAX {
        let r = swiss_hash(unmixed(top));
        assert_eq!(r.bits, 0.99999994f32.to_bits());
        assert!(r.lt(one));
    }
    assert_eq!(swiss_hash(unmixed(0xffff_ff7f)).bits, 0.99999994f32.to_bits());
    assert_eq!(swiss_hash(unmixed(0xffff_fe7f)).bits, 0.9999999f32.to_bits());
}

#[test]
fn hashes_lie_in_the_half_open_range_from_zero_to_one() {
    for h in inputs() {
        let x = f32::from_bits(swiss_hash(h).bits);
        assert!((0.0..1.0).contains(&x));
    }
}

#[test]
fn a_bubble_sits_on_the_face_half_a_bite_up_or_down() {
    let spec = CheeseSpec::default();
    let half = Scalar { bits: 1.25f32.to_bits() };
    for i in 0..20 {
        let b = bubble(&spec, i);
        let expected = if b.upper_face { 1.25f32 } else { -1.25 };
        assert_eq!(b.face(half).bits, expected.to_bits());
    }
}

#[test]
fn bubbles_are_hashed_from_seed_and_index() {
    for seed in [0.6180339887f32, std::f32::consts::PI, 0.0, -1.5] {
        let spec = CheeseSpec {
            hole_seed: Scalar { bits: seed.to_bits() },
            ..CheeseSpec::default()
        };
        for i in 0..40usize {
            let base = seed.to_bits() ^ (i as u32).wrapping_mul(0x9e3779b9);
            let b = bubble(&spec, i);
            assert_eq!(b.upper_face, hashed(base ^ 0xA1) < 0.5);
            assert_eq!(b.radial.bits, hashed(base ^ 0xB2).to_bits());
            assert_eq!(b.height.bits, hashed(base ^ 0xC3).to_bits());
            assert_eq!(b.size.bits, hashed(base ^ 0xD4).to_bits());
        }
    }
}

#[test]
fn both_cut_faces_get_bubbles() {
    let spec = CheeseSpec::default();
    let upper = (0..64).filter(|&i| bubble(&spec, i).upper_face).count();
    assert!(upper > 0 && upper < 64);
}

#[test]
fn same_seed_same_bubbles_whatever_else_differs() {
    let plain = CheeseSpec::default();
    let other = CheeseSpec {
        wheel_radius: Scalar { bits: 7.0f32.to_bits() },
        wheel_height: Scalar { bits: 3.0f32.to_bits() },
        wedge_bite: Scalar { bits: 0.25f32.to_bits() },
        hole_count: 3,
        ..plain
    };
    for i in 0..20 {
        assert_eq!(bubble(&plain, i), bubble(&other, i));
    }
}

#[test]
fn another_seed_gives_other_bubbles() {
    let plain = CheeseSpec::default();
    let other = CheeseSpec {
        hole_seed: Scalar { bits: 0.5f32.to_bits() },
        ..plain
    };
    assert!((0..20).all(|i| bubble(&plain, i) != bubble(&other, i)));
}

#[test]
fn bubbles_of_a_wheel_differ_from_each_other() {
    let spec = CheeseSpec::default();
    for i in 0..40 {
        for j in 0..i {
            assert_ne!(bubble(&spec, i), bubble(&spec, j));
        }
    }
}
