use swiss_cheese::wheel::{split_overshoot, subtract};
use swiss_cheese::{cheese_field, sd_capped_cylinder, Bubble, CapTerms, CheeseSpec, Measures, Scalar};

fn scalar(x: f32) -> Scalar {
    Scalar { bits: x.to_bits() }
}

fn float(s: Scalar) -> f32 {
    f32::from_bits(s.bits)
}

type P = [f32; 3];

fn sphere(spec: &CheeseSpec, b: Bubble) -> (P, f32) {
    let (r_min, r_max) = (float(spec.hole_radius.0), float(spec.hole_radius.1));
    let r = r_min + (r_max - r_min) * float(b.size);
    let half = float(spec.wedge_bite) * 0.5;
    let angle = if b.upper_face { half } else { -half };
    let rho = (r * 1.2) + (float(spec.wheel_radius) - r * 2.4).max(0.0) * float(b.radial);
    let half_h = float(spec.wheel_height) * 0.5;
    let y = -half_h + r + (float(spec.wheel_height) - 2.0 * r).max(0.0) * float(b.height);
    ([rho * angle.cos(), y, rho * angle.sin()], r)
}

fn distance(p: P, q: P) -> f32 {
    let d = [p[0] - q[0], p[1] - q[1], p[2] - q[2]];
    (d[0] * d[0] + d[1] * d[1] + d[2] * d[2]).sqrt()
}

fn field(spec: &CheeseSpec, p: P) -> f32 {
    let measures = Measures {
        overshoot: |p: P| {
            (
                scalar((p[0] * p[0] + p[2] * p[2]).sqrt() - float(spec.wheel_radius)),
                scalar(p[1].abs() - float(spec.wheel_height) * 0.5),
            )
        },
        join: |t: CapTerms| {
            let (u, v) = (float(t.radial_overflow), float(t.axial_overflow));
            scalar(float(t.interior) + (u * u + v * v).sqrt())
        },
        wedge: |p: P| {
            let half = float(spec.wedge_bite) * 0.5;
            scalar(p[0] * -half.sin() + p[2].abs() * half.cos())
        },
        sphere: |p: P, b: Bubble| {
            let (c, r) = sphere(spec, b);
            scalar(distance(p, c) - r)
        },
    };
    float(cheese_field(spec, &measures, p))
}

fn with_bite(bite: f32, holes: usize) -> CheeseSpec {
    CheeseSpec {
        wedge_bite: scalar(bite),
        hole_count: holes,
        ..CheeseSpec::default()
    }
}

#[test]
fn default_wheel() {
    let spec = CheeseSpec::default();
    assert_eq!(float(spec.wheel_radius), 1.0);
    assert_eq!(float(spec.wheel_height), 0.8);
    assert_eq!(float(spec.wedge_bite), std::f32::consts::PI);
    assert_eq!(spec.hole_count, 14);
    assert_eq!(float(spec.hole_radius.0), 0.06);
    assert_eq!(float(spec.hole_radius.1), 0.16);
    assert_eq!(spec.hole_seed, spec.wedge_bite);
}

#[test]
fn overshoot_is_split_into_terms() {
    let inside = split_overshoot(scalar(-0.5), scalar(-0.25));
    assert_eq!(float(inside.interior), -0.25);
    assert_eq!(float(inside.radial_overflow), 0.0);
    assert_eq!(float(inside.axial_overflow), 0.0);

    let above = split_overshoot(scalar(-0.5), scalar(0.25));
    assert_eq!(float(above.interior), 0.0);
    assert_eq!(float(above.radial_overflow), 0.0);
    assert_eq!(float(above.axial_overflow), 0.25);

    let corner = split_overshoot(scalar(3.0), scalar(4.0));
    assert_eq!(float(corner.interior), 0.0);
    assert_eq!(float(corner.radial_overflow), 3.0);
    assert_eq!(float(corner.axial_overflow), 4.0);
}

#[test]
fn cylinder_distance_joins_the_terms() {
    let measures = Measures {
        overshoot: |p: (f32, f32)| (scalar(p.0), scalar(p.1)),
        join: |t: CapTerms| {
            let (u, v) = (float(t.radial_overflow), float(t.axial_overflow));
            scalar(float(t.interior) + (u * u + v * v).sqrt())
        },
        wedge: (),
        sphere: (),
    };
    assert_eq!(float(sd_capped_cylinder(&measures, (3.0, 4.0))), 5.0);
    assert_eq!(float(sd_capped_cylinder(&measures, (-3.0, 4.0))), 4.0);
    assert_eq!(float(sd_capped_cylinder(&measures, (-3.0, -4.0))), -3.0);
    assert_eq!(float(sd_capped_cylinder(&measures, (0.0, -4.0))), 0.0);
}

#[test]
fn subtraction_is_a_maximum() {
    assert_eq!(float(subtract(scalar(-1.0), scalar(2.0))), -1.0);
    assert_eq!(float(subtract(scalar(-3.0), scalar(2.0))), -2.0);
    assert_eq!(float(subtract(scalar(-1.0), scalar(-2.0))), 2.0);
    assert_eq!(float(subtract(scalar(5.0), scalar(-2.0))), 5.0);
}

#[test]
fn field_of_a_round_without_holes_is_the_cylinder() {
    let round = with_bite(0.0, 0);
    assert_eq!(field(&round, [0.0, 0.0, 0.0]), -0.4);
    assert_eq!(field(&round, [0.5, 0.0, 0.0]), -0.4);
    assert_eq!(field(&round, [2.0, 0.0, 0.0]), 1.0);
    assert_eq!(field(&round, [0.0, 1.4, 0.0]), 1.0);
    assert_eq!(field(&round, [0.875, 0.0, 0.0]), -0.125);
}

#[test]
fn a_bite_removes_a_slice() {
    let quarter_left = with_bite(std::f32::consts::TAU - std::f32::consts::FRAC_PI_2, 0);
    assert!(field(&quarter_left, [-0.5, 0.0, 0.0]) < 0.0);
    assert!(field(&quarter_left, [0.5, 0.0, 0.0]) > 0.0);
    assert!(field(&quarter_left, [0.0, 0.0, 0.5]) > 0.0);
    assert!(field(&quarter_left, [0.0, 0.0, -0.5]) > 0.0);

    let nibble = with_bite(std::f32::consts::FRAC_PI_3, 0);
    assert!(field(&nibble, [0.5, 0.0, 0.0]) > 0.0);
    assert!(field(&nibble, [0.0, 0.0, 0.5]) < 0.0);
    assert!(field(&nibble, [0.0, 0.0, -0.5]) < 0.0);
    assert!(field(&nibble, [-0.5, 0.0, 0.0]) < 0.0);
}

#[test]
fn a_tiny_bite_is_no_bite() {
    for bite in [0.0f32, -0.0, 1e-4, 5e-5, -1.0, f32::NAN] {
        let spec = with_bite(bite, 0);
        assert!(!spec.has_bite(), "{}", bite);
        assert_eq!(field(&spec, [0.5, 0.0, 0.0]), -0.4);
    }
    assert!(with_bite(1.0001e-4, 0).has_bite());
    assert!(with_bite(0.1, 0).has_bite());
}

#[test]
fn a_wedge_is_not_measured_where_there_is_none() {
    let round = with_bite(0.0, 0);
    let measures = Measures {
        overshoot: |_: ()| (scalar(-1.0), scalar(-2.0)),
        join: |t: CapTerms| t.interior,
        wedge: |_: ()| -> Scalar { panic!("there is no wedge") },
        sphere: |_: (), _: Bubble| -> Scalar { panic!("there is no bubble") },
    };
    assert_eq!(float(cheese_field(&round, &measures, ())), -1.0);
}

#[test]
fn field_is_the_maximum_of_its_parts() {
    let spec = CheeseSpec {
        hole_seed: scalar(0.6180339887),
        ..with_bite(1.25, 14)
    };
    let bare = with_bite(1.25, 0);
    for x in -6..=6 {
        for y in -3..=3 {
            for z in -6..=6 {
                let p = [x as f32 * 0.21, y as f32 * 0.17, z as f32 * 0.19];
                let mut expected = field(&bare, p);
                for i in 0..14 {
                    let (c, r) = sphere(&spec, swiss_cheese::bubble(&spec, i));
                    expected = expected.max(-(distance(p, c) - r));
                }
                assert_eq!(field(&spec, p).to_bits(), expected.to_bits());
            }
        }
    }
}

#[test]
fn the_middle_of_a_bubble_is_empty() {
    let spec = with_bite(1.25, 14);
    for i in 0..14 {
        let (c, r) = sphere(&spec, swiss_cheese::bubble(&spec, i));
        assert!(field(&spec, c) >= r);
    }
}

#[test]
fn fewer_holes_keep_more_cheese() {
    let full = with_bite(1.25, 14);
    let thin = with_bite(1.25, 7);
    for x in -8..=8 {
        for z in -8..=8 {
            let p = [x as f32 * 0.12, 0.05, z as f32 * 0.12];
            assert!(field(&thin, p) <= field(&full, p));
        }
    }
}
