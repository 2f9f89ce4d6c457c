use swiss_cheese::lattice::{lattice_coordinate, recipe, GRID, TAU, THINNEST_BITE, WHEELS};
use swiss_cheese::{bite_for_cell, chunk_size, mise_en_place, CheeseSpec, Scalar, GRID_RES};

fn float(s: Scalar) -> f32 {
    f32::from_bits(s.bits)
}

fn thinnest() -> f32 {
    std::f32::consts::TAU - std::f32::consts::PI / 125.0
}

#[test]
fn constants_are_what_they_say() {
    assert_eq!(GRID, 5);
    assert_eq!(WHEELS, 125);
    assert_eq!(GRID_RES, 48);
    assert_eq!(THINNEST_BITE, thinnest().to_bits());
    assert_eq!(TAU, std::f32::consts::TAU.to_bits());
}

#[test]
fn bites_ramp_linearly() {
    for n in 0..WHEELS {
        let expected = (n as f32 / 124.0) * thinnest();
        assert_eq!(bite_for_cell(n).bits, expected.to_bits(), "cell {}", n);
    }
}

#[test]
fn ramp_goes_on_behind_the_last_cell() {
    let mut n: usize = 125;
    while n < usize::MAX / 3 {
        let expected = (n as f32 / 124.0) * thinnest();
        assert_eq!(bite_for_cell(n).bits, expected.to_bits(), "cell {}", n);
        n = n * 3 + 1;
    }
    for n in [16777215, 16777216, 16777217, 16777219, usize::MAX - 1, usize::MAX] {
        let expected = (n as f32 / 124.0) * thinnest();
        assert_eq!(bite_for_cell(n).bits, expected.to_bits(), "cell {}", n);
    }
}

#[test]
fn ramp_goes_from_round_to_sliver() {
    assert_eq!(float(bite_for_cell(0)), 0.0);
    assert_eq!(bite_for_cell(124).bits, THINNEST_BITE);
    assert_eq!(float(bite_for_cell(62)), 0.5 * thinnest());
}

#[test]
fn ramp_rises_strictly_and_stays_below_a_turn() {
    for n in 1..WHEELS {
        assert!(bite_for_cell(n - 1).lt(bite_for_cell(n)));
    }
    for n in 0..WHEELS {
        assert!(!bite_for_cell(n).is_negative());
        assert!(bite_for_cell(n).lt(Scalar { bits: TAU }));
    }
}

#[test]
fn coordinates_are_centered() {
    for x in 0..GRID {
        let expected = (x as f32 - 2.0) * 2.8;
        assert_eq!(lattice_coordinate(x).bits, expected.to_bits());
    }
    assert_eq!(float(lattice_coordinate(0)), -5.6);
    assert_eq!(float(lattice_coordinate(2)), 0.0);
    assert_eq!(float(lattice_coordinate(3)), 2.8);
}

#[test]
fn recipes_come_in_the_order_of_their_cells() {
    let all = mise_en_place();
    assert_eq!(all.len(), 125);
    let mut n = 0;
    for x in 0..5usize {
        for y in 0..5usize {
            for z in 0..5usize {
                let r = &all[n];
                assert_eq!(r.cell, n);
                assert_eq!(r.spec.wedge_bite, bite_for_cell(n));
                let expected = [x, y, z].map(|c| (c as f32 - 2.0) * 2.8);
                assert_eq!(float(r.position.0), expected[0]);
                assert_eq!(float(r.position.1), expected[1]);
                assert_eq!(float(r.position.2), expected[2]);
                n += 1;
            }
        }
    }
}

#[test]
fn opposite_corners_are_the_round_and_the_sliver() {
    let first = recipe(0, 0, 0);
    let last = recipe(4, 4, 4);
    assert_eq!(first.cell, 0);
    assert_eq!(float(first.spec.wedge_bite), 0.0);
    assert_eq!(last.cell, 124);
    assert_eq!(last.spec.wedge_bite.bits, THINNEST_BITE);
    assert_eq!(recipe(1, 0, 0).cell, 25);
    assert_eq!(recipe(0, 1, 0).cell, 5);
    assert_eq!(recipe(0, 0, 1).cell, 1);
}

#[test]
fn only_bite_seed_and_the_thin_tail_differ_from_the_default() {
    let plain = CheeseSpec::default();
    for r in mise_en_place() {
        assert_eq!(r.spec.wheel_radius, plain.wheel_radius);
        assert_eq!(r.spec.wheel_height, plain.wheel_height);
        assert_eq!(r.spec.hole_radius, plain.hole_radius);
        assert_eq!(r.spec.hole_seed.bits, 0.6180339887f32.to_bits());
        let holes = if r.cell >= 118 { 7 } else { 14 };
        assert_eq!(r.spec.hole_count, holes, "cell {}", r.cell);
    }
    let all = mise_en_place();
    assert_eq!(all[117].spec.hole_count, 14);
    assert_eq!(all[118].spec.hole_count, 7);
}

#[test]
fn chunks_are_rounded_up_and_never_empty() {
    assert_eq!(chunk_size(125, 1), 125);
    assert_eq!(chunk_size(125, 8), 16);
    assert_eq!(chunk_size(125, 5), 25);
    assert_eq!(chunk_size(125, 124), 2);
    assert_eq!(chunk_size(125, 125), 1);
    assert_eq!(chunk_size(125, 1000), 1);
    assert_eq!(chunk_size(0, 8), 1);
    assert_eq!(chunk_size(usize::MAX, 1), usize::MAX);
    assert_eq!(chunk_size(usize::MAX, 2), usize::MAX / 2 + 1);
}

#[test]
fn no_more_chunks_than_workers() {
    let jobs: Vec<usize> = (0..125).collect();
    for workers in 1..200 {
        let chunks = jobs.chunks(chunk_size(jobs.len(), workers)).count();
        assert!(chunks >= 1 && chunks <= workers);
    }
}
