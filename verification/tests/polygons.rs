use bevy::math::Vec3;
use swiss_cheese::nets::{sample_grid, NO_VERTEX};
use swiss_cheese::{field_gradient, stitch, surface_nets, Around, Crossing, Embedding, GridPoint, Net, Scalar};

fn scalar(x: f32) -> Scalar {
    Scalar { bits: x.to_bits() }
}

fn float(s: Scalar) -> f32 {
    f32::from_bits(s.bits)
}

/// The net of a grid whose inner corners are those that `inside` names.
fn net_of(res: usize, inside: impl Fn(usize, usize, usize) -> bool) -> Net {
    let d = res + 1;
    let mut samples = Vec::new();
    for i in 0..d {
        for j in 0..d {
            for k in 0..d {
                samples.push(scalar(if inside(i, j, k) { -1.0 } else { 1.0 }));
            }
        }
    }
    stitch(samples, res)
}

/// How many triangle sides run from one vertex to another, less those that run back.
fn surplus(indices: &[u32], a: u32, b: u32) -> i32 {
    let mut total = 0;
    for t in indices.chunks(3) {
        for (x, y) in [(t[0], t[1]), (t[1], t[2]), (t[2], t[0])] {
            if (x, y) == (a, b) {
                total += 1;
            }
            if (x, y) == (b, a) {
                total -= 1;
            }
        }
    }
    total
}

fn corners(p: &GridPoint) -> [f32; 3] {
    [p.i as f32, p.j as f32, p.k as f32]
}

/// Six times the volume that the triangles enclose, with each vertex at its cell.
fn volume(net: &Net) -> f32 {
    let mut total = 0.0;
    for t in net.indices.chunks(3) {
        let [a, b, c] = [t[0], t[1], t[2]].map(|v| Vec3::from(corners(&net.cells[v as usize])));
        total += a.dot(b.cross(c));
    }
    total
}

#[test]
fn one_inner_corner_makes_a_cube() {
    let net = net_of(2, |i, j, k| (i, j, k) == (1, 1, 1));
    assert_eq!(net.cells.len(), 8);
    assert_eq!(net.indices.len(), 36);
    assert_eq!(volume(&net), 6.0);
    for a in 0..8 {
        for b in 0..8 {
            assert_eq!(surplus(&net.indices, a, b), 0);
        }
    }
}

#[test]
fn vertices_are_numbered_in_walking_order() {
    let net = net_of(2, |i, j, k| (i, j, k) == (1, 1, 1));
    let mut n = 0;
    for i in 0..2 {
        for j in 0..2 {
            for k in 0..2 {
                assert_eq!(net.cells[n], GridPoint { i, j, k });
                n += 1;
            }
        }
    }
}

#[test]
fn triangles_come_by_direction_and_wind_outward() {
    // The x edges into and out of the inner corner, then the y edges, then the z edges.
    let net = net_of(2, |i, j, k| (i, j, k) == (1, 1, 1));
    let expected: Vec<u32> = vec![
        0, 3, 2, 0, 1, 3, 4, 6, 7, 4, 7, 5, // x
        0, 4, 5, 0, 5, 1, 2, 7, 6, 2, 3, 7, // y
        0, 6, 4, 0, 2, 6, 1, 5, 7, 1, 7, 3, // z
    ];
    assert_eq!(net.indices, expected);
}

#[test]
fn an_inner_hole_faces_into_the_hole() {
    let hole = net_of(2, |i, j, k| (i, j, k) != (1, 1, 1));
    assert_eq!(hole.cells.len(), 8);
    assert_eq!(hole.indices.len(), 36);
    assert_eq!(volume(&hole), -6.0);
}

#[test]
fn one_sign_makes_no_surface() {
    for res in 0..4 {
        let full = net_of(res, |_, _, _| true);
        let empty = net_of(res, |_, _, _| false);
        assert!(full.cells.is_empty() && full.indices.is_empty());
        assert!(empty.cells.is_empty() && empty.indices.is_empty());
    }
}

#[test]
fn a_single_cell_has_a_vertex_but_no_triangle() {
    let net = net_of(1, |i, j, k| (i, j, k) == (0, 0, 0));
    assert_eq!(net.cells, vec![GridPoint { i: 0, j: 0, k: 0 }]);
    assert!(net.indices.is_empty());
    let found = net.crossings(0);
    assert_eq!(found.len(), 3);
    assert_eq!(found[0].a, GridPoint { i: 0, j: 0, k: 0 });
    assert_eq!(found[0].b, GridPoint { i: 1, j: 0, k: 0 });
    assert_eq!(found[1].b, GridPoint { i: 0, j: 1, k: 0 });
    assert_eq!(found[2].b, GridPoint { i: 0, j: 0, k: 1 });
    assert_eq!(float(found[2].at_a), -1.0);
    assert_eq!(float(found[2].at_b), 1.0);
}

#[test]
fn a_checkered_cell_is_crossed_everywhere() {
    let net = net_of(1, |i, j, k| (i + j + k) % 2 == 0);
    assert_eq!(net.crossings(0).len(), 12);
}

#[test]
fn zero_is_outside_and_so_is_what_is_no_number() {
    for outside in [0.0f32, -0.0, f32::NAN, f32::INFINITY] {
        let mut samples = vec![scalar(outside); 27];
        samples[13] = scalar(f32::NEG_INFINITY);
        let net = stitch(samples, 2);
        assert_eq!(net.cells.len(), 8);
        assert_eq!(net.indices.len(), 36);
    }
    let net = stitch(vec![scalar(-0.0); 27], 2);
    assert!(net.cells.is_empty());
}

#[test]
fn a_half_space_is_cut_by_one_sheet() {
    // Three layers of cells; the sheet lies in the middle one.
    let net = net_of(3, |i, _, _| i < 2);
    assert_eq!(net.cells.len(), 9);
    assert!(net.cells.iter().all(|c| c.i == 1));
    assert_eq!(net.indices.len(), 4 * 6);
    for t in net.indices.chunks(3) {
        let [a, b, c] = [t[0], t[1], t[2]].map(|v| Vec3::from(corners(&net.cells[v as usize])));
        assert_eq!((b - a).cross(c - a), Vec3::X);
    }
}

fn scattered(i: usize, j: usize, k: usize) -> bool {
    let h = (i * 73856093) ^ (j * 19349663) ^ (k * 83492791);
    (h / 7) % 3 == 0
}

#[test]
fn any_inner_surface_is_closed_and_fully_used() {
    let res = 7;
    let net = net_of(res, |i, j, k| {
        (1..res).contains(&i) && (1..res).contains(&j) && (1..res).contains(&k) && scattered(i, j, k)
    });
    assert!(!net.cells.is_empty());
    let mut sides = std::collections::HashMap::new();
    for t in net.indices.chunks(3) {
        for (x, y) in [(t[0], t[1]), (t[1], t[2]), (t[2], t[0])] {
            assert_ne!(x, y);
            *sides.entry((x, y)).or_insert(0i32) += 1;
            *sides.entry((y, x)).or_insert(0i32) -= 1;
        }
    }
    assert!(sides.values().all(|&n| n == 0));
    for v in 0..net.cells.len() as u32 {
        assert!(net.indices.contains(&v));
    }
    assert!(net.indices.iter().all(|&v| (v as usize) < net.cells.len()));
    assert!(!net.indices.contains(&NO_VERTEX));
    assert!(volume(&net) > 0.0);
}

#[test]
fn two_triangles_for_each_crossed_inner_edge() {
    let res = 6;
    let net = net_of(res, scattered);
    let mut crossed = 0;
    for i in 0..=res {
        for j in 0..=res {
            for k in 0..=res {
                let within = |n: usize| n > 0 && n < res;
                let s = scattered(i, j, k);
                if i < res && within(j) && within(k) && s != scattered(i + 1, j, k) {
                    crossed += 1;
                }
                if j < res && within(i) && within(k) && s != scattered(i, j + 1, k) {
                    crossed += 1;
                }
                if k < res && within(i) && within(j) && s != scattered(i, j, k + 1) {
                    crossed += 1;
                }
            }
        }
    }
    assert!(crossed > 0);
    assert_eq!(net.indices.len(), 6 * crossed);
}

#[test]
fn cells_own_a_vertex_exactly_where_signs_are_mixed() {
    let res = 5;
    let net = net_of(res, scattered);
    let mut n = 0;
    for i in 0..res {
        for j in 0..res {
            for k in 0..res {
                let mut count = 0;
                for c in 0..8 {
                    if scattered(i + c % 2, j + c / 2 % 2, k + c / 4) {
                        count += 1;
                    }
                }
                if count > 0 && count < 8 {
                    assert_eq!(net.cells[n], GridPoint { i, j, k });
                    let found = net.crossings(n);
                    assert!((3..=12).contains(&found.len()));
                    for x in found.iter() {
                        assert_ne!(x.at_a.is_negative(), x.at_b.is_negative());
                    }
                    n += 1;
                }
            }
        }
    }
    assert_eq!(net.cells.len(), n);
}

#[test]
fn samples_are_laid_out_with_the_last_axis_fastest() {
    let samples = sample_grid(
        &|p: (usize, usize, usize)| scalar((p.0 * 100 + p.1 * 10 + p.2) as f32),
        &|i: usize, j: usize, k: usize| (i, j, k),
        2,
    );
    assert_eq!(samples.len(), 27);
    assert_eq!(float(samples[0]), 0.0);
    assert_eq!(float(samples[1]), 1.0);
    assert_eq!(float(samples[3]), 10.0);
    assert_eq!(float(samples[9]), 100.0);
    assert_eq!(float(samples[26]), 222.0);
}

fn embed(
    res: usize,
    lo: Vec3,
    hi: Vec3,
) -> Embedding<
    impl Fn(usize, usize, usize) -> Vec3,
    impl Fn(&Vec<Crossing>) -> Vec3,
    impl Fn(Vec3) -> Around<Vec3>,
    impl Fn(Around<Scalar>) -> Vec3,
> {
    let step = (hi - lo) / res as f32;
    let corner = move |i: usize, j: usize, k: usize| {
        lo + Vec3::new(step.x * i as f32, step.y * j as f32, step.z * k as f32)
    };
    Embedding {
        corner,
        place: move |found: &Vec<Crossing>| {
            let mut acc = Vec3::ZERO;
            let mut count = 0.0f32;
            for x in found {
                let pa = corner(x.a.i, x.a.j, x.a.k);
                let pb = corner(x.b.i, x.b.j, x.b.k);
                let (va, vb) = (float(x.at_a), float(x.at_b));
                acc += pa + (pb - pa) * (va / (va - vb));
                count += 1.0;
            }
            acc / count
        },
        around: |p: Vec3| {
            let e = 0.0015;
            Around {
                x: (p + Vec3::X * e, p - Vec3::X * e),
                y: (p + Vec3::Y * e, p - Vec3::Y * e),
                z: (p + Vec3::Z * e, p - Vec3::Z * e),
            }
        },
        slope: |v: Around<Scalar>| {
            Vec3::new(
                float(v.x.0) - float(v.x.1),
                float(v.y.0) - float(v.y.1),
                float(v.z.0) - float(v.z.1),
            )
            .normalize_or_zero()
        },
    }
}

#[test]
fn a_ball_comes_out_round() {
    let res = 16;
    let ball = |p: Vec3| scalar(p.length() - 0.7);
    let (positions, normals, indices) =
        surface_nets(ball, res, &embed(res, Vec3::splat(-1.0), Vec3::splat(1.0)));
    assert!(!positions.is_empty());
    assert_eq!(positions.len(), normals.len());
    for (p, n) in positions.iter().zip(normals.iter()) {
        assert!((p.length() - 0.7).abs() < 0.02);
        assert!(n.dot(p.normalize()) > 0.999);
    }
    for t in indices.chunks(3) {
        let [a, b, c] = [t[0], t[1], t[2]].map(|v| positions[v as usize]);
        assert!((b - a).cross(c - a).dot(a + b + c) > 0.0);
    }
}

#[test]
fn positions_and_normals_agree_with_the_net() {
    let res = 5;
    let (lo, hi) = (Vec3::splat(-1.0), Vec3::new(1.0, 2.0, 1.5));
    let field = |p: Vec3| scalar(p.x * 0.5 + p.y * p.y - p.z - 0.3);
    let embedding = embed(res, lo, hi);
    let (positions, normals, indices) = surface_nets(field, res, &embedding);
    let net = stitch(sample_grid(&field, &embedding.corner, res), res);
    assert_eq!(indices, net.indices);
    assert_eq!(positions.len(), net.cells.len());
    for v in 0..positions.len() {
        assert_eq!(positions[v], (embedding.place)(&net.crossings(v)));
        assert_eq!(
            normals[v],
            field_gradient(&field, &embedding.around, &embedding.slope, positions[v])
        );
    }
}

#[test]
fn gradient_reads_the_field_on_both_sides_of_each_axis() {
    let field = |p: (i32, i32, i32)| scalar((p.0 + 10 * p.1 + 100 * p.2) as f32);
    let around = |p: (i32, i32, i32)| Around {
        x: ((p.0 + 1, p.1, p.2), (p.0 - 1, p.1, p.2)),
        y: ((p.0, p.1 + 1, p.2), (p.0, p.1 - 1, p.2)),
        z: ((p.0, p.1, p.2 + 1), (p.0, p.1, p.2 - 1)),
    };
    let slope = |v: Around<Scalar>| {
        [
            float(v.x.0) - float(v.x.1),
            float(v.y.0) - float(v.y.1),
            float(v.z.0) - float(v.z.1),
        ]
    };
    assert_eq!(field_gradient(&field, &around, &slope, (4, 5, 6)), [2.0, 20.0, 200.0]);
}

#[test]
fn a_grid_without_cells_has_no_surface() {
    let embedding = embed(1, Vec3::ZERO, Vec3::ONE);
    let (positions, normals, indices) = surface_nets(|_: Vec3| scalar(-1.0), 0, &embedding);
    assert!(positions.is_empty() && normals.is_empty() && indices.is_empty());
}

#[test]
fn vertices_come_by_first_then_second_then_third_coordinate() {
    let net = net_of(6, scattered);
    for pair in net.cells.windows(2) {
        let [a, b] = [&pair[0], &pair[1]];
        assert!((a.i, a.j, a.k) < (b.i, b.j, b.k));
    }
    assert!(net.cells.len() <= 216);
}

#[test]
fn every_triangle_has_three_different_corners() {
    let net = net_of(6, scattered);
    assert_eq!(net.indices.len() % 3, 0);
    for t in net.indices.chunks(3) {
        assert!(t[0] != t[1] && t[1] != t[2] && t[2] != t[0]);
    }
}

#[test]
fn one_odd_corner_is_enough_for_a_surface() {
    for n in 0..27 {
        let net = net_of(2, |i, j, k| (i * 3 + j) * 3 + k == n);
        assert!(!net.cells.is_empty());
    }
}

#[test]
fn a_negated_field_has_its_triangles_turned() {
    let res = 6;
    let field = |p: Vec3| p.length() - 0.7 + 0.2 * (5.0 * p.x).sin();
    let embedding = embed(res, Vec3::splat(-1.1), Vec3::splat(1.1));
    let (p, n, i) = surface_nets(|x: Vec3| scalar(field(x)), res, &embedding);
    let (q, m, j) = surface_nets(|x: Vec3| scalar(-field(x)), res, &embedding);
    assert!(!i.is_empty());
    assert_eq!(p, q);
    assert_eq!(n.len(), m.len());
    for v in 0..n.len() {
        assert_eq!(n[v], -m[v]);
    }
    assert_eq!(i.len(), j.len());
    for (s, t) in i.chunks(3).zip(j.chunks(3)) {
        assert_eq!([s[0], s[1], s[2]], [t[0], t[2], t[1]]);
    }
}

#[test]
fn every_listed_triangle_faces_along_the_edge_it_crosses() {
    let net = net_of(6, scattered);
    assert!(!net.indices.is_empty());
    for t in net.indices.chunks(3) {
        let [a, b, c] = [t[0], t[1], t[2]].map(|v| &net.cells[v as usize]);
        let [p, q, r] = [a, b, c].map(|x| Vec3::from(corners(x)));
        let facing = (q - p).cross(r - p);
        // The cells meet at an edge along one axis; its lower end is their highest corner.
        let i = a.i.max(b.i).max(c.i);
        let j = a.j.max(b.j).max(c.j);
        let k = a.k.max(b.k).max(c.k);
        let end = if facing.x != 0.0 {
            (i + 1, j, k)
        } else if facing.y != 0.0 {
            (i, j + 1, k)
        } else {
            (i, j, k + 1)
        };
        assert_eq!(facing.abs().element_sum(), 1.0);
        let start_inside = scattered(i, j, k);
        assert_ne!(start_inside, scattered(end.0, end.1, end.2));
        assert_eq!(facing.element_sum() > 0.0, start_inside);
    }
}

#[test]
fn a_negated_field_has_its_gradient_turned() {
    let embedding = embed(4, Vec3::ZERO, Vec3::ONE);
    let field = |p: Vec3| scalar(p.x * p.y - p.z);
    let opposite = |p: Vec3| scalar(-(p.x * p.y - p.z));
    for p in [Vec3::ZERO, Vec3::ONE, Vec3::new(0.3, -0.2, 0.7)] {
        let n = field_gradient(&field, &embedding.around, &embedding.slope, p);
        let m = field_gradient(&opposite, &embedding.around, &embedding.slope, p);
        assert_ne!(n, Vec3::ZERO);
        assert_eq!(m, -n);
    }
}
