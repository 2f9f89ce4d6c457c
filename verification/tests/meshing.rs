use bevy::math::Vec3;
use bevy::mesh::{Indices, Mesh, PrimitiveTopology, VertexAttributeValues};
use swiss_cheese::{build_cheese_mesh, cheese_field, surface_nets, Around, Bubble, CapTerms, CheeseSpec, Crossing, Embedding, Measures, Scalar};

fn scalar(x: f32) -> Scalar {
    Scalar { bits: x.to_bits() }
}

fn float(s: Scalar) -> f32 {
    f32::from_bits(s.bits)
}

/// A wheel whose bubbles are flat sheets, which is all that the packing needs.
fn measures() -> Measures<
    impl Fn(Vec3) -> (Scalar, Scalar),
    impl Fn(CapTerms) -> Scalar,
    impl Fn(Vec3) -> Scalar,
    impl Fn(Vec3, Bubble) -> Scalar,
> {
    Measures {
        overshoot: |p: Vec3| (scalar(p.x.hypot(p.z) - 1.0), scalar(p.y.abs() - 0.4)),
        join: |t: CapTerms| {
            scalar(float(t.interior) + float(t.radial_overflow).hypot(float(t.axial_overflow)))
        },
        wedge: |p: Vec3| scalar(-p.x),
        sphere: |p: Vec3, b: Bubble| scalar((p.z - float(b.radial) * 0.5).abs() - 0.02),
    }
}

fn embedding(
    res: usize,
) -> Embedding<
    impl Fn(usize, usize, usize) -> Vec3,
    impl Fn(&Vec<Crossing>) -> Vec3,
    impl Fn(Vec3) -> Around<Vec3>,
    impl Fn(Around<Scalar>) -> Vec3,
> {
    let at = move |n: usize| -1.26 + 2.52 * n as f32 / res as f32;
    Embedding {
        corner: move |i: usize, j: usize, k: usize| Vec3::new(at(i), at(j), at(k)),
        place: move |found: &Vec<Crossing>| {
            Vec3::new(at(found[0].a.i), at(found[0].a.j), at(found[0].a.k))
        },
        around: |p: Vec3| {
            let e = 0.0015;
            Around {
                x: (p + Vec3::X * e, p - Vec3::X * e),
                y: (p + Vec3::Y * e, p - Vec3::Y * e),
                z: (p + Vec3::Z * e, p - Vec3::Z * e),
            }
        },
        slope: |v: Around<Scalar>| {
            Vec3::new(
                float(v.x.0) - float(v.x.1),
                float(v.y.0) - float(v.y.1),
                float(v.z.0) - float(v.z.1),
            )
        },
    }
}

fn indices(mesh: &Mesh) -> Vec<u32> {
    match mesh.indices() {
        Some(Indices::U32(indices)) => indices.clone(),
        _ => panic!("the mesh has no 32-bit indices"),
    }
}

fn positions(mesh: &Mesh) -> Vec<[f32; 3]> {
    match mesh.attribute(Mesh::ATTRIBUTE_POSITION) {
        Some(VertexAttributeValues::Float32x3(values)) => values.clone(),
        _ => panic!("the mesh has no positions"),
    }
}

fn normals(mesh: &Mesh) -> Vec<[f32; 3]> {
    match mesh.attribute(Mesh::ATTRIBUTE_NORMAL) {
        Some(VertexAttributeValues::Float32x3(values)) => values.clone(),
        _ => panic!("the mesh has no normals"),
    }
}

fn uvs(mesh: &Mesh) -> Vec<[f32; 2]> {
    match mesh.attribute(Mesh::ATTRIBUTE_UV_0) {
        Some(VertexAttributeValues::Float32x2(values)) => values.clone(),
        _ => panic!("the mesh has no texture coordinates"),
    }
}

fn three_holes() -> CheeseSpec {
    CheeseSpec {
        hole_count: 3,
        ..CheeseSpec::default()
    }
}

#[test]
fn the_mesh_holds_the_surface() {
    let spec = three_holes();
    let res = 12;
    let mesh = build_cheese_mesh(&spec, res, &measures(), &embedding(res));
    let m = measures();
    let (expected_positions, expected_normals, expected_indices) =
        surface_nets(|p: Vec3| cheese_field(&spec, &m, p), res, &embedding(res));
    assert!(!expected_indices.is_empty());
    let plain = |all: &[Vec3]| all.iter().map(|v| [v.x, v.y, v.z]).collect::<Vec<_>>();
    assert_eq!(positions(&mesh), plain(&expected_positions));
    assert_eq!(normals(&mesh), plain(&expected_normals));
    assert_ne!(positions(&mesh), normals(&mesh));
    assert_eq!(indices(&mesh), expected_indices);
    assert_eq!(mesh.primitive_topology(), PrimitiveTopology::TriangleList);
}

#[test]
fn texture_coordinates_are_there_and_all_zero() {
    for res in [1, 4, 9] {
        let mesh = build_cheese_mesh(&three_holes(), res, &measures(), &embedding(res));
        let found = uvs(&mesh);
        assert_eq!(found.len(), positions(&mesh).len());
        assert!(found.iter().all(|uv| uv[0].to_bits() == 0 && uv[1].to_bits() == 0));
    }
}

#[test]
fn a_mesh_without_cells_is_empty() {
    let mesh = build_cheese_mesh(&CheeseSpec::default(), 0, &measures(), &embedding(1));
    assert!(positions(&mesh).is_empty());
    assert!(normals(&mesh).is_empty());
    assert!(uvs(&mesh).is_empty());
    assert!(indices(&mesh).is_empty());
}

#[test]
fn the_same_spec_gives_the_same_wheel() {
    let spec = CheeseSpec::default();
    let res = 9;
    let mesh = build_cheese_mesh(&spec, res, &measures(), &embedding(res));
    let other = build_cheese_mesh(&spec, res, &measures(), &embedding(res));
    assert!(!indices(&mesh).is_empty());
    assert_eq!(positions(&mesh), positions(&other));
    assert_eq!(normals(&mesh), normals(&other));
    assert_eq!(indices(&mesh), indices(&other));
}

#[test]
fn a_wheel_that_fits_its_box_is_watertight() {
    for res in [1, 2, 5, 12, 16] {
        let mesh = build_cheese_mesh(&three_holes(), res, &measures(), &embedding(res));
        let indices = indices(&mesh);
        let count = positions(&mesh).len();
        assert_eq!(normals(&mesh).len(), count);
        assert!(count <= res * res * res);
        assert_eq!(indices.len() % 3, 0);
        let mut sides = std::collections::HashMap::new();
        for t in indices.chunks(3) {
            for (x, y) in [(t[0], t[1]), (t[1], t[2]), (t[2], t[0])] {
                assert_ne!(x, y);
                assert!((x as usize) < count);
                *sides.entry((x, y)).or_insert(0i32) += 1;
                *sides.entry((y, x)).or_insert(0i32) -= 1;
            }
        }
        assert!(sides.values().all(|&n| n == 0));
        for v in 0..count as u32 {
            assert!(indices.contains(&v));
        }
    }
}
