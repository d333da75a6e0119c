use glam::{UVec3, Vec3};
use harmonic_grid::{Cage, Grid, GridCell, GridError, Relaxation, Weight};

fn w(x: f32) -> Weight {
    Weight { bits: x.to_bits() }
}

fn f(weight: Weight) -> f32 {
    f32::from_bits(weight.bits)
}

fn overlaps(centre: Vec3, extent: Vec3, a: Vec3, b: Vec3, c: Vec3) -> bool {
    let (v0, v1, v2) = (a - centre, b - centre, c - centre);
    let (f0, f1, f2) = (v1 - v0, v2 - v1, v0 - v2);
    let axes = [
        Vec3::X.cross(f0),
        Vec3::X.cross(f1),
        Vec3::X.cross(f2),
        Vec3::Y.cross(f0),
        Vec3::Y.cross(f1),
        Vec3::Y.cross(f2),
        Vec3::Z.cross(f0),
        Vec3::Z.cross(f1),
        Vec3::Z.cross(f2),
        Vec3::X,
        Vec3::Y,
        Vec3::Z,
        f0.cross(f1),
    ];
    for axis in axes {
        let (p0, p1, p2) = (v0.dot(axis), v1.dot(axis), v2.dot(axis));
        let r = extent.x * Vec3::X.dot(axis).abs()
            + extent.y * Vec3::Y.dot(axis).abs()
            + extent.z * Vec3::Z.dot(axis).abs();
        if f32::max(-f32::max(f32::max(p0, p1), p2), f32::min(f32::min(p0, p1), p2)) > r {
            return false;
        }
    }
    true
}

fn barycentric(p: Vec3, a: Vec3, b: Vec3, c: Vec3) -> Vec3 {
    let (v0, v1, v2) = (b - a, c - a, p - a);
    let (d00, d01, d11) = (v0.dot(v0), v0.dot(v1), v1.dot(v1));
    let (d20, d21) = (v2.dot(v0), v2.dot(v1));
    let denom = d00 * d11 - d01 * d01;
    let v = (d11 * d20 - d01 * d21) / denom;
    let w = (d00 * d21 - d01 * d20) / denom;
    Vec3::new(1.0 - v - w, v, w)
}

fn probe(least: Vec3, greatest: Vec3, dims: UVec3) -> impl Fn(UVec3, Vec3, Vec3, Vec3) -> Option<[Weight; 3]> {
    let size = (greatest - least) / dims.as_vec3();
    move |cell, a, b, c| {
        let centre = least + cell.as_vec3() * size + size / 2.0;
        let extent = size / 2.0;
        if overlaps(centre, extent, a, b, c) {
            let at = barycentric(centre, a, b, c);
            Some([w(at.x), w(at.y), w(at.z)])
        } else {
            None
        }
    }
}

fn reach(least: Vec3, greatest: Vec3, dims: UVec3) -> impl Fn(Vec3, Vec3, Vec3) -> (UVec3, UVec3) {
    let size = (greatest - least) / dims.as_vec3();
    move |a, b, c| {
        let first = ((a.min(b).min(c) - least) / size).floor() - Vec3::ONE;
        let last = ((a.max(b).max(c) - least) / size).floor() + Vec3::ONE;
        (first.max(Vec3::ZERO).as_uvec3(), last.max(Vec3::ZERO).as_uvec3())
    }
}

fn degenerate(a: Vec3, b: Vec3, c: Vec3) -> bool {
    !((b - a).cross(c - a).length_squared() > 0.0)
}

fn mean(values: [Weight; 6], count: usize) -> Weight {
    let mut sum = 0.0f32;
    for value in &values[..count] {
        sum += f(*value);
    }
    w(sum / count as f32)
}

fn settled(tau: f32) -> impl Fn(&Vec<Weight>, &Vec<Weight>, usize) -> bool {
    move |before, after, updated| {
        let mut sum = 0.0f32;
        for (old, new) in before.iter().zip(after.iter()) {
            sum += (f(*new) - f(*old)).abs();
        }
        sum / updated as f32 <= tau
    }
}

fn unit_cube() -> Cage {
    let mut vertices = Vec::new();
    for x in 0..2 {
        for y in 0..2 {
            for z in 0..2 {
                vertices.push(Vec3::new(x as f32, y as f32, z as f32));
            }
        }
    }
    // Vertex number is 4x + 2y + z.
    let faces = vec![
        [0, 1, 3, 2],
        [4, 6, 7, 5],
        [0, 4, 5, 1],
        [2, 3, 7, 6],
        [0, 2, 6, 4],
        [1, 5, 7, 3],
    ];
    Cage { vertices, faces }
}

const AROUND: [(u32, u32, u32); 6] =
    [(2, 1, 1), (1, 2, 1), (1, 1, 2), (0, 1, 1), (1, 0, 1), (1, 1, 0)];

#[test]
fn unit_cube_on_three_cubed_has_one_interior_voxel() {
    let dims = UVec3::new(3, 3, 3);
    let mut grid = Grid::new(dims, unit_cube()).unwrap();
    let touch = probe(grid.min(), grid.max(), dims);
    grid.mark_boundaries_simple(degenerate, touch).unwrap();
    grid.fill_exterior();
    grid.mark_interior();
    for x in 0..3 {
        for y in 0..3 {
            for z in 0..3 {
                let cell = grid.classification(UVec3::new(x, y, z)).unwrap();
                if (x, y, z) == (1, 1, 1) {
                    assert!(matches!(cell, GridCell::Interior(_)));
                } else {
                    assert!(matches!(cell, GridCell::Boundary(_) | GridCell::Exterior));
                }
            }
        }
    }
    for (x, y, z) in AROUND {
        let cell = grid.classification(UVec3::new(x, y, z)).unwrap();
        assert!(matches!(cell, GridCell::Boundary(_)));
    }
    assert_eq!(grid.interior_count(), 1);
    assert_eq!(grid.coordinates(UVec3::new(1, 1, 1)), Some(vec![w(0.0); 8]));
}

#[test]
fn unit_cube_centre_relaxes_to_the_mean_of_its_six_neighbours() {
    let dims = UVec3::new(3, 3, 3);
    let cage = unit_cube();
    let (least, greatest) = cage.bounding_box();
    let (grid, outcome) = Grid::build(
        dims,
        cage,
        degenerate,
        reach(least, greatest, dims),
        probe(least, greatest, dims),
        50,
        mean,
        settled(0.0),
    )
    .unwrap();
    assert_eq!(outcome, Relaxation { iterations: 2, converged: true });
    let around: Vec<Vec<Weight>> = AROUND
        .iter()
        .map(|&(x, y, z)| grid.coordinates(UVec3::new(x, y, z)).unwrap())
        .collect();
    let centre = grid.coordinates(UVec3::new(1, 1, 1)).unwrap();
    assert_eq!(centre.len(), 8);
    for k in 0..8 {
        let mut values = [w(0.0); 6];
        for (m, vector) in around.iter().enumerate() {
            values[m] = vector[k];
        }
        assert_eq!(centre[k], mean(values, 6));
    }
    // The centre of each face lies on the diagonal that its two triangles
    // share, so every neighbour's weights sum to one, and so do the centre's.
    let total: f32 = centre.iter().map(|c| f(*c)).sum();
    assert!((total - 1.0).abs() < 1.0e-5);
}

#[test]
fn unit_cube_boundary_is_the_same_before_and_after_relaxation() {
    let dims = UVec3::new(3, 3, 3);
    let mut grid = Grid::new(dims, unit_cube()).unwrap();
    let touch = probe(grid.min(), grid.max(), dims);
    grid.mark_boundaries_simple(degenerate, touch).unwrap();
    grid.fill_exterior();
    grid.mark_interior();
    let before: Vec<Option<Vec<Weight>>> = AROUND
        .iter()
        .map(|&(x, y, z)| grid.coordinates(UVec3::new(x, y, z)))
        .collect();
    let cells: Vec<Option<GridCell>> =
        (0..27).map(|i| grid.classification(UVec3::new(i / 9, (i / 3) % 3, i % 3))).collect();
    let outcome = grid.smooth_basic(7, mean, settled(-1.0));
    assert_eq!(outcome, Relaxation { iterations: 7, converged: false });
    let after: Vec<Option<Vec<Weight>>> = AROUND
        .iter()
        .map(|&(x, y, z)| grid.coordinates(UVec3::new(x, y, z)))
        .collect();
    assert_eq!(before, after);
    for i in 0..27 {
        assert_eq!(grid.classification(UVec3::new(i / 9, (i / 3) % 3, i % 3)), cells[i as usize]);
    }
}

#[test]
fn narrowed_and_simple_rasterisation_agree_on_the_cube() {
    let dims = UVec3::new(4, 5, 3);
    let mut simple = Grid::new(dims, unit_cube()).unwrap();
    let mut narrowed = Grid::new(dims, unit_cube()).unwrap();
    simple.mark_boundaries_simple(degenerate, probe(simple.min(), simple.max(), dims)).unwrap();
    narrowed
        .mark_boundaries(
            degenerate,
            reach(simple.min(), simple.max(), dims),
            probe(simple.min(), simple.max(), dims),
        )
        .unwrap();
    for x in 0..4 {
        for y in 0..5 {
            for z in 0..3 {
                let p = UVec3::new(x, y, z);
                assert_eq!(simple.classification(p), narrowed.classification(p));
                assert_eq!(simple.coordinates(p), narrowed.coordinates(p));
            }
        }
    }
    assert_eq!(simple.weight_count(), narrowed.weight_count());
}

#[test]
fn build_fails_as_new_does() {
    let dims = UVec3::new(3, 3, 3);
    let empty = Cage { vertices: vec![], faces: vec![] };
    let made = Grid::build(
        dims,
        empty,
        degenerate,
        reach(Vec3::ZERO, Vec3::ONE, dims),
        probe(Vec3::ZERO, Vec3::ONE, dims),
        5,
        mean,
        settled(0.0),
    );
    assert_eq!(made.err(), Some(GridError::EmptyCage));
    let made = Grid::build(
        UVec3::new(3, 0, 3),
        unit_cube(),
        degenerate,
        reach(Vec3::ZERO, Vec3::ONE, dims),
        probe(Vec3::ZERO, Vec3::ONE, dims),
        5,
        mean,
        settled(0.0),
    );
    assert_eq!(made.err(), Some(GridError::EmptyResolution));
}

#[test]
fn larger_cube_has_exterior_free_interior() {
    // On a finer grid the cube's faces still fill the outer layer, and the
    // inner voxels are enclosed.
    let dims = UVec3::new(5, 5, 5);
    let cage = unit_cube();
    let (least, greatest) = cage.bounding_box();
    let (grid, _) = Grid::build(
        dims,
        cage,
        degenerate,
        reach(least, greatest, dims),
        probe(least, greatest, dims),
        3,
        mean,
        settled(0.0),
    )
    .unwrap();
    assert_eq!(grid.interior_count(), 27);
    assert_eq!(grid.weight_count(), 8 * 125);
    for x in 0..5 {
        for y in 0..5 {
            for z in 0..5 {
                let inner = (1..4).contains(&x) && (1..4).contains(&y) && (1..4).contains(&z);
                let cell = grid.classification(UVec3::new(x, y, z)).unwrap();
                assert_eq!(matches!(cell, GridCell::Interior(_)), inner);
                assert_eq!(matches!(cell, GridCell::Boundary(_)), !inner);
            }
        }
    }
}

#[test]
fn build_fails_on_the_first_face_without_area() {
    let dims = UVec3::new(3, 3, 3);
    let mut cage = unit_cube();
    // Face 2 gets a triangle (0, 4, 4) and face 4 a triangle (6, 4, 0)
    // with two corners at one place.
    cage.faces[2] = [0, 4, 4, 1];
    cage.vertices.push(Vec3::new(1.0, 1.0, 0.0));
    cage.faces[4] = [0, 2, 6, 8];
    let (least, greatest) = cage.bounding_box();
    let made = Grid::build(
        dims,
        cage,
        degenerate,
        reach(least, greatest, dims),
        |_cell, _a, _b, _c| -> Option<[Weight; 3]> { panic!("no pass is begun") },
        5,
        mean,
        settled(0.0),
    );
    assert_eq!(made.err(), Some(GridError::DegenerateFace(2)));
}

#[test]
fn build_reports_a_flat_box_before_a_face_without_area() {
    let dims = UVec3::new(2, 2, 2);
    let cage = Cage {
        vertices: vec![
            Vec3::new(0.0, 0.0, 0.0),
            Vec3::new(1.0, 0.0, 0.0),
            Vec3::new(1.0, 1.0, 0.0),
            Vec3::new(0.0, 1.0, 0.0),
        ],
        faces: vec![[0, 0, 0, 0]],
    };
    let (least, greatest) = cage.bounding_box();
    let made = Grid::build(
        dims,
        cage,
        degenerate,
        reach(least, greatest, dims),
        probe(least, greatest, dims),
        5,
        mean,
        settled(0.0),
    );
    assert_eq!(made.err(), Some(GridError::FlatExtent));
}

#[test]
fn build_gives_the_grid_the_box_of_the_vertices() {
    let dims = UVec3::new(3, 3, 3);
    let cage = unit_cube();
    let (least, greatest) = cage.bounding_box();
    let (grid, _) = Grid::build(
        dims,
        cage,
        degenerate,
        reach(least, greatest, dims),
        probe(least, greatest, dims),
        1,
        mean,
        settled(0.0),
    )
    .unwrap();
    assert_eq!(grid.min(), Vec3::new(0.0, 0.0, 0.0));
    assert_eq!(grid.max(), Vec3::new(1.0, 1.0, 1.0));
    assert_eq!(grid.dimensions(), dims);
    assert_eq!(grid.cage().vertices, unit_cube().vertices);
    assert_eq!(grid.cage().faces, unit_cube().faces);
}

#[test]
fn one_pass_on_a_box_reads_interior_neighbours_as_they_were_at_entry() {
    let dims = UVec3::new(3, 3, 4);
    let corner = |x: f32, y: f32, z: f32| Vec3::new(x, y, z);
    let cage = Cage {
        vertices: vec![
            corner(0.0, 0.0, 0.0),
            corner(3.0, 0.0, 0.0),
            corner(3.0, 3.0, 0.0),
            corner(0.0, 3.0, 0.0),
            corner(0.0, 0.0, 4.0),
            corner(3.0, 0.0, 4.0),
            corner(3.0, 3.0, 4.0),
            corner(0.0, 3.0, 4.0),
        ],
        faces: vec![
            [0, 3, 2, 1],
            [4, 5, 6, 7],
            [0, 1, 5, 4],
            [3, 7, 6, 2],
            [0, 4, 7, 3],
            [1, 2, 6, 5],
        ],
    };
    let mut grid = Grid::new(dims, cage).unwrap();
    let touch = probe(grid.min(), grid.max(), dims);
    grid.mark_boundaries_simple(degenerate, touch).unwrap();
    grid.fill_exterior();
    grid.mark_interior();
    assert_eq!(grid.interior_count(), 2);
    let left = grid.coordinates(UVec3::new(0, 1, 2)).unwrap();
    let front = grid.coordinates(UVec3::new(1, 0, 2)).unwrap();
    assert_eq!(f(left[0]), 0.5);
    assert_eq!(f(front[0]), 0.375);
    let outcome = grid.smooth_basic(9, mean, |_before, _after, _updated| true);
    assert_eq!(outcome, Relaxation { iterations: 1, converged: true });
    let upper = grid.coordinates(UVec3::new(1, 1, 2)).unwrap();
    let lower = grid.coordinates(UVec3::new(1, 1, 1)).unwrap();
    assert_eq!(f(upper[0]), 0.875 / 6.0);
    assert_eq!(f(lower[0]), 1.625 / 6.0);
}

#[test]
fn second_relaxation_of_the_cube_changes_nothing() {
    let dims = UVec3::new(3, 3, 3);
    let cage = unit_cube();
    let (least, greatest) = cage.bounding_box();
    let (mut grid, first) = Grid::build(
        dims,
        cage,
        degenerate,
        reach(least, greatest, dims),
        probe(least, greatest, dims),
        1,
        mean,
        settled(1.0e-6),
    )
    .unwrap();
    assert_eq!(first, Relaxation { iterations: 1, converged: false });
    let before: Vec<_> =
        (0..27).map(|i| grid.coordinates(UVec3::new(i / 9, (i / 3) % 3, i % 3))).collect();
    let second = grid.smooth_basic(50, mean, settled(1.0e-6));
    assert_eq!(second, Relaxation { iterations: 1, converged: true });
    let after: Vec<_> =
        (0..27).map(|i| grid.coordinates(UVec3::new(i / 9, (i / 3) % 3, i % 3))).collect();
    assert_eq!(before, after);
}
