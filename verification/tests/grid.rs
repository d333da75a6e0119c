use glam::{UVec3, Vec3};
use harmonic_grid::cage::first_degenerate;
use harmonic_grid::{Cage, Grid, GridCell, GridError};
use std::cell::RefCell;

fn tetra() -> Cage {
    Cage {
        vertices: vec![
            Vec3::new(0.0, 0.0, 0.0),
            Vec3::new(1.0, 0.0, 0.0),
            Vec3::new(0.0, 2.0, 0.0),
            Vec3::new(0.0, 0.0, 3.0),
        ],
        faces: vec![[0, 1, 2, 3]],
    }
}

#[test]
fn new_grid_is_unclassified_and_owns_no_weight() {
    let grid = Grid::new(UVec3::new(2, 3, 4), tetra()).unwrap();
    assert_eq!(grid.cell_count(), 24);
    assert_eq!(grid.weight_count(), 0);
    assert_eq!(grid.depth(), 4);
    for x in 0..2 {
        for y in 0..3 {
            for z in 0..4 {
                let p = UVec3::new(x, y, z);
                assert_eq!(grid.classification(p), Some(GridCell::Uninitialized));
                assert_eq!(grid.coordinates(p), None);
            }
        }
    }
}

#[test]
fn new_grid_spans_the_bounding_box() {
    let grid = Grid::new(UVec3::new(2, 2, 2), tetra()).unwrap();
    assert_eq!(grid.min(), Vec3::new(0.0, 0.0, 0.0));
    assert_eq!(grid.max(), Vec3::new(1.0, 2.0, 3.0));
    assert_eq!(grid.dimensions(), UVec3::new(2, 2, 2));
    assert_eq!(grid.cage().vertices.len(), 4);
}

#[test]
fn bounding_box_takes_each_axis_by_itself() {
    let cage = Cage {
        vertices: vec![
            Vec3::new(5.0, -1.0, 2.0),
            Vec3::new(-3.0, 4.0, 2.5),
            Vec3::new(0.0, 0.0, -7.0),
        ],
        faces: vec![],
    };
    let (least, greatest) = cage.bounding_box();
    assert_eq!(least, Vec3::new(-3.0, -1.0, -7.0));
    assert_eq!(greatest, Vec3::new(5.0, 4.0, 2.5));
}

#[test]
fn empty_cage_is_rejected() {
    let cage = Cage { vertices: vec![], faces: vec![] };
    assert_eq!(Grid::new(UVec3::new(2, 2, 2), cage).err(), Some(GridError::EmptyCage));
}

#[test]
fn face_with_missing_vertex_is_rejected() {
    let mut cage = tetra();
    cage.faces.push([0, 1, 2, 4]);
    assert!(!cage.check_faces());
    assert_eq!(Grid::new(UVec3::new(2, 2, 2), cage).err(), Some(GridError::FaceOutOfRange));
}

#[test]
fn faces_in_range_are_accepted() {
    assert!(tetra().check_faces());
}

#[test]
fn zero_resolution_is_rejected() {
    assert_eq!(Grid::new(UVec3::new(2, 0, 2), tetra()).err(), Some(GridError::EmptyResolution));
}

#[test]
fn resolution_beyond_the_machine_is_rejected() {
    let dims = UVec3::new(u32::MAX, u32::MAX, u32::MAX);
    assert_eq!(Grid::new(dims, tetra()).err(), Some(GridError::TooManyCells));
}

#[test]
fn flat_cage_is_rejected() {
    let cage = Cage {
        vertices: vec![
            Vec3::new(0.0, 0.0, 1.0),
            Vec3::new(1.0, 0.0, 1.0),
            Vec3::new(1.0, 1.0, 1.0),
            Vec3::new(0.0, 1.0, 1.0),
        ],
        faces: vec![[0, 1, 2, 3]],
    };
    assert_eq!(Grid::new(UVec3::new(2, 2, 2), cage).err(), Some(GridError::FlatExtent));
}

#[test]
fn cage_flat_along_any_one_axis_is_rejected() {
    for axis in 0..3 {
        let mut vertices = vec![
            Vec3::new(0.0, 0.0, 0.0),
            Vec3::new(1.0, 2.0, 3.0),
            Vec3::new(-1.0, 0.5, 4.0),
        ];
        for vertex in vertices.iter_mut() {
            vertex[axis] = 2.5;
        }
        let cage = Cage { vertices, faces: vec![] };
        assert_eq!(Grid::new(UVec3::new(1, 1, 1), cage).err(), Some(GridError::FlatExtent));
    }
}

#[test]
fn cage_of_one_vertex_is_flat() {
    let cage = Cage { vertices: vec![Vec3::new(1.0, 2.0, 3.0)], faces: vec![] };
    assert_eq!(Grid::new(UVec3::new(1, 1, 1), cage).err(), Some(GridError::FlatExtent));
}

#[test]
fn empty_cage_is_reported_before_zero_resolution() {
    let cage = Cage { vertices: vec![], faces: vec![[0, 0, 0, 0]] };
    assert_eq!(Grid::new(UVec3::new(0, 0, 0), cage).err(), Some(GridError::EmptyCage));
}

#[test]
fn assemble_takes_the_box_as_given() {
    let least = Vec3::new(-1.0, -1.0, -1.0);
    let greatest = Vec3::new(2.0, 2.0, 2.0);
    let grid = Grid::assemble(UVec3::new(1, 1, 1), tetra(), least, greatest, false).unwrap();
    assert_eq!(grid.min(), least);
    assert_eq!(grid.max(), greatest);
    let flat = Grid::assemble(UVec3::new(1, 1, 1), tetra(), least, greatest, true);
    assert_eq!(flat.err(), Some(GridError::FlatExtent));
}

#[test]
fn index_of_follows_the_dimensions() {
    let grid = Grid::new(UVec3::new(2, 3, 4), tetra()).unwrap();
    assert_eq!(grid.index_of(UVec3::new(1, 2, 3)), Some(23));
    assert_eq!(grid.index_of(UVec3::new(1, 0, 0)), Some(12));
    assert_eq!(grid.index_of(UVec3::new(2, 0, 0)), None);
    assert_eq!(grid.classification(UVec3::new(0, 3, 0)), None);
}

#[test]
fn equal_numbers_on_different_axes_do_not_make_a_cage_flat() {
    let cage = Cage {
        vertices: vec![Vec3::new(0.0, 1.0, 2.0), Vec3::new(1.0, 2.0, 3.0)],
        faces: vec![],
    };
    let grid = Grid::new(UVec3::new(1, 1, 1), cage).unwrap();
    assert_eq!(grid.min(), Vec3::new(0.0, 1.0, 2.0));
    assert_eq!(grid.max(), Vec3::new(1.0, 2.0, 3.0));
}

#[test]
fn zeros_of_either_sign_make_a_cage_flat() {
    let cage = Cage {
        vertices: vec![Vec3::new(0.0, 0.0, 0.0), Vec3::new(1.0, -0.0, 1.0)],
        faces: vec![],
    };
    assert_eq!(Grid::new(UVec3::new(1, 1, 1), cage).err(), Some(GridError::FlatExtent));
}

#[test]
fn first_degenerate_asks_face_by_face_and_stops_at_the_first_yes() {
    let cage = Cage {
        vertices: (0..6).map(|i| Vec3::new(i as f32, 0.0, 0.0)).collect(),
        faces: vec![[0, 1, 2, 3], [1, 2, 3, 4], [2, 3, 4, 5]],
    };
    let asked: RefCell<Vec<[f32; 3]>> = RefCell::new(Vec::new());
    let found = first_degenerate(&cage, &|a: Vec3, b: Vec3, c: Vec3| {
        asked.borrow_mut().push([a.x, b.x, c.x]);
        // Only the second triangle of the second face: corners 3, 4, 1.
        a.x == 3.0 && b.x == 4.0
    });
    assert_eq!(found, Some(1));
    assert_eq!(
        asked.into_inner(),
        vec![[0.0, 1.0, 2.0], [2.0, 3.0, 0.0], [1.0, 2.0, 3.0], [3.0, 4.0, 1.0]]
    );
}

#[test]
fn first_degenerate_of_a_sound_cage_is_none() {
    let count: RefCell<usize> = RefCell::new(0);
    let found = first_degenerate(&tetra(), &|_a: Vec3, _b: Vec3, _c: Vec3| {
        *count.borrow_mut() += 1;
        false
    });
    assert_eq!(found, None);
    assert_eq!(count.into_inner(), 2);
}

#[test]
fn first_degenerate_does_not_ask_the_second_triangle_after_a_yes() {
    let count: RefCell<usize> = RefCell::new(0);
    let found = first_degenerate(&tetra(), &|_a: Vec3, _b: Vec3, _c: Vec3| {
        *count.borrow_mut() += 1;
        true
    });
    assert_eq!(found, Some(0));
    assert_eq!(count.into_inner(), 1);
}
