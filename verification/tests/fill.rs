use glam::{UVec3, Vec3};
use harmonic_grid::{Cage, Grid, GridCell, Weight};

fn cage() -> Cage {
    Cage {
        vertices: vec![
            Vec3::new(0.0, 0.0, 0.0),
            Vec3::new(1.0, 0.0, 0.0),
            Vec3::new(0.0, 1.0, 1.0),
        ],
        faces: vec![],
    }
}

fn wall(grid: &mut Grid, cell: UVec3) {
    let one = Weight { bits: 1.0f32.to_bits() };
    grid.mark_triangle(cell, [0, 1, 2], [one, one, one]);
}

#[test]
fn flood_stops_at_a_wall() {
    let mut grid = Grid::new(UVec3::new(5, 1, 1), cage()).unwrap();
    wall(&mut grid, UVec3::new(2, 0, 0));
    grid.fill_exterior();
    assert_eq!(grid.classification(UVec3::new(0, 0, 0)), Some(GridCell::Exterior));
    assert_eq!(grid.classification(UVec3::new(1, 0, 0)), Some(GridCell::Exterior));
    assert_eq!(grid.classification(UVec3::new(2, 0, 0)), Some(GridCell::Boundary(0)));
    assert_eq!(grid.classification(UVec3::new(3, 0, 0)), Some(GridCell::Uninitialized));
    assert_eq!(grid.classification(UVec3::new(4, 0, 0)), Some(GridCell::Uninitialized));
    assert_eq!(grid.weight_count(), 3);
}

#[test]
fn what_the_flood_cannot_reach_becomes_interior() {
    let mut grid = Grid::new(UVec3::new(5, 1, 1), cage()).unwrap();
    wall(&mut grid, UVec3::new(2, 0, 0));
    grid.fill_exterior();
    grid.mark_interior();
    assert_eq!(grid.classification(UVec3::new(0, 0, 0)), Some(GridCell::Exterior));
    assert_eq!(grid.classification(UVec3::new(1, 0, 0)), Some(GridCell::Exterior));
    assert_eq!(grid.classification(UVec3::new(2, 0, 0)), Some(GridCell::Boundary(0)));
    assert_eq!(grid.classification(UVec3::new(3, 0, 0)), Some(GridCell::Interior(3)));
    assert_eq!(grid.classification(UVec3::new(4, 0, 0)), Some(GridCell::Interior(6)));
    assert_eq!(grid.weight_count(), 9);
    let zero = Weight { bits: 0 };
    assert_eq!(grid.coordinates(UVec3::new(3, 0, 0)), Some(vec![zero, zero, zero]));
    assert_eq!(grid.coordinates(UVec3::new(0, 0, 0)), None);
}

#[test]
fn flood_goes_around_a_wall_that_does_not_close() {
    let mut grid = Grid::new(UVec3::new(3, 3, 1), cage()).unwrap();
    wall(&mut grid, UVec3::new(1, 0, 0));
    wall(&mut grid, UVec3::new(1, 1, 0));
    grid.fill_exterior();
    grid.mark_interior();
    for x in 0..3 {
        for y in 0..3 {
            let expected = if x == 1 && y < 2 {
                GridCell::Boundary(3 * y as usize)
            } else {
                GridCell::Exterior
            };
            assert_eq!(grid.classification(UVec3::new(x, y, 0)), Some(expected));
        }
    }
    assert_eq!(grid.weight_count(), 6);
}

#[test]
fn flood_from_a_boundary_seed_marks_nothing() {
    let mut grid = Grid::new(UVec3::new(2, 2, 1), cage()).unwrap();
    wall(&mut grid, UVec3::new(0, 0, 0));
    grid.fill_exterior();
    assert_eq!(grid.classification(UVec3::new(0, 0, 0)), Some(GridCell::Boundary(0)));
    assert_eq!(grid.classification(UVec3::new(1, 0, 0)), Some(GridCell::Uninitialized));
    assert_eq!(grid.classification(UVec3::new(0, 1, 0)), Some(GridCell::Uninitialized));
    assert_eq!(grid.classification(UVec3::new(1, 1, 0)), Some(GridCell::Uninitialized));
    grid.mark_interior();
    assert_eq!(grid.classification(UVec3::new(1, 0, 0)), Some(GridCell::Interior(6)));
    assert_eq!(grid.classification(UVec3::new(0, 1, 0)), Some(GridCell::Interior(3)));
    assert_eq!(grid.classification(UVec3::new(1, 1, 0)), Some(GridCell::Interior(9)));
}

#[test]
fn flood_of_an_empty_grid_reaches_every_voxel() {
    let mut grid = Grid::new(UVec3::new(3, 2, 2), cage()).unwrap();
    grid.fill_exterior();
    for x in 0..3 {
        for y in 0..2 {
            for z in 0..2 {
                assert_eq!(grid.classification(UVec3::new(x, y, z)), Some(GridCell::Exterior));
            }
        }
    }
    assert_eq!(grid.weight_count(), 0);
    grid.mark_interior();
    assert_eq!(grid.weight_count(), 0);
    assert_eq!(grid.interior_count(), 0);
}

#[test]
fn flood_does_not_cross_diagonals() {
    // A diagonal wall in a 2 x 2 sheet parts the two other voxels.
    let mut grid = Grid::new(UVec3::new(2, 2, 1), cage()).unwrap();
    wall(&mut grid, UVec3::new(1, 0, 0));
    wall(&mut grid, UVec3::new(0, 1, 0));
    grid.fill_exterior();
    grid.mark_interior();
    assert_eq!(grid.classification(UVec3::new(0, 0, 0)), Some(GridCell::Exterior));
    assert_eq!(grid.classification(UVec3::new(1, 1, 0)), Some(GridCell::Interior(6)));
}

#[test]
fn second_flood_changes_nothing() {
    let mut grid = Grid::new(UVec3::new(5, 1, 1), cage()).unwrap();
    wall(&mut grid, UVec3::new(2, 0, 0));
    grid.fill_exterior();
    grid.mark_interior();
    grid.fill_exterior();
    grid.mark_interior();
    assert_eq!(grid.classification(UVec3::new(1, 0, 0)), Some(GridCell::Exterior));
    assert_eq!(grid.classification(UVec3::new(3, 0, 0)), Some(GridCell::Interior(3)));
    assert_eq!(grid.weight_count(), 9);
    assert_eq!(grid.interior_count(), 2);
}
