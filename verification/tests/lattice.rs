use glam::UVec3;
use harmonic_grid::lattice::{index_in, neighbours, position_at};

#[test]
fn index_is_x_major_then_y_then_z() {
    let dims = UVec3::new(2, 3, 4);
    assert_eq!(index_in(dims, UVec3::new(0, 0, 0)), Some(0));
    assert_eq!(index_in(dims, UVec3::new(0, 0, 3)), Some(3));
    assert_eq!(index_in(dims, UVec3::new(0, 1, 0)), Some(4));
    assert_eq!(index_in(dims, UVec3::new(1, 0, 0)), Some(12));
    assert_eq!(index_in(dims, UVec3::new(1, 2, 3)), Some(23));
}

#[test]
fn index_outside_the_grid_is_none() {
    let dims = UVec3::new(2, 3, 4);
    assert_eq!(index_in(dims, UVec3::new(2, 0, 0)), None);
    assert_eq!(index_in(dims, UVec3::new(0, 3, 0)), None);
    assert_eq!(index_in(dims, UVec3::new(0, 0, 4)), None);
    assert_eq!(index_in(dims, UVec3::new(u32::MAX, 0, 0)), None);
}

#[test]
fn position_undoes_index() {
    let dims = UVec3::new(3, 2, 5);
    for i in 0..30usize {
        let p = position_at(dims, i);
        assert_eq!(index_in(dims, p), Some(i));
    }
    assert_eq!(position_at(dims, 17), UVec3::new(1, 1, 2));
}

#[test]
fn neighbours_of_a_corner_in_order() {
    let dims = UVec3::new(3, 3, 3);
    let list = neighbours(dims, UVec3::new(0, 0, 0));
    assert_eq!(list, vec![UVec3::new(1, 0, 0), UVec3::new(0, 1, 0), UVec3::new(0, 0, 1)]);
}

#[test]
fn neighbours_of_the_centre_in_order() {
    let dims = UVec3::new(3, 3, 3);
    let list = neighbours(dims, UVec3::new(1, 1, 1));
    assert_eq!(
        list,
        vec![
            UVec3::new(2, 1, 1),
            UVec3::new(1, 2, 1),
            UVec3::new(1, 1, 2),
            UVec3::new(0, 1, 1),
            UVec3::new(1, 0, 1),
            UVec3::new(1, 1, 0),
        ]
    );
}

#[test]
fn neighbours_in_a_grid_of_one_voxel() {
    let list = neighbours(UVec3::new(1, 1, 1), UVec3::new(0, 0, 0));
    assert!(list.is_empty());
}
