use harmonic_grid::{GridCell, Weight};

#[test]
fn fresh_cell_is_uninitialized() {
    assert!(GridCell::Uninitialized.uninitialized());
    assert!(!GridCell::Exterior.uninitialized());
    assert!(!GridCell::Boundary(0).uninitialized());
    assert!(!GridCell::Interior(4).uninitialized());
}

#[test]
fn mark_boundary_allocates_zeroed_run() {
    let mut data: Vec<Weight> = vec![Weight { bits: 5 }];
    let mut cell = GridCell::Uninitialized;
    cell.mark_boundary(&mut data, 3);
    assert_eq!(cell, GridCell::Boundary(1));
    assert_eq!(data.len(), 4);
    assert_eq!(data[0], Weight { bits: 5 });
    assert_eq!(f32::from_bits(data[1].bits), 0.0);
    assert_eq!(data[3], Weight { bits: 0 });
}

#[test]
fn mark_boundary_twice_keeps_the_run_in_place() {
    let mut data: Vec<Weight> = Vec::new();
    let mut first = GridCell::Uninitialized;
    let mut second = GridCell::Uninitialized;
    first.mark_boundary(&mut data, 2);
    second.mark_boundary(&mut data, 2);
    data[0] = Weight { bits: 7 };
    data[3] = Weight { bits: 9 };
    let before = data.clone();
    first.mark_boundary(&mut data, 2);
    second.mark_boundary(&mut data, 2);
    assert_eq!(first, GridCell::Boundary(0));
    assert_eq!(second, GridCell::Boundary(2));
    assert_eq!(data, before);
}

#[test]
fn mark_boundary_with_no_vertices_allocates_nothing() {
    let mut data: Vec<Weight> = Vec::new();
    let mut cell = GridCell::Uninitialized;
    cell.mark_boundary(&mut data, 0);
    assert_eq!(cell, GridCell::Boundary(0));
    assert!(data.is_empty());
}

#[test]
fn get_boundary_lends_the_run_of_the_cell() {
    let mut data: Vec<Weight> = (0..9).map(|bits| Weight { bits }).collect();
    let run = GridCell::Boundary(3).get_boundary(&mut data, 3);
    assert_eq!(run.len(), 3);
    assert_eq!(run[0], Weight { bits: 3 });
    assert_eq!(run[2], Weight { bits: 5 });
    run[1] = Weight { bits: 40 };
    let bits: Vec<u32> = data.iter().map(|w| w.bits).collect();
    assert_eq!(bits, vec![0, 1, 2, 3, 40, 5, 6, 7, 8]);
}

#[test]
fn get_boundary_serves_interior_cells_too() {
    let mut data: Vec<Weight> = (0..4).map(|bits| Weight { bits }).collect();
    let run = GridCell::Interior(2).get_boundary(&mut data, 2);
    run[0] = Weight { bits: 20 };
    run[1] = Weight { bits: 30 };
    let bits: Vec<u32> = data.iter().map(|w| w.bits).collect();
    assert_eq!(bits, vec![0, 1, 20, 30]);
}

#[test]
fn get_boundary_of_an_empty_run_is_empty() {
    let mut data: Vec<Weight> = vec![Weight { bits: 1 }];
    assert!(GridCell::Boundary(1).get_boundary(&mut data, 0).is_empty());
    assert_eq!(data, vec![Weight { bits: 1 }]);
}
