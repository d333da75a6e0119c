use glam::{UVec3, Vec3};
use harmonic_grid::{Cage, Grid, Relaxation, Weight};
use std::cell::RefCell;

fn w(x: f32) -> Weight {
    Weight { bits: x.to_bits() }
}

fn f(weight: Weight) -> f32 {
    f32::from_bits(weight.bits)
}

fn mean(values: [Weight; 6], count: usize) -> Weight {
    let mut sum = 0.0f32;
    for value in &values[..count] {
        sum += f(*value);
    }
    w(sum / count as f32)
}

fn mean_change(before: &Vec<Weight>, after: &Vec<Weight>, updated: usize) -> f32 {
    let mut sum = 0.0f32;
    for (old, new) in before.iter().zip(after.iter()) {
        sum += (f(*new) - f(*old)).abs();
    }
    sum / updated as f32
}

fn cage() -> Cage {
    Cage {
        vertices: vec![Vec3::new(0.0, 0.0, 0.0), Vec3::new(1.0, 1.0, 1.0)],
        faces: vec![],
    }
}

/// A row of voxels: a wall at each end, interior between.
fn row(length: u32, left: [f32; 2], right: [f32; 2]) -> Grid {
    let mut grid = Grid::new(UVec3::new(length, 1, 1), cage()).unwrap();
    grid.mark_triangle(UVec3::new(0, 0, 0), [0, 1, 1], [w(left[0]), w(0.0), w(left[1])]);
    grid.mark_triangle(
        UVec3::new(length - 1, 0, 0),
        [0, 1, 1],
        [w(right[0]), w(0.0), w(right[1])],
    );
    grid.fill_exterior();
    grid.mark_interior();
    grid
}

#[test]
fn pass_averages_the_neighbours_of_each_interior_voxel() {
    let mut grid = row(3, [1.0, 4.0], [3.0, 0.0]);
    let snapshot = grid.smooth_pass(&mean);
    assert_eq!(snapshot, vec![w(1.0), w(4.0), w(3.0), w(0.0), w(0.0), w(0.0)]);
    assert_eq!(grid.coordinates(UVec3::new(1, 0, 0)), Some(vec![w(2.0), w(2.0)]));
    assert_eq!(grid.coordinates(UVec3::new(0, 0, 0)), Some(vec![w(1.0), w(4.0)]));
    assert_eq!(grid.coordinates(UVec3::new(2, 0, 0)), Some(vec![w(3.0), w(0.0)]));
}

#[test]
fn pass_reads_the_state_before_the_pass() {
    // Both interior voxels start at zero. With values read from before the
    // pass, each sees its interior neighbour as zero.
    let mut grid = row(4, [8.0, 0.0], [4.0, 0.0]);
    grid.smooth_pass(&mean);
    assert_eq!(grid.coordinates(UVec3::new(1, 0, 0)), Some(vec![w(4.0), w(0.0)]));
    assert_eq!(grid.coordinates(UVec3::new(2, 0, 0)), Some(vec![w(2.0), w(0.0)]));
    grid.smooth_pass(&mean);
    assert_eq!(grid.coordinates(UVec3::new(1, 0, 0)), Some(vec![w(5.0), w(0.0)]));
    assert_eq!(grid.coordinates(UVec3::new(2, 0, 0)), Some(vec![w(4.0), w(0.0)]));
}

#[test]
fn pass_hands_over_the_neighbours_in_axis_order() {
    let mut grid = Grid::new(UVec3::new(3, 3, 3), cage()).unwrap();
    let mut tag = 1.0f32;
    for x in 0..3 {
        for y in 0..3 {
            for z in 0..3 {
                if (x, y, z) != (1, 1, 1) {
                    grid.mark_triangle(UVec3::new(x, y, z), [0, 0, 0], [w(tag), w(tag), w(tag)]);
                }
                tag += 1.0;
            }
        }
    }
    grid.fill_exterior();
    grid.mark_interior();
    let seen: RefCell<Vec<(Vec<f32>, usize)>> = RefCell::new(Vec::new());
    grid.smooth_pass(&|values: [Weight; 6], count: usize| {
        seen.borrow_mut().push((values.iter().map(|v| f(*v)).collect(), count));
        w(0.5)
    });
    let seen = seen.into_inner();
    // One interior voxel, two channels. The tag of voxel (x, y, z) is
    // 9x + 3y + z + 1.
    assert_eq!(seen.len(), 2);
    assert_eq!(seen[0], (vec![23.0, 17.0, 15.0, 5.0, 11.0, 13.0], 6));
    assert_eq!(seen[1], (vec![0.0, 0.0, 0.0, 0.0, 0.0, 0.0], 6));
    assert_eq!(grid.coordinates(UVec3::new(1, 1, 1)), Some(vec![w(0.5), w(0.5)]));
}

#[test]
fn relaxation_stops_once_settled() {
    let mut grid = row(3, [1.0, 4.0], [3.0, 0.0]);
    let outcome = grid.smooth_basic(100, mean, |before, after, updated| {
        mean_change(before, after, updated) <= 0.0
    });
    assert_eq!(outcome, Relaxation { iterations: 2, converged: true });
    assert_eq!(grid.coordinates(UVec3::new(1, 0, 0)), Some(vec![w(2.0), w(2.0)]));
}

#[test]
fn relaxation_tells_settled_the_number_of_interior_weights() {
    let mut grid = row(5, [1.0, 4.0], [3.0, 0.0]);
    let told: RefCell<Vec<(usize, usize, usize)>> = RefCell::new(Vec::new());
    grid.smooth_basic(3, mean, |before, after, updated| {
        told.borrow_mut().push((before.len(), after.len(), updated));
        false
    });
    assert_eq!(told.into_inner(), vec![(10, 10, 6), (10, 10, 6), (10, 10, 6)]);
}

#[test]
fn relaxation_ends_at_the_cap_when_never_settled() {
    let mut grid = row(6, [1.0, 0.0], [0.0, 1.0]);
    let outcome = grid.smooth_basic(25, mean, |before, after, updated| {
        mean_change(before, after, updated) < 0.0
    });
    assert_eq!(outcome, Relaxation { iterations: 25, converged: false });
    assert_eq!(grid.coordinates(UVec3::new(0, 0, 0)), Some(vec![w(1.0), w(0.0)]));
    assert_eq!(grid.coordinates(UVec3::new(5, 0, 0)), Some(vec![w(0.0), w(1.0)]));
}

#[test]
fn relaxation_with_cap_zero_makes_no_pass() {
    let mut grid = row(3, [1.0, 4.0], [3.0, 0.0]);
    let outcome = grid.smooth_basic(0, mean, |_before, _after, _updated| true);
    assert_eq!(outcome, Relaxation { iterations: 0, converged: false });
    assert_eq!(grid.coordinates(UVec3::new(1, 0, 0)), Some(vec![w(0.0), w(0.0)]));
}

#[test]
fn relaxation_leaves_the_boundary_bit_for_bit() {
    let odd = f32::from_bits(0x7fc0_1234);
    let mut grid = row(4, [odd, -0.0], [1.0e-40, 3.5]);
    let left = grid.coordinates(UVec3::new(0, 0, 0)).unwrap();
    let right = grid.coordinates(UVec3::new(3, 0, 0)).unwrap();
    assert_eq!(left[0].bits, 0x7fc0_1234);
    assert_eq!(left[1].bits, 0x8000_0000);
    grid.smooth_basic(10, mean, |_before, _after, _updated| false);
    assert_eq!(grid.coordinates(UVec3::new(0, 0, 0)), Some(left));
    assert_eq!(grid.coordinates(UVec3::new(3, 0, 0)), Some(right));
}

#[test]
fn relaxation_approaches_the_linear_ramp() {
    let mut grid = row(5, [0.0, 4.0], [4.0, 0.0]);
    let outcome = grid.smooth_basic(10_000, mean, |before, after, updated| {
        mean_change(before, after, updated) <= 1.0e-7
    });
    assert!(outcome.converged);
    for x in 1..4 {
        let at = grid.coordinates(UVec3::new(x, 0, 0)).unwrap();
        assert!((f(at[0]) - x as f32).abs() < 1.0e-4);
        assert!((f(at[1]) - (4 - x) as f32).abs() < 1.0e-4);
    }
}

#[test]
fn interior_count_counts_interior_voxels() {
    assert_eq!(row(5, [0.0, 0.0], [0.0, 0.0]).interior_count(), 3);
    assert_eq!(row(2, [0.0, 0.0], [0.0, 0.0]).interior_count(), 0);
}

#[test]
fn one_pass_starts_from_the_state_at_entry() {
    let mut grid = row(4, [8.0, 0.0], [4.0, 0.0]);
    let outcome = grid.smooth_basic(5, mean, |_before, _after, _updated| true);
    assert_eq!(outcome, Relaxation { iterations: 1, converged: true });
    assert_eq!(grid.coordinates(UVec3::new(1, 0, 0)), Some(vec![w(4.0), w(0.0)]));
    assert_eq!(grid.coordinates(UVec3::new(2, 0, 0)), Some(vec![w(2.0), w(0.0)]));
}

#[test]
fn relaxation_goes_on_until_settled_says_yes() {
    let mut grid = row(4, [8.0, 0.0], [4.0, 0.0]);
    let passes: RefCell<Vec<(Vec<f32>, Vec<f32>)>> = RefCell::new(Vec::new());
    let outcome = grid.smooth_basic(9, mean, |before, after, _updated| {
        let numbers = |weights: &Vec<Weight>| weights.iter().map(|x| f(*x)).collect::<Vec<f32>>();
        passes.borrow_mut().push((numbers(before), numbers(after)));
        passes.borrow().len() == 3
    });
    assert_eq!(outcome, Relaxation { iterations: 3, converged: true });
    let passes = passes.into_inner();
    // Runs: voxel 0 at 0, voxel 3 at 2, voxel 1 at 4, voxel 2 at 6.
    assert_eq!(passes[0].0, vec![8.0, 0.0, 4.0, 0.0, 0.0, 0.0, 0.0, 0.0]);
    assert_eq!(passes[0].1, vec![8.0, 0.0, 4.0, 0.0, 4.0, 0.0, 2.0, 0.0]);
    assert_eq!(passes[1].0, passes[0].1);
    assert_eq!(passes[1].1, vec![8.0, 0.0, 4.0, 0.0, 5.0, 0.0, 4.0, 0.0]);
    assert_eq!(passes[2].0, passes[1].1);
    assert_eq!(passes[2].1, vec![8.0, 0.0, 4.0, 0.0, 6.0, 0.0, 4.5, 0.0]);
}

#[test]
fn blend_is_asked_with_six_values_at_most() {
    let mut grid = row(5, [1.0, 4.0], [3.0, 0.0]);
    let most: RefCell<usize> = RefCell::new(0);
    grid.smooth_pass(&|values: [Weight; 6], count: usize| {
        let mut seen = most.borrow_mut();
        *seen = (*seen).max(count);
        mean(values, count)
    });
    assert_eq!(most.into_inner(), 2);
}

#[test]
fn relaxations_that_are_not_offered_change_nothing() {
    let mut grid = row(4, [8.0, 0.0], [4.0, 0.0]);
    grid.smooth_pass(&mean);
    let before: Vec<_> = (0..4).map(|x| grid.coordinates(UVec3::new(x, 0, 0))).collect();
    grid.smooth_threads(w(0.0));
    grid.smooth_gpu(w(0.0));
    let after: Vec<_> = (0..4).map(|x| grid.coordinates(UVec3::new(x, 0, 0))).collect();
    assert_eq!(before, after);
    assert_eq!(grid.interior_count(), 2);
}
