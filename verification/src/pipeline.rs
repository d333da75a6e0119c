//! The whole pipeline in one call: build the grid, rasterise the cage,
//! classify the voxels and relax the interior.

use vstd::prelude::*;
use glam::{UVec3, Vec3};
use crate::cage::{box_of, first_degenerate_is, flat, some_box_flat, Cage};
use crate::fill::lemma_enclosed_classified;
use crate::grid::{Grid, GridError, GridView};
use crate::relax::Relaxation;
use crate::sweep::narrowly_rasterized;
use crate::weight::Weight;

verus! {

/// Whether `staged` is a grid of the given shape after rasterisation with
/// `reach` and `probe`, flooding and enclosing: the state in which
/// relaxation starts.
pub open spec fn classified_by<
    B: Fn(Vec3, Vec3, Vec3) -> (UVec3, UVec3),
    P: Fn(UVec3, Vec3, Vec3, Vec3) -> Option<[Weight; 3]>,
>(reach: B, probe: P, dimensions: UVec3, cage: &Cage, staged: GridView) -> bool {
    exists|marked: GridView|
        {
            &&& #[trigger] narrowly_rasterized(
                GridView::fresh(dimensions, cage.depth()),
                cage,
                reach,
                probe,
                marked,
            )
            &&& staged == marked.flooded().enclosed()
        }
}

/// Whether a relaxation that began in the state `staged` may end in the
/// state `last` with the given outcome.
///
/// The passes lead one by one from `staged` to `last`; `settled` said no
/// of every pass but the last. The relaxation ended because `settled` said
/// yes of the last pass or because `cap` passes were made.
pub open spec fn relaxed_from<
    A: Fn([Weight; 6], usize) -> Weight,
    S: Fn(&Vec<Weight>, &Vec<Weight>, usize) -> bool,
>(staged: GridView, cap: usize, average: A, settled: S, last: GridView, outcome: Relaxation) -> bool {
    &&& last.dimensions == staged.dimensions
    &&& last.depth == staged.depth
    &&& last.cells == staged.cells
    &&& last.weights.len() == staged.weights.len()
    &&& staged.same_boundary(last)
    &&& outcome.iterations <= cap
    &&& outcome.converged ==> outcome.iterations >= 1
    &&& !outcome.converged ==> outcome.iterations == cap
    &&& outcome.iterations == 0 ==> last == staged
    &&& outcome.iterations == 1 ==> staged.relaxes_to(average, last)
    &&& staged.relaxes_in(average, settled, outcome.iterations as nat, last, outcome.converged)
}

/// Why `Grid::build` gives no grid for a cage, if it gives none.
///
/// What shape and cage alone show comes first, then a bounding box that
/// is flat along some axis, then the first face of which `degenerate`
/// found a triangle to have no area.
pub open spec fn build_fails<D: Fn(Vec3, Vec3, Vec3) -> bool>(
    dimensions: UVec3,
    cage: &Cage,
    degenerate: D,
    reason: GridError,
) -> bool {
    match Grid::rejection(dimensions, cage) {
        Some(expected) => reason == expected,
        None => match reason {
            GridError::FlatExtent => some_box_flat(cage.vertices@, true),
            GridError::DegenerateFace(face) => {
                &&& some_box_flat(cage.vertices@, false)
                &&& first_degenerate_is(degenerate, cage, Some(face))
            },
            _ => false,
        },
    }
}

impl Grid {
    /// Builds the grid for a cage and takes it through the whole pipeline:
    /// rasterisation with `reach` and `probe`, flooding of the exterior,
    /// enclosing of the interior, and relaxation with `average` until
    /// `settled` or `cap` passes.
    ///
    /// It fails when `Grid::new` fails and when the rasterisation pass turns
    /// the cage away for a face without area, and only then. In the grid
    /// that is returned no voxel is unclassified.
    pub fn build<D, B, P, A, S>(
        dimensions: UVec3,
        cage: Cage,
        degenerate: D,
        reach: B,
        probe: P,
        cap: usize,
        average: A,
        settled: S,
    ) -> (made: Result<(Grid, Relaxation), GridError>) where
        D: Fn(Vec3, Vec3, Vec3) -> bool,
        B: Fn(Vec3, Vec3, Vec3) -> (UVec3, UVec3),
        P: Fn(UVec3, Vec3, Vec3, Vec3) -> Option<[Weight; 3]>,
        A: Fn([Weight; 6], usize) -> Weight,
        S: Fn(&Vec<Weight>, &Vec<Weight>, usize) -> bool,

        requires
            forall|a: Vec3, b: Vec3, c: Vec3| call_requires(degenerate, (a, b, c)),
            forall|a: Vec3, b: Vec3, c: Vec3| call_requires(reach, (a, b, c)),
            forall|cell: UVec3, a: Vec3, b: Vec3, c: Vec3| call_requires(probe, (cell, a, b, c)),
            forall|values: [Weight; 6], n: usize| n <= 6 ==> call_requires(average, (values, n)),
            forall|before: &Vec<Weight>, after: &Vec<Weight>, n: usize|
                call_requires(settled, (before, after, n)),
        ensures
            match made {
                Ok((grid, outcome)) => {
                    &&& Grid::rejection(dimensions, &cage) is None
                    &&& first_degenerate_is(degenerate, &cage, None)
                    &&& grid.wf()
                    &&& grid.setting().2 == cage
                    &&& box_of(cage.vertices@, grid.setting().0, grid.setting().1)
                    &&& !flat(grid.setting().0, grid.setting().1)
                    &&& forall|i: int|
                        0 <= i < grid.view().cells.len() ==> !((
                        #[trigger] grid.view().cells[i]) is Uninitialized)
                    &&& exists|staged: GridView|
                        #[trigger] classified_by(reach, probe, dimensions, &cage, staged)
                            && relaxed_from(staged, cap, average, settled, grid.view(), outcome)
                },
                Err(reason) => build_fails(dimensions, &cage, degenerate, reason),
            },
    {
        let mut grid = match Grid::new(dimensions, cage) {
            Ok(grid) => grid,
            Err(reason) => {
                return Err(reason);
            },
        };
        match grid.mark_boundaries(degenerate, reach, probe) {
            Ok(_) => {},
            Err(reason) => {
                proof {
                    assert(box_of(cage.vertices@, grid.setting().0, grid.setting().1));
                }
                return Err(reason);
            },
        }
        grid.fill_exterior();
        let ghost flooded = grid.view();
        grid.mark_interior();
        let ghost staged = grid.view();
        proof {
            assert(classified_by(reach, probe, dimensions, &cage, staged));
            lemma_enclosed_classified(flooded);
        }
        let outcome = grid.smooth_basic(cap, average, settled);
        proof {
            assert(relaxed_from(staged, cap, average, settled, grid.view(), outcome));
        }
        Ok((grid, outcome))
    }
}

} // verus!
