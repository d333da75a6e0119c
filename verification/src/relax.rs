//! Relaxing the interior: each pass replaces every interior weight by a
//! blend of the weights of the face neighbours, read from the state before
//! the pass, and leaves the boundary alone.

use vstd::prelude::*;
use glam::UVec3;
use crate::cell::GridCell;
use crate::grid::{lemma_wf_same_layout, Grid, GridView};
use crate::lattice::{
    adjacent,
    flat_index,
    index_in,
    inside,
    lemma_flat_index_bound,
    lemma_neighbours_count,
    lemma_neighbours_of,
    lemma_position_of,
    lemma_position_of_flat_index,
    neighbours,
    neighbours_of,
    position_at,
    position_of,
};
use crate::tally::{is_interior, lemma_tally_implies, lemma_tally_take_next, owns_run, tally};
use crate::weight::{duplicate, Weight};

verus! {

/// How a relaxation ended.
#[derive(Debug, Clone, Copy, PartialEq, Eq, Structural)]
pub struct Relaxation {
    /// Number of passes made.
    pub iterations: usize,
    /// Whether the last pass left the field settled. It is false where the
    /// cap on the number of passes ended the relaxation.
    pub converged: bool,
}

/// Whether `result` is a blend that `average` may give for `values`.
///
/// The blend is asked for with the values at the front of an array of six,
/// followed by their number.
pub open spec fn averaged<A: Fn([Weight; 6], usize) -> Weight>(
    average: A,
    values: Seq<Weight>,
    result: Weight,
) -> bool {
    exists|padded: [Weight; 6]|
        padded@.take(values.len() as int) == values && #[trigger] call_ensures(
            average,
            (padded, values.len() as usize),
            result,
        )
}

/// Whether `answer` is what `settled` may say of the pass from the state
/// `from` to the state `to`, when shown the weights before the pass, the
/// weights after it and the number `updated` of weights that interior
/// cells own.
pub open spec fn said<S: Fn(&Vec<Weight>, &Vec<Weight>, usize) -> bool>(
    settled: S,
    from: GridView,
    to: GridView,
    updated: usize,
    answer: bool,
) -> bool {
    exists|before: Vec<Weight>, after: Vec<Weight>|
        {
            &&& before@ == from.weights
            &&& after@ == to.weights
            &&& #[trigger] call_ensures(settled, (&before, &after, updated), answer)
        }
}

impl GridView {
    /// Weight number `k` of each voxel in `around`, in order.
    pub open spec fn channel(self, around: Seq<UVec3>, k: int) -> Seq<Weight> {
        around.map_values(|q: UVec3| self.weights[self.cell_at(q).slot().unwrap() + k])
    }

    /// Weight number `k` of each face neighbour of `p` in the grid, in the
    /// order `+x`, `+y`, `+z`, `-x`, `-y`, `-z`.
    pub open spec fn gathered(self, p: UVec3, k: int) -> Seq<Weight> {
        self.channel(neighbours_of(self.dimensions, p), k)
    }

    /// Whether place `at` of the buffer lies in the run of an interior cell
    /// whose flat index is below `bound`.
    pub open spec fn in_interior_run(self, at: int, bound: int) -> bool {
        exists|i: int|
            0 <= i < bound && i < self.cells.len() && (#[trigger] self.cells[i]) is Interior
                && self.cells[i].slot().unwrap() <= at < self.cells[i].slot().unwrap()
                + self.depth
    }

    /// Whether `next` is the grid after a pass over the interior cells with
    /// flat index below `bound`, made from the state `self`.
    ///
    /// Each weight of such a cell is a blend of the same weight of its face
    /// neighbours as they are in `self`; nothing else differs.
    pub open spec fn relaxes_upto<A: Fn([Weight; 6], usize) -> Weight>(
        self,
        average: A,
        next: GridView,
        bound: int,
    ) -> bool {
        &&& next.dimensions == self.dimensions
        &&& next.depth == self.depth
        &&& next.cells == self.cells
        &&& next.weights.len() == self.weights.len()
        &&& forall|i: int, k: int|
            #![trigger self.cells[i], next.weights[self.cells[i].slot().unwrap() + k]]
            0 <= i < bound && i < self.cells.len() && 0 <= k < self.depth
                && self.cells[i] is Interior ==> averaged(
                average,
                self.gathered(position_of(self.dimensions, i), k),
                next.weights[self.cells[i].slot().unwrap() + k],
            )
        &&& forall|at: int|
            0 <= at < self.weights.len() && !self.in_interior_run(at, bound)
                ==> #[trigger] next.weights[at] == self.weights[at]
    }

    /// Whether `next` is the grid one relaxation pass after `self`.
    pub open spec fn relaxes_to<A: Fn([Weight; 6], usize) -> Weight>(
        self,
        average: A,
        next: GridView,
    ) -> bool {
        self.relaxes_upto(average, next, self.cells.len() as int)
    }

    /// Number of weights that interior cells own.
    pub open spec fn interior_weights(self) -> nat {
        self.depth * tally(self.cells, is_interior())
    }

    /// Whether `states` are the states of a relaxation that began in the
    /// state `self`: the first is `self`, and each of the others is one
    /// pass after the one before it. Of every pass but the last `settled`
    /// said that the field is not settled, and of the last it said
    /// `converged`.
    pub open spec fn relaxes_through<
        A: Fn([Weight; 6], usize) -> Weight,
        S: Fn(&Vec<Weight>, &Vec<Weight>, usize) -> bool,
    >(self, average: A, settled: S, states: Seq<GridView>, converged: bool) -> bool {
        &&& states.len() >= 1
        &&& states[0] == self
        &&& forall|j: int|
            0 <= j < states.len() - 1 ==> (#[trigger] states[j]).relaxes_to(average, states[j + 1])
        &&& forall|j: int|
            0 <= j < states.len() - 1 ==> said(
                settled,
                #[trigger] states[j],
                states[j + 1],
                self.interior_weights() as usize,
                j == states.len() - 2 && converged,
            )
    }

    /// Whether a relaxation of `iterations` passes that began in the state
    /// `self` may end in the state `last`, settled or not as `converged`
    /// tells.
    pub open spec fn relaxes_in<
        A: Fn([Weight; 6], usize) -> Weight,
        S: Fn(&Vec<Weight>, &Vec<Weight>, usize) -> bool,
    >(self, average: A, settled: S, iterations: nat, last: GridView, converged: bool) -> bool {
        exists|states: Seq<GridView>|
            {
                &&& states.len() == iterations + 1
                &&& states.last() == last
                &&& #[trigger] self.relaxes_through(average, settled, states, converged)
            }
    }

    /// Whether every boundary cell has the same coordinate vector in `self`
    /// and in `other`.
    pub open spec fn same_boundary(self, other: GridView) -> bool {
        forall|i: int, k: int|
            #![trigger self.cells[i], other.weights[self.cells[i].slot().unwrap() + k]]
            0 <= i < self.cells.len() && 0 <= k < self.depth && self.cells[i] is Boundary
                ==> other.weights[self.cells[i].slot().unwrap() + k]
                == self.weights[self.cells[i].slot().unwrap() + k]
    }
}

/// Every face neighbour of an interior voxel owns a coordinate vector.
pub proof fn lemma_interior_neighbour(g: GridView, p: UVec3, q: UVec3)
    requires
        g.wf(),
        inside(g.dimensions, p),
        inside(g.dimensions, q),
        adjacent(p, q),
        g.cell_at(p) is Interior,
    ensures
        g.cell_at(q) is Boundary || g.cell_at(q) is Interior,
{
    lemma_flat_index_bound(g.dimensions, p);
    lemma_flat_index_bound(g.dimensions, q);
    assert(adjacent(q, p));
    assert(g.cells[flat_index(g.dimensions, p)] is Interior);
    assert(!(g.cells[flat_index(g.dimensions, q)] is Uninitialized));
}

/// A relaxation pass does not change the coordinate vector of any
/// boundary cell.
pub proof fn lemma_relaxation_keeps_boundary<A: Fn([Weight; 6], usize) -> Weight>(
    g: GridView,
    average: A,
    next: GridView,
)
    requires
        g.wf(),
        g.relaxes_to(average, next),
    ensures
        g.same_boundary(next),
{
    assert forall|i: int, k: int|
        #![trigger g.cells[i], next.weights[g.cells[i].slot().unwrap() + k]]
        0 <= i < g.cells.len() && 0 <= k < g.depth && g.cells[i] is Boundary implies next.weights[g.cells[i].slot().unwrap()
            + k] == g.weights[g.cells[i].slot().unwrap() + k] by {
        let at = g.cells[i].slot().unwrap() + k;
        if g.in_interior_run(at, g.cells.len() as int) {
            let j = choose|j: int|
                0 <= j < g.cells.len() && (#[trigger] g.cells[j]) is Interior
                    && g.cells[j].slot().unwrap() <= at < g.cells[j].slot().unwrap() + g.depth;
            assert(g.cells[i].slot() is Some && g.cells[j].slot() is Some);
            assert(i != j);
        }
    }
}

/// Boundary vectors that stay the same from a first state to a second and
/// from the second to a third, over the same cells, stay the same from the
/// first to the third.
pub proof fn lemma_same_boundary_chain(a: GridView, b: GridView, c: GridView)
    requires
        a.same_boundary(b),
        b.same_boundary(c),
        a.cells == b.cells,
        a.depth == b.depth,
    ensures
        a.same_boundary(c),
{
    assert forall|i: int, k: int|
        #![trigger a.cells[i], c.weights[a.cells[i].slot().unwrap() + k]]
        0 <= i < a.cells.len() && 0 <= k < a.depth && a.cells[i] is Boundary implies c.weights[a.cells[i].slot().unwrap()
            + k] == a.weights[a.cells[i].slot().unwrap() + k] by {
        let at = a.cells[i].slot().unwrap() + k;
        assert(b.weights[b.cells[i].slot().unwrap() + k] == a.weights[at]);
        assert(c.weights[b.cells[i].slot().unwrap() + k] == b.weights[at]);
    }
}

/// Every state of a relaxation has the shape, the cells and the boundary
/// vectors of the state in which the relaxation began, and meets the
/// invariant if that state does.
pub proof fn lemma_relaxation_states<
    A: Fn([Weight; 6], usize) -> Weight,
    S: Fn(&Vec<Weight>, &Vec<Weight>, usize) -> bool,
>(g: GridView, average: A, settled: S, states: Seq<GridView>, converged: bool, j: int)
    requires
        g.wf(),
        g.relaxes_through(average, settled, states, converged),
        0 <= j < states.len(),
    ensures
        states[j].wf(),
        states[j].dimensions == g.dimensions,
        states[j].depth == g.depth,
        states[j].cells == g.cells,
        states[j].weights.len() == g.weights.len(),
        g.same_boundary(states[j]),
    decreases j,
{
    if j > 0 {
        lemma_relaxation_states(g, average, settled, states, converged, j - 1);
        assert(states[j - 1].relaxes_to(average, states[j - 1 + 1]));
        lemma_wf_same_layout(g, states[j]);
        lemma_relaxation_keeps_boundary(states[j - 1], average, states[j]);
        lemma_same_boundary_chain(g, states[j - 1], states[j]);
    }
}

/// After a relaxation of at least one pass, an interior voxel whose face
/// neighbours are all boundary voxels holds, in every place, the blend of
/// the weights that its neighbours hold in that place, and these are the
/// weights that the neighbours held when the relaxation began.
pub proof fn lemma_relaxed_between_boundaries<
    A: Fn([Weight; 6], usize) -> Weight,
    S: Fn(&Vec<Weight>, &Vec<Weight>, usize) -> bool,
>(
    g: GridView,
    average: A,
    settled: S,
    iterations: nat,
    last: GridView,
    converged: bool,
    p: UVec3,
    k: int,
)
    requires
        g.wf(),
        g.relaxes_in(average, settled, iterations, last, converged),
        iterations >= 1,
        inside(g.dimensions, p),
        g.cell_at(p) is Interior,
        0 <= k < g.depth,
        forall|q: UVec3| #[trigger]
            neighbours_of(g.dimensions, p).contains(q) ==> g.cell_at(q) is Boundary,
    ensures
        last.gathered(p, k) == g.gathered(p, k),
        averaged(average, g.gathered(p, k), last.weights[g.cell_at(p).slot().unwrap() + k]),
{
    let states = choose|states: Seq<GridView>|
        {
            &&& states.len() == iterations + 1
            &&& states.last() == last
            &&& #[trigger] g.relaxes_through(average, settled, states, converged)
        };
    let n = iterations as int;
    let earlier = states[n - 1];
    lemma_relaxation_states(g, average, settled, states, converged, n - 1);
    lemma_relaxation_states(g, average, settled, states, converged, n);
    assert(earlier.relaxes_to(average, states[n - 1 + 1]));
    let i = flat_index(g.dimensions, p);
    lemma_flat_index_bound(g.dimensions, p);
    lemma_position_of_flat_index(g.dimensions, p);
    assert(earlier.cells[i] is Interior);
    let around = neighbours_of(g.dimensions, p);
    assert forall|m: int| 0 <= m < around.len() implies earlier.gathered(p, k)[m] == g.gathered(
        p,
        k,
    )[m] && last.gathered(p, k)[m] == g.gathered(p, k)[m] by {
        let q = around[m];
        assert(around.contains(q));
        lemma_neighbours_of(g.dimensions, p, q);
        lemma_flat_index_bound(g.dimensions, q);
        let t = flat_index(g.dimensions, q);
        assert(g.cells[t] is Boundary);
        assert(earlier.weights[g.cells[t].slot().unwrap() + k] == g.weights[g.cells[t].slot().unwrap()
            + k]);
        assert(last.weights[g.cells[t].slot().unwrap() + k] == g.weights[g.cells[t].slot().unwrap()
            + k]);
    }
    assert(earlier.gathered(p, k) =~= g.gathered(p, k));
    assert(last.gathered(p, k) =~= g.gathered(p, k));
    assert(averaged(
        average,
        earlier.gathered(position_of(earlier.dimensions, i), k),
        last.weights[earlier.cells[i].slot().unwrap() + k],
    ));
}

/// Whether `average` gives one blend for the values it is handed: the
/// result depends on the values at the front of the array alone, not on
/// what follows them.
pub open spec fn steady<A: Fn([Weight; 6], usize) -> Weight>(average: A) -> bool {
    forall|first: [Weight; 6], second: [Weight; 6], n: usize, one: Weight, other: Weight|
        first@.take(n as int) == second@.take(n as int) && #[trigger] call_ensures(
            average,
            (first, n),
            one,
        ) && #[trigger] call_ensures(average, (second, n), other) ==> one == other
}

impl GridView {
    /// Whether every face neighbour of every interior voxel is a boundary
    /// voxel.
    pub open spec fn thin(self) -> bool {
        forall|p: UVec3, q: UVec3|
            inside(self.dimensions, p) && self.cell_at(p) is Interior && #[trigger] neighbours_of(
                self.dimensions,
                p,
            ).contains(q) ==> self.cell_at(q) is Boundary
    }
}

/// Where every interior voxel lies between boundary voxels, one pass
/// reaches the fixed point: a second pass with a steady blend changes
/// nothing.
pub proof fn lemma_second_pass_changes_nothing<A: Fn([Weight; 6], usize) -> Weight>(
    g: GridView,
    average: A,
    h: GridView,
    again: GridView,
)
    requires
        g.wf(),
        g.thin(),
        steady(average),
        g.relaxes_to(average, h),
        h.relaxes_to(average, again),
    ensures
        again == h,
{
    lemma_relaxation_keeps_boundary(g, average, h);
    assert forall|at: int| 0 <= at < h.weights.len() implies again.weights[at] == h.weights[at] by {
        if h.in_interior_run(at, h.cells.len() as int) {
            let i = choose|i: int|
                0 <= i < h.cells.len() && (#[trigger] h.cells[i]) is Interior
                    && h.cells[i].slot().unwrap() <= at < h.cells[i].slot().unwrap() + h.depth;
            let slot = g.cells[i].slot().unwrap() as int;
            let k = at - slot;
            let p = position_of(g.dimensions, i);
            lemma_position_of(g.dimensions, i);
            let around = neighbours_of(g.dimensions, p);
            assert forall|m: int| 0 <= m < around.len() implies h.gathered(p, k)[m] == g.gathered(
                p,
                k,
            )[m] by {
                let q = around[m];
                assert(around.contains(q));
                lemma_neighbours_of(g.dimensions, p, q);
                lemma_flat_index_bound(g.dimensions, q);
                let t = flat_index(g.dimensions, q);
                assert(g.cells[t] is Boundary);
                assert(h.weights[g.cells[t].slot().unwrap() + k] == g.weights[g.cells[t].slot().unwrap()
                    + k]);
            }
            assert(h.gathered(p, k) =~= g.gathered(p, k));
            assert(averaged(average, g.gathered(p, k), h.weights[g.cells[i].slot().unwrap() + k]));
            assert(averaged(
                average,
                h.gathered(p, k),
                again.weights[h.cells[i].slot().unwrap() + k],
            ));
        }
    }
    assert(again.weights =~= h.weights);
}

/// Where every interior voxel lies between boundary voxels, a relaxation
/// that follows a relaxation of at least one pass changes nothing, however
/// many passes it makes, as long as the blend is steady.
pub proof fn lemma_second_relaxation_changes_nothing<
    A: Fn([Weight; 6], usize) -> Weight,
    S: Fn(&Vec<Weight>, &Vec<Weight>, usize) -> bool,
    T: Fn(&Vec<Weight>, &Vec<Weight>, usize) -> bool,
>(
    g: GridView,
    average: A,
    settled: S,
    iterations: nat,
    converged: bool,
    h: GridView,
    resettled: T,
    further: nat,
    reconverged: bool,
    again: GridView,
)
    requires
        g.wf(),
        g.thin(),
        steady(average),
        iterations >= 1,
        g.relaxes_in(average, settled, iterations, h, converged),
        h.relaxes_in(average, resettled, further, again, reconverged),
    ensures
        again == h,
{
    let first = choose|states: Seq<GridView>|
        {
            &&& states.len() == iterations + 1
            &&& states.last() == h
            &&& #[trigger] g.relaxes_through(average, settled, states, converged)
        };
    let second = choose|states: Seq<GridView>|
        {
            &&& states.len() == further + 1
            &&& states.last() == again
            &&& #[trigger] h.relaxes_through(average, resettled, states, reconverged)
        };
    let n = iterations as int;
    let earlier = first[n - 1];
    lemma_relaxation_states(g, average, settled, first, converged, n - 1);
    assert(earlier.relaxes_to(average, first[n - 1 + 1]));
    assert(earlier.thin()) by {
        assert forall|p: UVec3, q: UVec3|
            inside(earlier.dimensions, p) && earlier.cell_at(p) is Interior && #[trigger] neighbours_of(
                earlier.dimensions,
                p,
            ).contains(q) implies earlier.cell_at(q) is Boundary by {
            assert(g.cell_at(p) is Interior);
            assert(g.cell_at(q) is Boundary);
        }
    }
    lemma_all_passes_change_nothing(earlier, average, h, second, further as int);
}

/// Passes that start from the fixed point stay there.
proof fn lemma_all_passes_change_nothing<A: Fn([Weight; 6], usize) -> Weight>(
    earlier: GridView,
    average: A,
    h: GridView,
    states: Seq<GridView>,
    j: int,
)
    requires
        earlier.wf(),
        earlier.thin(),
        steady(average),
        earlier.relaxes_to(average, h),
        states.len() >= 1,
        states[0] == h,
        forall|i: int|
            0 <= i < states.len() - 1 ==> (#[trigger] states[i]).relaxes_to(average, states[i + 1]),
        0 <= j < states.len(),
    ensures
        states[j] == h,
    decreases j,
{
    if j > 0 {
        lemma_all_passes_change_nothing(earlier, average, h, states, j - 1);
        assert(states[j - 1].relaxes_to(average, states[j - 1 + 1]));
        lemma_second_pass_changes_nothing(earlier, average, h, states[j]);
    }
}

impl Grid {
    /// Number of interior cells.
    pub fn interior_count(&self) -> (found: usize)
        ensures
            found == tally(self.view().cells, is_interior()),
    {
        let count: usize = self.cell_types.len();
        let mut found: usize = 0;
        let mut i: usize = 0;
        proof {
            assert(self.view().cells.take(0) =~= Seq::<GridCell>::empty());
        }
        while i < count
            invariant
                count == self.view().cells.len(),
                i <= count,
                found <= i,
                found == tally(self.view().cells.take(i as int), is_interior()),
            decreases count - i,
        {
            proof {
                lemma_tally_take_next(self.view().cells, is_interior(), i as int);
            }
            match self.cell_types[i] {
                GridCell::Interior(_) => {
                    found = found + 1;
                },
                _ => {},
            }
            i = i + 1;
        }
        proof {
            assert(self.view().cells.take(count as int) =~= self.view().cells);
        }
        found
    }

    /// Relaxes the interior until it is settled or `cap` passes are made.
    ///
    /// Each pass is a `smooth_pass` with `average`. After each pass
    /// `settled` is shown the weights before the pass, the weights after it
    /// and the number of weights that interior cells own, and says whether
    /// the relaxation may stop. The coordinate vectors of the boundary
    /// cells are the same after any number of passes.
    pub fn smooth_basic<A, S>(&mut self, cap: usize, average: A, settled: S) -> (outcome:
        Relaxation) where
        A: Fn([Weight; 6], usize) -> Weight,
        S: Fn(&Vec<Weight>, &Vec<Weight>, usize) -> bool,

        requires
            old(self).wf(),
            forall|values: [Weight; 6], n: usize| n <= 6 ==> call_requires(average, (values, n)),
            forall|before: &Vec<Weight>, after: &Vec<Weight>, n: usize|
                call_requires(settled, (before, after, n)),
        ensures
            final(self).wf(),
            final(self).setting() == old(self).setting(),
            final(self).view().dimensions == old(self).view().dimensions,
            final(self).view().depth == old(self).view().depth,
            final(self).view().cells == old(self).view().cells,
            final(self).view().weights.len() == old(self).view().weights.len(),
            old(self).view().same_boundary(final(self).view()),
            outcome.iterations <= cap,
            outcome.converged ==> outcome.iterations >= 1,
            !outcome.converged ==> outcome.iterations == cap,
            outcome.iterations == 0 ==> final(self).view() == old(self).view(),
            outcome.iterations == 1 ==> old(self).view().relaxes_to(average, final(self).view()),
            old(self).view().relaxes_in(
                average,
                settled,
                outcome.iterations as nat,
                final(self).view(),
                outcome.converged,
            ),
    {
        let ghost start = self.view();
        let depth: usize = self.cage.vertices.len();
        let interior: usize = self.interior_count();
        proof {
            let total = start.weights.len();
            lemma_tally_implies(start.cells, is_interior(), owns_run());
            assert(depth * interior <= total) by (nonlinear_arith)
                requires
                    interior <= tally(start.cells, owns_run()),
                    total == depth * tally(start.cells, owns_run()),
            ;
        }
        let updated: usize = depth * interior;
        let mut iterations: usize = 0;
        let mut converged: bool = false;
        let ghost mut states: Seq<GridView> = seq![start];
        proof {
            assert(start.same_boundary(start));
            assert(start.relaxes_through(average, settled, states, converged));
        }
        while iterations < cap && !converged
            invariant
                start == old(self).view(),
                self.wf(),
                self.setting() == old(self).setting(),
                self.view().dimensions == start.dimensions,
                self.view().depth == start.depth,
                self.view().cells == start.cells,
                self.view().weights.len() == start.weights.len(),
                start.same_boundary(self.view()),
                forall|values: [Weight; 6], n: usize| n <= 6 ==> call_requires(average, (values, n)),
                forall|before: &Vec<Weight>, after: &Vec<Weight>, n: usize|
                    call_requires(settled, (before, after, n)),
                updated == start.depth * tally(start.cells, is_interior()),
                iterations <= cap,
                converged ==> iterations >= 1,
                iterations == 0 ==> self.view() == start,
                iterations == 1 ==> start.relaxes_to(average, self.view()),
                states.len() == iterations + 1,
                states.last() == self.view(),
                start.relaxes_through(average, settled, states, converged),
            decreases cap - iterations, if converged { 0int } else { 1int },
        {
            let ghost earlier = self.view();
            let snapshot = self.smooth_pass(&average);
            iterations = iterations + 1;
            converged = settled(&snapshot, &self.cell_data, updated);
            proof {
                lemma_relaxation_keeps_boundary(earlier, average, self.view());
                lemma_same_boundary_chain(start, earlier, self.view());
                let before = states;
                states = before.push(self.view());
                assert(call_ensures(settled, (&snapshot, &self.cell_data, updated), converged));
                assert(said(settled, earlier, self.view(), updated, converged));
                assert forall|j: int| 0 <= j < states.len() - 1 implies (
                #[trigger] states[j]).relaxes_to(average, states[j + 1]) by {
                    if j < before.len() - 1 {
                        assert(before[j].relaxes_to(average, before[j + 1]));
                    }
                }
                assert forall|j: int| 0 <= j < states.len() - 1 implies said(
                    settled,
                    #[trigger] states[j],
                    states[j + 1],
                    start.interior_weights() as usize,
                    j == states.len() - 2 && converged,
                ) by {
                    if j < before.len() - 1 {
                        assert(said(
                            settled,
                            before[j],
                            before[j + 1],
                            start.interior_weights() as usize,
                            false,
                        ));
                    }
                }
            }
        }
        Relaxation { iterations, converged }
    }

    /// Relaxation on several threads is not offered: the call leaves the
    /// grid as it is, whatever `tau` holds.
    pub fn smooth_threads(&mut self, tau: Weight)
        ensures
            final(self).view() == old(self).view(),
            final(self).setting() == old(self).setting(),
    {
    }

    /// Relaxation on a graphics processor is not offered: the call leaves
    /// the grid as it is, whatever `tau` holds.
    pub fn smooth_gpu(&mut self, tau: Weight)
        ensures
            final(self).view() == old(self).view(),
            final(self).setting() == old(self).setting(),
    {
    }

    /// Offsets of the coordinate vectors of the face neighbours of the
    /// interior voxel `p`, at the front of an array of six, and their
    /// number.
    fn neighbour_slots(&self, p: UVec3) -> (found: ([usize; 6], usize))
        requires
            self.wf(),
            inside(self.view().dimensions, p),
            self.view().cell_at(p) is Interior,
        ensures
            found.1 == neighbours_of(self.view().dimensions, p).len(),
            found.1 <= 6,
            forall|m: int|
                0 <= m < found.1 ==> {
                    let q = #[trigger] neighbours_of(self.view().dimensions, p)[m];
                    &&& self.view().cell_at(q).slot() == Some(found.0@[m])
                    &&& found.0@[m] + self.view().depth <= self.view().weights.len()
                },
    {
        let dims = self.dimensions;
        let around = neighbours(dims, p);
        let mut slots: [usize; 6] = [0; 6];
        let mut m: usize = 0;
        proof {
            lemma_neighbours_count(dims, p);
        }
        while m < around.len()
            invariant
                self.wf(),
                dims == self.view().dimensions,
                inside(dims, p),
                self.view().cell_at(p) is Interior,
                around@ == neighbours_of(dims, p),
                around@.len() <= 6,
                m <= around@.len(),
                forall|j: int|
                    0 <= j < m ==> {
                        let q = #[trigger] around@[j];
                        &&& self.view().cell_at(q).slot() == Some(slots@[j])
                        &&& slots@[j] + self.view().depth <= self.view().weights.len()
                    },
            decreases around@.len() - m,
        {
            let q: UVec3 = around[m];
            proof {
                assert(around@.contains(q));
                lemma_neighbours_of(dims, p, q);
                lemma_interior_neighbour(self.view(), p, q);
                lemma_flat_index_bound(dims, q);
            }
            let at = index_in(dims, q).unwrap();
            let slot: usize = match self.cell_types[at] {
                GridCell::Boundary(s) => s,
                GridCell::Interior(s) => s,
                _ => 0,
            };
            proof {
                assert(self.view().cells[at as int].slot() == Some(slot));
            }
            slots[m] = slot;
            m = m + 1;
        }
        (slots, m)
    }

    /// Makes one relaxation pass and returns the weights as they were
    /// before it.
    ///
    /// Every weight of every interior cell becomes what `average` gives for
    /// the same weight of the cell's face neighbours in the grid, all read
    /// from the state before the pass, in the order `+x`, `+y`, `+z`, `-x`,
    /// `-y`, `-z`. No other weight and no cell changes.
    pub fn smooth_pass<A>(&mut self, average: &A) -> (snapshot: Vec<Weight>) where
        A: Fn([Weight; 6], usize) -> Weight,

        requires
            old(self).wf(),
            forall|values: [Weight; 6], n: usize| n <= 6 ==> call_requires(*average, (values, n)),
        ensures
            final(self).wf(),
            final(self).setting() == old(self).setting(),
            snapshot@ == old(self).view().weights,
            old(self).view().relaxes_to(*average, final(self).view()),
    {
        let ghost start = self.view();
        let snapshot = duplicate(&self.cell_data);
        let dims = self.dimensions;
        let depth: usize = self.cage.vertices.len();
        let count: usize = self.cell_types.len();
        let mut i: usize = 0;
        while i < count
            invariant
                start.wf(),
                start == old(self).view(),
                snapshot@ == start.weights,
                dims == start.dimensions,
                depth == start.depth,
                count == start.cells.len(),
                i <= count,
                self.cage.faces_in_range(),
                self.setting() == old(self).setting(),
                forall|values: [Weight; 6], n: usize| n <= 6 ==> call_requires(*average, (values, n)),
                start.relaxes_upto(*average, self.view(), i as int),
            decreases count - i,
        {
            let ghost before = self.view();
            match self.cell_types[i] {
                GridCell::Interior(slot) => {
                    let p = position_at(dims, i);
                    proof {
                        lemma_wf_same_layout(start, self.view());
                        assert(start.cells[i as int].slot() == Some(slot));
                        assert(slot + depth <= start.weights.len());
                    }
                    let (slots, around) = self.neighbour_slots(p);
                    let mut k: usize = 0;
                    while k < depth
                        invariant
                            start.wf(),
                            snapshot@ == start.weights,
                                        dims == start.dimensions,
                            depth == start.depth,
                            count == start.cells.len(),
                            i < count,
                            k <= depth,
                            self.cage.faces_in_range(),
                            self.setting() == old(self).setting(),
                            forall|values: [Weight; 6], n: usize|
                                n <= 6 ==> call_requires(*average, (values, n)),
                            p == position_of(dims, i as int),
                            start.cells[i as int] == GridCell::Interior(slot),
                            slot + depth <= start.weights.len(),
                            around == neighbours_of(dims, p).len(),
                            around <= 6,
                            forall|m: int|
                                0 <= m < around ==> {
                                    let q = #[trigger] neighbours_of(dims, p)[m];
                                    &&& start.cell_at(q).slot() == Some(slots@[m])
                                    &&& slots@[m] + depth <= start.weights.len()
                                },
                            self.view().dimensions == start.dimensions,
                            self.view().depth == start.depth,
                            self.view().cells == start.cells,
                            self.view().weights.len() == start.weights.len(),
                            forall|c: int|
                                0 <= c < k ==> averaged(
                                    *average,
                                    start.gathered(p, c),
                                    #[trigger] self.view().weights[slot + c],
                                ),
                            forall|at: int|
                                0 <= at < start.weights.len() && !(slot <= at < slot + k)
                                    ==> #[trigger] self.view().weights[at] == before.weights[at],
                        decreases depth - k,
                    {
                        let mut values: [Weight; 6] = [Weight { bits: 0 }; 6];
                        let mut m: usize = 0;
                        while m < around
                            invariant
                                snapshot@ == start.weights,
                                start.weights.len() <= usize::MAX,
                                depth == start.depth,
                                k < depth,
                                m <= around,
                                around == neighbours_of(dims, p).len(),
                                around <= 6,
                                forall|j: int|
                                    0 <= j < around ==> {
                                        let q = #[trigger] neighbours_of(dims, p)[j];
                                        &&& start.cell_at(q).slot() == Some(slots@[j])
                                        &&& slots@[j] + depth <= start.weights.len()
                                    },
                                forall|j: int|
                                    0 <= j < m ==> #[trigger] values@[j] == start.weights[slots@[j]
                                        + k],
                            decreases around - m,
                        {
                            proof {
                                let q = neighbours_of(dims, p)[m as int];
                                assert(slots@[m as int] + depth <= start.weights.len());
                            }
                            values[m] = snapshot[slots[m] + k];
                            m = m + 1;
                        }
                        let blend = average(values, around);
                        self.cell_data[slot + k] = blend;
                        proof {
                            let wanted = start.gathered(p, k as int);
                            assert(values@.take(around as int) =~= wanted) by {
                                assert forall|j: int| 0 <= j < around implies values@[j]
                                    == wanted[j] by {
                                    let q = neighbours_of(dims, p)[j];
                                    assert(start.cell_at(q).slot() == Some(slots@[j]));
                                }
                            }
                            assert(wanted.len() == around);
                            assert(call_ensures(*average, (values, wanted.len() as usize), blend));
                            assert(averaged(*average, wanted, blend));
                        }
                        k = k + 1;
                    }
                    proof {
                        let cur = self.view();
                        assert forall|j: int, c: int|
                            #![trigger start.cells[j], cur.weights[start.cells[j].slot().unwrap() + c]]
                            0 <= j < i + 1 && j < start.cells.len() && 0 <= c < start.depth
                                && start.cells[j] is Interior implies averaged(
                            *average,
                            start.gathered(position_of(start.dimensions, j), c),
                            cur.weights[start.cells[j].slot().unwrap() + c],
                        ) by {
                            if j < i {
                                let at = start.cells[j].slot().unwrap() + c;
                                assert(start.cells[j].slot() is Some && start.cells[i as int].slot() is Some);
                                assert(!(slot <= at < slot + depth));
                                assert(cur.weights[at] == before.weights[at]);
                            }
                        }
                        assert forall|at: int|
                            0 <= at < start.weights.len() && !start.in_interior_run(
                                at,
                                i + 1,
                            ) implies #[trigger] cur.weights[at] == start.weights[at] by {
                            if slot <= at < slot + depth {
                                assert(start.cells[i as int] is Interior);
                                assert(start.in_interior_run(at, i + 1));
                            }
                            if start.in_interior_run(at, i as int) {
                                let j = choose|j: int|
                                    0 <= j < i && j < start.cells.len() && (
                                    #[trigger] start.cells[j]) is Interior
                                        && start.cells[j].slot().unwrap() <= at
                                        < start.cells[j].slot().unwrap() + start.depth;
                                assert(start.in_interior_run(at, i + 1));
                            }
                        }
                    }
                },
                _ => {
                    proof {
                        let cur = self.view();
                        assert forall|at: int|
                            0 <= at < start.weights.len() && !start.in_interior_run(
                                at,
                                i + 1,
                            ) implies #[trigger] cur.weights[at] == start.weights[at] by {
                            if start.in_interior_run(at, i as int) {
                                let j = choose|j: int|
                                    0 <= j < i && j < start.cells.len() && (
                                    #[trigger] start.cells[j]) is Interior
                                        && start.cells[j].slot().unwrap() <= at
                                        < start.cells[j].slot().unwrap() + start.depth;
                                assert(start.in_interior_run(at, i + 1));
                            }
                        }
                    }
                },
            }
            i = i + 1;
        }
        proof {
            lemma_wf_same_layout(start, self.view());
        }
        snapshot
    }
}

} // verus!
