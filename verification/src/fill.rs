//! Classifying the voxels that rasterisation left blank: a flood fill from
//! the corner of the grid finds the exterior, and what it cannot reach is
//! interior.

use vstd::prelude::*;
use glam::UVec3;
use crate::cell::GridCell;
use crate::grid::{Grid, GridView};
use crate::lattice::{
    adjacent,
    flat_index,
    index_in,
    inside,
    lemma_concat_contains,
    lemma_flat_index_bound,
    lemma_flat_index_injective,
    lemma_neighbours_of,
    lemma_position_of,
    lemma_position_of_flat_index,
    neighbours,
    neighbours_of,
    position_of,
};
use crate::tally::{
    is_blank,
    lemma_tally_agree,
    lemma_tally_select,
    lemma_tally_take_monotone,
    lemma_tally_take_next,
    lemma_tally_update,
    lemma_tally_zero,
    owns_run,
    tally,
};
use crate::weight::{extend_zeros, lemma_zeros_concat, Weight};

verus! {

/// The voxel from which the exterior is flooded: the corner at the origin.
pub open spec fn seed() -> UVec3 {
    UVec3 { x: 0, y: 0, z: 0 }
}

impl GridView {
    /// Whether `path` walks from face neighbour to face neighbour over
    /// voxels of the grid that are all unclassified.
    pub open spec fn blank_walk(self, path: Seq<UVec3>) -> bool {
        &&& path.len() > 0
        &&& forall|k: int|
            0 <= k < path.len() ==> inside(self.dimensions, #[trigger] path[k]) && self.cell_at(
                path[k],
            ) is Uninitialized
        &&& forall|k: int| 0 <= k < path.len() - 1 ==> adjacent(#[trigger] path[k], path[k + 1])
    }

    /// Whether `to` can be reached from `from` over unclassified voxels.
    pub open spec fn reachable(self, from: UVec3, to: UVec3) -> bool {
        exists|path: Seq<UVec3>|
            #[trigger] self.blank_walk(path) && path[0] == from && path.last() == to
    }

    /// The grid after the exterior has been flooded: every unclassified
    /// voxel that the seed reaches is exterior, and nothing else changed.
    pub open spec fn flooded(self) -> GridView {
        GridView {
            cells: Seq::new(
                self.cells.len(),
                |i: int|
                    if self.cells[i] is Uninitialized && self.reachable(
                        seed(),
                        position_of(self.dimensions, i),
                    ) {
                        GridCell::Exterior
                    } else {
                        self.cells[i]
                    },
            ),
            ..self
        }
    }

    /// The grid after every unclassified voxel has become interior.
    ///
    /// The new cells take fresh zeroed runs at the end of the buffer, in the
    /// order of their flat indices.
    pub open spec fn enclosed(self) -> GridView {
        GridView {
            cells: Seq::new(
                self.cells.len(),
                |i: int|
                    if self.cells[i] is Uninitialized {
                        GridCell::Interior(
                            (self.weights.len() + self.depth * tally(
                                self.cells.take(i),
                                is_blank(),
                            )) as usize,
                        )
                    } else {
                        self.cells[i]
                    },
            ),
            weights: self.weights + Weight::zeros(self.depth * tally(self.cells, is_blank())),
            ..self
        }
    }
}

/// An unclassified voxel reaches itself.
pub proof fn lemma_reach_self(g: GridView, p: UVec3)
    requires
        inside(g.dimensions, p),
        g.cell_at(p) is Uninitialized,
    ensures
        g.reachable(p, p),
{
    assert(g.blank_walk(seq![p]));
}

/// A walk can be continued to an unclassified face neighbour of its end.
pub proof fn lemma_reach_step(g: GridView, from: UVec3, mid: UVec3, to: UVec3)
    requires
        g.reachable(from, mid),
        inside(g.dimensions, to),
        adjacent(mid, to),
        g.cell_at(to) is Uninitialized,
    ensures
        g.reachable(from, to),
{
    let path = choose|path: Seq<UVec3>|
        #[trigger] g.blank_walk(path) && path[0] == from && path.last() == mid;
    let longer = path.push(to);
    assert forall|k: int| 0 <= k < longer.len() - 1 implies adjacent(
        #[trigger] longer[k],
        longer[k + 1],
    ) by {
        if k < path.len() - 1 {
            assert(adjacent(path[k], path[k + 1]));
        }
    }
    assert(g.blank_walk(longer));
}

/// What flooding does to one voxel.
pub proof fn lemma_flooded_cell(g: GridView, p: UVec3)
    requires
        g.wf(),
        inside(g.dimensions, p),
    ensures
        g.flooded().cell_at(p) == if g.cell_at(p) is Uninitialized && g.reachable(seed(), p) {
            GridCell::Exterior
        } else {
            g.cell_at(p)
        },
{
    lemma_flat_index_bound(g.dimensions, p);
    lemma_position_of_flat_index(g.dimensions, p);
}

/// Flooding keeps the invariant of the grid.
pub proof fn lemma_flooded_wf(g: GridView)
    requires
        g.wf(),
    ensures
        g.flooded().wf(),
{
    let f = g.flooded();
    assert forall|i: int| 0 <= i < g.cells.len() implies (#[trigger] f.cells[i]).slot()
        == g.cells[i].slot() by {}
    assert forall|i: int| 0 <= i < g.cells.len() implies owns_run()(#[trigger] f.cells[i])
        == owns_run()(g.cells[i]) by {
        assert(f.cells[i].slot() == g.cells[i].slot());
    }
    lemma_tally_agree(f.cells, g.cells, owns_run());
    assert(f.runs_in_range()) by {
        assert forall|i: int| 0 <= i < f.cells.len() implies match (#[trigger] f.cells[i]).slot() {
            Some(s) => (s as int) % (f.depth as int) == 0 && s + f.depth <= f.weights.len(),
            None => true,
        } by {
            assert(f.cells[i].slot() == g.cells[i].slot());
        }
    }
    assert(f.runs_disjoint()) by {
        assert forall|i: int, j: int|
            0 <= i < f.cells.len() && 0 <= j < f.cells.len() && i != j implies match (
                (#[trigger] f.cells[i]).slot(),
                (#[trigger] f.cells[j]).slot(),
            ) {
                (Some(s), Some(t)) => s + f.depth <= t || t + f.depth <= s,
                _ => true,
            } by {
            assert(f.cells[i].slot() == g.cells[i].slot());
            assert(f.cells[j].slot() == g.cells[j].slot());
        }
    }
    assert(f.phased()) by {
        assert forall|i: int, j: int|
            0 <= i < f.cells.len() && 0 <= j < f.cells.len() implies !((
            #[trigger] f.cells[i]) is Interior && (#[trigger] f.cells[j]) is Uninitialized) by {
            assert(f.cells[i] is Interior ==> g.cells[i] is Interior);
            assert(f.cells[j] is Uninitialized ==> g.cells[j] is Uninitialized);
        }
    }
    assert(f.runs_cover()) by {
        assert forall|at: int| 0 <= at < f.weights.len() implies #[trigger] f.owned(at) by {
            assert(g.owned(at));
            let i = choose|i: int| #[trigger] g.owns(i, at);
            assert(f.cells[i].slot() == g.cells[i].slot());
            assert(f.owns(i, at));
        }
    }
    assert(f.sealed()) by {
        assert forall|p: UVec3, q: UVec3|
            inside(f.dimensions, p) && inside(f.dimensions, q) && #[trigger] adjacent(p, q)
                && f.cell_at(p) is Exterior implies f.cell_at(q) is Exterior || f.cell_at(
                q,
            ) is Boundary by {
            lemma_flooded_cell(g, p);
            lemma_flooded_cell(g, q);
            lemma_flat_index_bound(g.dimensions, p);
            lemma_flat_index_bound(g.dimensions, q);
            if g.cell_at(p) is Exterior {
                assert(g.cell_at(q) is Exterior || g.cell_at(q) is Boundary);
            } else {
                assert(g.cell_at(p) is Uninitialized && g.reachable(seed(), p));
                if g.cell_at(q) is Uninitialized {
                    lemma_reach_step(g, seed(), p, q);
                } else {
                    // An interior voxel and an unclassified one never coexist.
                    assert(!(g.cells[flat_index(g.dimensions, q)] is Interior
                        && g.cells[flat_index(g.dimensions, p)] is Uninitialized));
                }
            }
        }
    }
}

/// While flooding: each cell is as it was at the start, or it was
/// unclassified, the seed reaches it, and it is exterior now.
spec fn flood_progress(start: GridView, cur: GridView) -> bool {
    &&& cur.dimensions == start.dimensions
    &&& cur.depth == start.depth
    &&& cur.weights == start.weights
    &&& cur.cells.len() == start.cells.len()
    &&& forall|i: int|
        0 <= i < start.cells.len() ==> {
            ||| #[trigger] cur.cells[i] == start.cells[i]
            ||| (start.cells[i] is Uninitialized && cur.cells[i] is Exterior && start.reachable(
                seed(),
                position_of(start.dimensions, i),
            ))
        }
}

/// While flooding: every voxel that waits on the stack lies in the grid,
/// and the seed reaches it if it was unclassified at the start.
spec fn flood_pending(start: GridView, stack: Seq<UVec3>) -> bool {
    forall|k: int|
        0 <= k < stack.len() ==> inside(start.dimensions, #[trigger] stack[k]) && (start.cell_at(
            stack[k],
        ) is Uninitialized ==> start.reachable(seed(), stack[k]))
}

/// While flooding: a face neighbour of a voxel that the fill has turned
/// exterior is classified or waits on the stack.
spec fn flood_frontier(start: GridView, cur: GridView, stack: Seq<UVec3>) -> bool {
    forall|p: UVec3, q: UVec3|
        inside(start.dimensions, p) && inside(start.dimensions, q) && #[trigger] adjacent(p, q)
            && start.cell_at(p) is Uninitialized && cur.cell_at(p) is Exterior ==> !(cur.cell_at(
            q,
        ) is Uninitialized) || stack.contains(q)
}

/// While flooding: the seed is classified or waits on the stack.
spec fn flood_seed(cur: GridView, stack: Seq<UVec3>) -> bool {
    stack.contains(seed()) || !(cur.cell_at(seed()) is Uninitialized)
}

/// Once the stack is empty, every voxel on a walk from the seed has been
/// classified.
proof fn lemma_flood_complete(start: GridView, cur: GridView, path: Seq<UVec3>, k: int)
    requires
        start.wf(),
        flood_progress(start, cur),
        flood_frontier(start, cur, Seq::empty()),
        flood_seed(cur, Seq::empty()),
        start.blank_walk(path),
        path[0] == seed(),
        0 <= k < path.len(),
    ensures
        cur.cell_at(path[k]) is Exterior,
    decreases k,
{
    let empty = Seq::<UVec3>::empty();
    assert(!empty.contains(seed()));
    assert(inside(start.dimensions, path[k]));
    lemma_flat_index_bound(start.dimensions, path[k]);
    let i = flat_index(start.dimensions, path[k]);
    assert(start.cells[i] is Uninitialized);
    assert(cur.cells[i] == start.cells[i] || cur.cells[i] is Exterior);
    if k == 0 {
        assert(!(cur.cell_at(seed()) is Uninitialized));
    } else {
        lemma_flood_complete(start, cur, path, k - 1);
        assert(inside(start.dimensions, path[k - 1]));
        assert(adjacent(path[k - 1], path[k - 1 + 1]));
        assert(!empty.contains(path[k]));
    }
}

/// A voxel on a list is its last entry or is on the list without it.
proof fn lemma_contains_drop_last(stack: Seq<UVec3>, q: UVec3)
    requires
        stack.len() > 0,
        stack.contains(q),
    ensures
        q == stack.last() || stack.drop_last().contains(q),
{
    let k = choose|k: int| 0 <= k < stack.len() && stack[k] == q;
    if k < stack.len() - 1 {
        assert(stack.drop_last()[k] == q);
    }
}

impl Grid {
    /// Floods the exterior from the corner of the grid.
    ///
    /// Every unclassified voxel that can be reached from the seed over
    /// unclassified face neighbours becomes exterior; classified voxels stop
    /// the fill and stay as they are, and so does the coordinate buffer.
    ///
    /// The seed is the voxel at the origin, which is taken to lie outside
    /// the cage. Where that voxel is classified already, as it is when the
    /// surface of the cage passes through the corner of its bounding box,
    /// nothing is flooded and the grid stays as it is: every unclassified
    /// voxel then counts as enclosed and becomes interior in the next step,
    /// also one that lies outside the cage.
    pub fn fill_exterior(&mut self)
        requires
            old(self).wf(),
        ensures
            final(self).wf(),
            final(self).view() == old(self).view().flooded(),
            final(self).setting() == old(self).setting(),
    {
        let ghost start = self.view();
        let dims = self.dimensions;
        let mut stack: Vec<UVec3> = Vec::new();
        stack.push(UVec3 { x: 0, y: 0, z: 0 });
        proof {
            assert(stack@[0] == seed());
            assert forall|k: int| 0 <= k < stack@.len() implies inside(
                start.dimensions,
                #[trigger] stack@[k],
            ) && (start.cell_at(stack@[k]) is Uninitialized ==> start.reachable(seed(), stack@[k])) by {
                if start.cell_at(seed()) is Uninitialized {
                    lemma_reach_self(start, seed());
                }
            }
        }
        while stack.len() > 0
            invariant
                start.wf(),
                start == old(self).view(),
                dims == start.dimensions,
                self.setting() == old(self).setting(),
                self.cage.faces_in_range(),
                flood_progress(start, self.view()),
                flood_pending(start, stack@),
                flood_frontier(start, self.view(), stack@),
                flood_seed(self.view(), stack@),
            decreases tally(self.view().cells, is_blank()), stack@.len(),
        {
            let ghost before = self.view();
            let ghost waiting = stack@;
            let pos = stack.pop().unwrap();
            proof {
                assert(stack@ =~= waiting.drop_last());
                assert(pos == waiting[waiting.len() - 1]);
                assert(inside(dims, pos));
                lemma_flat_index_bound(dims, pos);
            }
            let index = index_in(dims, pos).unwrap();
            if self.cell_types[index].uninitialized() {
                self.cell_types[index] = GridCell::Exterior;
                let mut around = neighbours(dims, pos);
                stack.append(&mut around);
                proof {
                    let cur = self.view();
                    let rest = waiting.drop_last();
                    let ring = neighbours_of(dims, pos);
                    assert(stack@ == rest + ring);
                    assert(cur.cells == before.cells.update(index as int, GridCell::Exterior));
                    lemma_tally_update(before.cells, is_blank(), index as int, GridCell::Exterior);
                    lemma_position_of_flat_index(dims, pos);
                    assert(start.cells[index as int] is Uninitialized);
                    assert(start.reachable(seed(), pos));
                    assert(flood_progress(start, cur));
                    assert forall|k: int| 0 <= k < stack@.len() implies inside(
                        start.dimensions,
                        #[trigger] stack@[k],
                    ) && (start.cell_at(stack@[k]) is Uninitialized ==> start.reachable(
                        seed(),
                        stack@[k],
                    )) by {
                        if k < rest.len() {
                            assert(stack@[k] == waiting[k]);
                        } else {
                            let n = ring[k - rest.len()];
                            assert(stack@[k] == n);
                            assert(ring.contains(n));
                            lemma_neighbours_of(dims, pos, n);
                            if start.cell_at(n) is Uninitialized {
                                lemma_reach_step(start, seed(), pos, n);
                            }
                        }
                    }
                    assert forall|p: UVec3, q: UVec3|
                        inside(start.dimensions, p) && inside(start.dimensions, q)
                            && #[trigger] adjacent(p, q) && start.cell_at(p) is Uninitialized
                            && cur.cell_at(p) is Exterior implies !(cur.cell_at(q) is Uninitialized)
                        || stack@.contains(q) by {
                        lemma_flat_index_bound(dims, p);
                        lemma_flat_index_bound(dims, q);
                        lemma_concat_contains(rest, ring, q);
                        if flat_index(dims, p) == index {
                            lemma_flat_index_injective(dims, p, pos);
                            lemma_neighbours_of(dims, pos, q);
                        } else {
                            assert(before.cell_at(p) is Exterior);
                            if before.cell_at(q) is Uninitialized {
                                assert(waiting.contains(q));
                                lemma_contains_drop_last(waiting, q);
                                if q == pos {
                                    assert(cur.cell_at(q) is Exterior);
                                }
                            }
                        }
                    }
                    assert(flood_seed(cur, stack@)) by {
                        lemma_flat_index_bound(dims, seed());
                        lemma_concat_contains(rest, ring, seed());
                        if waiting.contains(seed()) {
                            lemma_contains_drop_last(waiting, seed());
                        }
                    }
                }
            } else {
                proof {
                    let cur = self.view();
                    assert(cur == before);
                    assert forall|p: UVec3, q: UVec3|
                        inside(start.dimensions, p) && inside(start.dimensions, q)
                            && #[trigger] adjacent(p, q) && start.cell_at(p) is Uninitialized
                            && cur.cell_at(p) is Exterior implies !(cur.cell_at(q) is Uninitialized)
                        || stack@.contains(q) by {
                        if cur.cell_at(q) is Uninitialized {
                            assert(waiting.contains(q));
                            lemma_contains_drop_last(waiting, q);
                        }
                    }
                    assert(flood_seed(cur, stack@)) by {
                        if waiting.contains(seed()) {
                            lemma_contains_drop_last(waiting, seed());
                        }
                    }
                }
            }
        }
        proof {
            let cur = self.view();
            let goal = start.flooded();
            assert(stack@ =~= Seq::<UVec3>::empty());
            assert forall|i: int| 0 <= i < cur.cells.len() implies cur.cells[i] == goal.cells[i] by {
                let p = position_of(start.dimensions, i);
                if start.cells[i] is Uninitialized && start.reachable(seed(), p) {
                    let path = choose|path: Seq<UVec3>|
                        #[trigger] start.blank_walk(path) && path[0] == seed() && path.last() == p;
                    lemma_flood_complete(start, cur, path, path.len() - 1);
                    lemma_position_of(start.dimensions, i);
                }
            }
            assert(cur.cells =~= goal.cells);
            assert(cur == goal);
            lemma_flooded_wf(start);
        }
    }
}

/// In a grid whose unclassified cells have become interior, the cells of
/// a prefix that own a run are those that owned one before and those that
/// were unclassified.
proof fn lemma_enclosed_tally(g: GridView, n: int)
    requires
        0 <= n <= g.cells.len(),
    ensures
        tally(g.enclosed().cells.take(n), owns_run()) == tally(g.cells.take(n), owns_run()) + tally(
            g.cells.take(n),
            is_blank(),
        ),
    decreases n,
{
    let e = g.enclosed();
    if n > 0 {
        lemma_enclosed_tally(g, n - 1);
        lemma_tally_take_next(e.cells, owns_run(), n - 1);
        lemma_tally_take_next(g.cells, owns_run(), n - 1);
        lemma_tally_take_next(g.cells, is_blank(), n - 1);
    } else {
        assert(e.cells.take(0) =~= Seq::<GridCell>::empty());
        assert(g.cells.take(0) =~= Seq::<GridCell>::empty());
    }
}

/// Offset of the run that the unclassified cell at flat index `i` takes
/// when it becomes interior.
spec fn fresh_slot(g: GridView, i: int) -> int {
    (g.weights.len() + g.depth * tally(g.cells.take(i), is_blank())) as int
}

/// The runs handed to unclassified cells lie behind the old buffer, at
/// multiples of the depth, one after the other, inside the new buffer.
proof fn lemma_fresh_slot(g: GridView, i: int, j: int)
    requires
        g.wf(),
        0 <= i < g.cells.len(),
        0 <= j < g.cells.len(),
        g.cells[i] is Uninitialized,
    ensures
        g.weights.len() <= fresh_slot(g, i),
        fresh_slot(g, i) % (g.depth as int) == 0,
        fresh_slot(g, i) + g.depth <= g.weights.len() + g.depth * tally(g.cells, is_blank()),
        i < j && g.cells[j] is Uninitialized ==> fresh_slot(g, i) + g.depth <= fresh_slot(g, j),
{
    let d = g.depth as int;
    let owned = tally(g.cells, owns_run()) as int;
    let t = tally(g.cells.take(i), is_blank()) as int;
    let total = tally(g.cells, is_blank()) as int;
    lemma_tally_take_next(g.cells, is_blank(), i);
    lemma_tally_take_monotone(g.cells, is_blank(), i + 1, g.cells.len() as int);
    assert(g.cells.take(g.cells.len() as int) =~= g.cells);
    assert(t + 1 <= total);
    assert(0 <= d * t && d * t + d <= d * total && d * owned + d * t == (owned + t) * d)
        by (nonlinear_arith)
        requires
            0 <= t,
            t + 1 <= total,
            d > 0,
    ;
    vstd::arithmetic::div_mod::lemma_mod_multiples_basic(owned + t, d);
    if i < j && g.cells[j] is Uninitialized {
        let u = tally(g.cells.take(j), is_blank()) as int;
        lemma_tally_take_monotone(g.cells, is_blank(), i + 1, j);
        assert(d * t + d <= d * u) by (nonlinear_arith)
            requires
                t + 1 <= u,
                d > 0,
        ;
    }
}

/// Once the unclassified voxels have become interior, none is left.
pub proof fn lemma_enclosed_classified(g: GridView)
    ensures
        forall|i: int|
            0 <= i < g.cells.len() ==> !((#[trigger] g.enclosed().cells[i]) is Uninitialized),
{
}

/// Turning every unclassified voxel into an interior one keeps the
/// invariant of the grid, as long as the longer buffer fits the machine.
pub proof fn lemma_enclosed_wf(g: GridView)
    requires
        g.wf(),
        g.weights.len() + g.depth * tally(g.cells, is_blank()) <= usize::MAX,
    ensures
        g.enclosed().wf(),
{
    let e = g.enclosed();
    let d = g.depth as int;
    let owned = tally(g.cells, owns_run()) as int;
    let total = tally(g.cells, is_blank()) as int;
    lemma_enclosed_tally(g, g.cells.len() as int);
    assert(g.cells.take(g.cells.len() as int) =~= g.cells);
    assert(e.cells.take(g.cells.len() as int) =~= e.cells);
    assert(d * owned + d * total == d * (owned + total)) by (nonlinear_arith);
    assert(e.weights.len() == e.depth * tally(e.cells, owns_run()));
    assert forall|i: int| 0 <= i < e.cells.len() && g.cells[i] is Uninitialized implies (
    #[trigger] e.cells[i]) == GridCell::Interior(fresh_slot(g, i) as usize) && fresh_slot(g, i)
        <= usize::MAX by {
        lemma_fresh_slot(g, i, i);
    }
    assert(e.runs_in_range()) by {
        assert forall|i: int| 0 <= i < e.cells.len() implies match (#[trigger] e.cells[i]).slot() {
            Some(s) => (s as int) % (e.depth as int) == 0 && s + e.depth <= e.weights.len(),
            None => true,
        } by {
            if g.cells[i] is Uninitialized {
                lemma_fresh_slot(g, i, i);
            } else {
                assert(e.cells[i] == g.cells[i]);
            }
        }
    }
    assert(e.runs_disjoint()) by {
        assert forall|i: int, j: int|
            0 <= i < e.cells.len() && 0 <= j < e.cells.len() && i != j implies match (
                (#[trigger] e.cells[i]).slot(),
                (#[trigger] e.cells[j]).slot(),
            ) {
                (Some(s), Some(t)) => s + e.depth <= t || t + e.depth <= s,
                _ => true,
            } by {
            if g.cells[i] is Uninitialized {
                lemma_fresh_slot(g, i, j);
            } else {
                assert(e.cells[i] == g.cells[i]);
            }
            if g.cells[j] is Uninitialized {
                lemma_fresh_slot(g, j, i);
            } else {
                assert(e.cells[j] == g.cells[j]);
            }
        }
    }
    assert(e.runs_cover()) by {
        assert forall|at: int| 0 <= at < e.weights.len() implies #[trigger] e.owned(at) by {
            if at < g.weights.len() {
                assert(g.owned(at));
                let i = choose|i: int| #[trigger] g.owns(i, at);
                assert(e.cells[i] == g.cells[i]);
                assert(e.owns(i, at));
            } else {
                let k = (at - g.weights.len()) / d;
                let r = (at - g.weights.len()) % d;
                vstd::arithmetic::div_mod::lemma_fundamental_div_mod(at - g.weights.len(), d);
                vstd::arithmetic::div_mod::lemma_mod_bound(at - g.weights.len(), d);
                assert(0 <= k < total) by (nonlinear_arith)
                    requires
                        at - g.weights.len() == d * k + r,
                        0 <= r < d,
                        0 <= at - g.weights.len() < d * total,
                ;
                let i = lemma_tally_select(g.cells, is_blank(), k);
                assert(d * (k + 1) == d * k + d) by (nonlinear_arith);
                assert(e.cells[i] == GridCell::Interior(fresh_slot(g, i) as usize));
                assert(e.owns(i, at));
            }
        }
    }
    assert(e.sealed()) by {
        assert forall|p: UVec3, q: UVec3|
            inside(e.dimensions, p) && inside(e.dimensions, q) && #[trigger] adjacent(p, q)
                && e.cell_at(p) is Exterior implies e.cell_at(q) is Exterior || e.cell_at(
                q,
            ) is Boundary by {
            lemma_flat_index_bound(g.dimensions, p);
            lemma_flat_index_bound(g.dimensions, q);
            assert(g.cell_at(p) is Exterior);
            assert(g.cell_at(q) is Exterior || g.cell_at(q) is Boundary);
        }
    }
}

/// Flooding a second time changes nothing: after the first fill the seed
/// is classified, so no walk over unclassified voxels starts from it.
pub proof fn lemma_flooded_twice(g: GridView)
    requires
        g.wf(),
    ensures
        g.flooded().flooded() == g.flooded(),
{
    let f = g.flooded();
    lemma_flat_index_bound(g.dimensions, seed());
    lemma_flooded_cell(g, seed());
    if g.cell_at(seed()) is Uninitialized {
        lemma_reach_self(g, seed());
    }
    assert(!(f.cell_at(seed()) is Uninitialized));
    assert forall|i: int| 0 <= i < f.cells.len() implies !f.reachable(
        seed(),
        position_of(f.dimensions, i),
    ) by {
        if f.reachable(seed(), position_of(f.dimensions, i)) {
            let path = choose|path: Seq<UVec3>|
                #[trigger] f.blank_walk(path) && path[0] == seed() && path.last() == position_of(
                    f.dimensions,
                    i,
                );
            assert(f.cell_at(path[0]) is Uninitialized);
        }
    }
    assert(f.flooded().cells =~= f.cells);
}

/// Enclosing a second time changes nothing: after the first no voxel is
/// unclassified.
pub proof fn lemma_enclosed_twice(g: GridView)
    ensures
        g.enclosed().enclosed() == g.enclosed(),
{
    let e = g.enclosed();
    lemma_enclosed_classified(g);
    assert forall|i: int| 0 <= i < e.cells.len() implies !is_blank()(#[trigger] e.cells[i]) by {}
    lemma_tally_zero(e.cells, is_blank());
    assert(e.depth * 0 == 0);
    assert(e.enclosed().cells =~= e.cells);
    assert(e.enclosed().weights =~= e.weights);
}

/// After the exterior has been flooded and the rest enclosed, no voxel is
/// unclassified: a voxel is exterior exactly if it was so before or was
/// unclassified and within reach of the seed, it is boundary exactly if it
/// was so before, and every other voxel is interior.
pub proof fn lemma_classification(g: GridView, p: UVec3)
    requires
        g.wf(),
        inside(g.dimensions, p),
    ensures
        ({
            let done = g.flooded().enclosed().cell_at(p);
            let was = g.cell_at(p);
            &&& !(done is Uninitialized)
            &&& done is Exterior <==> was is Exterior || (was is Uninitialized && g.reachable(
                seed(),
                p,
            ))
            &&& done is Boundary <==> was is Boundary
            &&& done is Interior <==> was is Interior || (was is Uninitialized && !g.reachable(
                seed(),
                p,
            ))
            &&& was is Boundary || was is Interior ==> done == was
        }),
{
    lemma_flooded_cell(g, p);
    lemma_flat_index_bound(g.dimensions, p);
}

impl Grid {
    /// Turns every voxel that is still unclassified into an interior voxel
    /// with a zeroed coordinate vector of its own.
    ///
    /// The new runs are appended to the buffer in the order of the flat
    /// indices of their cells; no other cell and no older weight changes.
    pub fn mark_interior(&mut self)
        requires
            old(self).wf(),
        ensures
            final(self).wf(),
            final(self).view() == old(self).view().enclosed(),
            final(self).setting() == old(self).setting(),
    {
        let ghost start = self.view();
        let depth: usize = self.cage.vertices.len();
        let count: usize = self.cell_types.len();
        let mut i: usize = 0;
        proof {
            assert(start.cells.take(0) =~= Seq::<GridCell>::empty());
            assert(start.weights + Weight::zeros(0) =~= start.weights);
            assert(start.depth * 0 == 0);
        }
        while i < count
            invariant
                i <= count,
                count == start.cells.len(),
                depth == start.depth,
                start.wf(),
                start == old(self).view(),
                self.setting() == old(self).setting(),
                self.cage.faces_in_range(),
                self.view().dimensions == start.dimensions,
                self.view().depth == start.depth,
                self.view().cells.len() == count,
                forall|j: int| 0 <= j < i ==> self.view().cells[j] == start.enclosed().cells[j],
                forall|j: int| i <= j < count ==> self.view().cells[j] == start.cells[j],
                self.view().weights == start.weights + Weight::zeros(
                    start.depth * tally(start.cells.take(i as int), is_blank()),
                ),
            decreases count - i,
        {
            let ghost before = tally(start.cells.take(i as int), is_blank());
            proof {
                lemma_tally_take_next(start.cells, is_blank(), i as int);
                assert(start.depth * (before + 1) == start.depth * before + start.depth)
                    by (nonlinear_arith);
            }
            if self.cell_types[i].uninitialized() {
                let slot: usize = self.cell_data.len();
                extend_zeros(&mut self.cell_data, depth);
                self.cell_types[i] = GridCell::Interior(slot);
                proof {
                    lemma_zeros_concat(start.depth * before, start.depth);
                    assert(self.view().weights =~= start.weights + Weight::zeros(
                        start.depth * (before + 1),
                    ));
                }
            }
            i = i + 1;
        }
        proof {
            let cur = self.view();
            let goal = start.enclosed();
            assert(start.cells.take(count as int) =~= start.cells);
            assert(self.cell_data.len() == start.weights.len() + start.depth * tally(
                start.cells,
                is_blank(),
            ));
            assert(cur.cells =~= goal.cells);
            assert(cur == goal);
            lemma_enclosed_wf(start);
        }
    }
}

} // verus!
