//! Writing the cage surface into the grid: every voxel that a triangle of
//! the cage touches becomes a boundary voxel and takes the triangle's
//! weights for its three corners.

use vstd::prelude::*;
use glam::{UVec3, Vec3};
use crate::cage::{first_degenerate, first_degenerate_is, Cage};
use crate::cell::GridCell;
use crate::grid::{Grid, GridError, GridView};
use crate::lattice::{
    adjacent,
    cell_count,
    flat_index,
    index_in,
    inside,
    lemma_flat_index_bound,
    position_at,
    position_of,
};
use crate::tally::{lemma_tally_update, owns_run, tally};
use crate::weight::Weight;

verus! {

impl GridView {
    /// Whether nothing but boundaries has been classified so far.
    pub open spec fn unclassified(self) -> bool {
        forall|i: int|
            0 <= i < self.cells.len() ==> (#[trigger] self.cells[i]) is Uninitialized
                || self.cells[i] is Boundary
    }

    /// The grid after one triangle has struck the voxel `cell`.
    ///
    /// The voxel becomes a boundary voxel, with a zeroed run if it had none,
    /// and the three `weights` are written, in order, to the places of the
    /// three `corners` in its run. A later write to the same place wins.
    pub open spec fn struck(self, cell: UVec3, corners: Seq<u32>, weights: Seq<Weight>) -> GridView {
        let i = flat_index(self.dimensions, cell);
        let (marked, data) = self.cells[i].marked(self.weights, self.depth);
        let s = marked.slot().unwrap() as int;
        GridView {
            cells: self.cells.update(i, marked),
            weights: data.update(s + corners[0], weights[0]).update(
                s + corners[1],
                weights[1],
            ).update(s + corners[2], weights[2]),
            ..self
        }
    }

    /// Whether `later` differs from `self` in its cells at most in that
    /// unclassified cells have become boundary cells. Every other cell,
    /// and with it the place of every run, is the same.
    pub open spec fn marks_to(self, later: GridView) -> bool {
        &&& later.dimensions == self.dimensions
        &&& later.depth == self.depth
        &&& later.cells.len() == self.cells.len()
        &&& forall|j: int|
            0 <= j < self.cells.len() ==> #[trigger] later.cells[j] == self.cells[j] || (
            self.cells[j] is Uninitialized && later.cells[j] is Boundary)
    }

    /// Whether a triangle with these corners may strike the voxel `cell`:
    /// the voxel lies in the grid and is unclassified or boundary, and the
    /// corners name vertices of the cage.
    pub open spec fn strikable(self, cell: UVec3, corners: Seq<u32>) -> bool {
        &&& inside(self.dimensions, cell)
        &&& self.cell_at(cell) is Uninitialized || self.cell_at(cell) is Boundary
        &&& corners.len() == 3
        &&& corners[0] < self.depth && corners[1] < self.depth && corners[2] < self.depth
    }
}

/// Writing three weights into a run that was cut out of a buffer, and
/// putting the run back, is writing them into the buffer at the run's
/// offset.
proof fn lemma_write_through_run(
    data: Seq<Weight>,
    slot: int,
    depth: int,
    corners: Seq<u32>,
    weights: Seq<Weight>,
)
    requires
        0 <= slot,
        slot + depth <= data.len(),
        corners.len() == 3,
        weights.len() == 3,
        corners[0] < depth && corners[1] < depth && corners[2] < depth,
    ensures
        data.subrange(0, slot) + data.subrange(slot, slot + depth).update(
            corners[0] as int,
            weights[0],
        ).update(corners[1] as int, weights[1]).update(corners[2] as int, weights[2])
            + data.subrange(slot + depth, data.len() as int) == data.update(
            slot + corners[0],
            weights[0],
        ).update(slot + corners[1], weights[1]).update(slot + corners[2], weights[2]),
{
    let run = data.subrange(slot, slot + depth).update(corners[0] as int, weights[0]).update(
        corners[1] as int,
        weights[1],
    ).update(corners[2] as int, weights[2]);
    let whole = data.subrange(0, slot) + run + data.subrange(slot + depth, data.len() as int);
    let direct = data.update(slot + corners[0], weights[0]).update(
        slot + corners[1],
        weights[1],
    ).update(slot + corners[2], weights[2]);
    assert(whole.len() == direct.len());
    assert forall|at: int| 0 <= at < whole.len() implies whole[at] == direct[at] by {
        if slot <= at < slot + depth {
            assert(whole[at] == run[at - slot]);
        }
    }
    assert(whole =~= direct);
}

/// A strike keeps the invariant of the grid, as long as the buffer that
/// results fits the machine.
pub proof fn lemma_struck_wf(g: GridView, cell: UVec3, corners: Seq<u32>, weights: Seq<Weight>)
    requires
        g.wf(),
        g.strikable(cell, corners),
        g.struck(cell, corners, weights).weights.len() <= usize::MAX,
    ensures
        g.struck(cell, corners, weights).wf(),
        g.unclassified() ==> g.struck(cell, corners, weights).unclassified(),
{
    let h = g.struck(cell, corners, weights);
    let i = flat_index(g.dimensions, cell);
    let d = g.depth as int;
    let owned = tally(g.cells, owns_run()) as int;
    lemma_flat_index_bound(g.dimensions, cell);
    lemma_tally_update(g.cells, owns_run(), i, h.cells[i]);
    assert(d * (owned + 1) == d * owned + d) by (nonlinear_arith);
    vstd::arithmetic::div_mod::lemma_mod_multiples_basic(owned, d);
    assert(owned * d == d * owned) by (nonlinear_arith);
    assert(h.weights.len() == h.depth * tally(h.cells, owns_run()));
    assert(h.runs_in_range()) by {
        assert forall|j: int| 0 <= j < h.cells.len() implies match (#[trigger] h.cells[j]).slot() {
            Some(s) => (s as int) % (h.depth as int) == 0 && s + h.depth <= h.weights.len(),
            None => true,
        } by {
            if j != i {
                assert(h.cells[j] == g.cells[j]);
            }
        }
    }
    assert(h.runs_disjoint()) by {
        assert forall|j: int, k: int|
            0 <= j < h.cells.len() && 0 <= k < h.cells.len() && j != k implies match (
                (#[trigger] h.cells[j]).slot(),
                (#[trigger] h.cells[k]).slot(),
            ) {
                (Some(s), Some(t)) => s + h.depth <= t || t + h.depth <= s,
                _ => true,
            } by {
            if j != i {
                assert(h.cells[j] == g.cells[j]);
            }
            if k != i {
                assert(h.cells[k] == g.cells[k]);
            }
        }
    }
    assert(h.phased()) by {
        assert forall|j: int, k: int|
            0 <= j < h.cells.len() && 0 <= k < h.cells.len() implies !((
            #[trigger] h.cells[j]) is Interior && (#[trigger] h.cells[k]) is Uninitialized) by {
            assert(h.cells[j] is Interior ==> g.cells[j] is Interior);
            assert(h.cells[k] is Uninitialized ==> g.cells[k] is Uninitialized);
        }
    }
    assert(h.runs_cover()) by {
        assert forall|at: int| 0 <= at < h.weights.len() implies #[trigger] h.owned(at) by {
            if at < g.weights.len() {
                assert(g.owned(at));
                let j = choose|j: int| #[trigger] g.owns(j, at);
                assert(h.cells[j].slot() == g.cells[j].slot());
                assert(h.owns(j, at));
            } else {
                assert(h.owns(i, at));
            }
        }
    }
    assert(h.sealed()) by {
        assert forall|p: UVec3, q: UVec3|
            inside(h.dimensions, p) && inside(h.dimensions, q) && #[trigger] adjacent(p, q)
                && h.cell_at(p) is Exterior implies h.cell_at(q) is Exterior || h.cell_at(
                q,
            ) is Boundary by {
            lemma_flat_index_bound(g.dimensions, p);
            lemma_flat_index_bound(g.dimensions, q);
            assert(g.cell_at(p) is Exterior);
            assert(g.cell_at(q) is Exterior || g.cell_at(q) is Boundary);
        }
    }
    if g.unclassified() {
        assert forall|j: int| 0 <= j < h.cells.len() implies (#[trigger] h.cells[j]) is Uninitialized
            || h.cells[j] is Boundary by {
            if j != i {
                assert(h.cells[j] == g.cells[j]);
            }
        }
    }
}

/// What a strike leaves at place `k` of the run of the voxel it strikes:
/// the last of the three weights whose corner is `k`, if there is one.
pub open spec fn written(corners: Seq<u32>, weights: Seq<Weight>, k: int) -> Option<Weight> {
    if corners[2] == k {
        Some(weights[2])
    } else if corners[1] == k {
        Some(weights[1])
    } else if corners[0] == k {
        Some(weights[0])
    } else {
        None
    }
}

/// What a strike does, cell by cell and weight by weight.
///
/// The struck voxel is a boundary voxel afterwards, and if it was one
/// before, its run stays where it is. Each place of its run holds the last
/// weight written to it, or else what it held before, which is zero for a
/// run that the strike allocated. No other cell changes, and no weight of
/// another cell's run.
pub proof fn lemma_struck_effect(
    g: GridView,
    cell: UVec3,
    corners: Seq<u32>,
    weights: Seq<Weight>,
    j: int,
    k: int,
)
    requires
        g.wf(),
        g.strikable(cell, corners),
        g.weights.len() <= usize::MAX,
        0 <= j < g.cells.len(),
        0 <= k < g.depth,
    ensures
        ({
            let h = g.struck(cell, corners, weights);
            let i = flat_index(g.dimensions, cell);
            &&& h.cells[i] is Boundary
            &&& g.cells[i] is Boundary ==> h.cells[i] == g.cells[i]
            &&& j != i ==> h.cells[j] == g.cells[j]
            &&& h.weights[h.cells[i].slot().unwrap() + k] == match written(corners, weights, k) {
                Some(weight) => weight,
                None => if g.cells[i] is Boundary {
                    g.weights[g.cells[i].slot().unwrap() + k]
                } else {
                    Weight::zero()
                },
            }
            &&& j != i && g.cells[j].slot() is Some ==> h.weights[g.cells[j].slot().unwrap() + k]
                == g.weights[g.cells[j].slot().unwrap() + k]
        }),
{
    let i = flat_index(g.dimensions, cell);
    lemma_flat_index_bound(g.dimensions, cell);
    let (marked, data) = g.cells[i].marked(g.weights, g.depth);
    let s = marked.slot().unwrap() as int;
    assert(g.cells[i].slot() is Some ==> s + g.depth <= g.weights.len());
    assert(0 <= s && s + g.depth <= data.len());
    if j != i && g.cells[j].slot() is Some {
        let t = g.cells[j].slot().unwrap() as int;
        assert(t + g.depth <= g.weights.len());
        assert(g.cells[i].slot() is Some ==> (s + g.depth <= t || t + g.depth <= s));
        assert(data[t + k] == g.weights[t + k]);
    }
}

/// Strikes only turn unclassified cells into boundary cells.
pub proof fn lemma_struck_marks(
    start: GridView,
    g: GridView,
    cell: UVec3,
    corners: Seq<u32>,
    weights: Seq<Weight>,
)
    requires
        start.marks_to(g),
        g.strikable(cell, corners),
        g.cells.len() == cell_count(g.dimensions),
    ensures
        start.marks_to(g.struck(cell, corners, weights)),
{
    let h = g.struck(cell, corners, weights);
    let i = flat_index(g.dimensions, cell);
    lemma_flat_index_bound(g.dimensions, cell);
    assert forall|j: int| 0 <= j < start.cells.len() implies #[trigger] h.cells[j] == start.cells[j]
        || (start.cells[j] is Uninitialized && h.cells[j] is Boundary) by {
        assert(g.cells[j] == start.cells[j] || (start.cells[j] is Uninitialized
            && g.cells[j] is Boundary));
        if j != i {
            assert(h.cells[j] == g.cells[j]);
        }
    }
}

/// Corners of one of the two triangles of a quad: `(0, 1, 2)` for the first
/// and `(2, 3, 0)` for the second.
pub open spec fn triangle_corners(face: Seq<u32>, second: bool) -> Seq<u32> {
    if second {
        seq![face[2], face[3], face[0]]
    } else {
        seq![face[0], face[1], face[2]]
    }
}

/// The voxel and the triangle of question `n` of a rasterisation pass.
///
/// A pass takes the faces in order, of each face the first triangle and
/// then the second, and for each triangle every voxel of the grid in the
/// order of the flat indices.
pub open spec fn question(dims: UVec3, faces: Seq<[u32; 4]>, n: int) -> (UVec3, Seq<u32>) {
    let count = cell_count(dims) as int;
    let triangle = n / count;
    (position_of(dims, n % count), triangle_corners(faces[triangle / 2]@, triangle % 2 == 1))
}

/// What the probe is told for question `n`: the voxel and the positions of
/// the triangle's three corners.
pub open spec fn question_args(dims: UVec3, cage: &Cage, n: int) -> (
    UVec3,
    Vec3,
    Vec3,
    Vec3,
) {
    let (cell, corners) = question(dims, cage.faces@, n);
    (
        cell,
        cage.vertices@[corners[0] as int],
        cage.vertices@[corners[1] as int],
        cage.vertices@[corners[2] as int],
    )
}

impl GridView {
    /// The grid after a rasterisation pass in which the probe gave
    /// `answers` to the first questions: every answer that holds weights is
    /// a strike on the voxel of its question, in the order of the questions.
    pub open spec fn rasterized(
        self,
        faces: Seq<[u32; 4]>,
        answers: Seq<Option<[Weight; 3]>>,
    ) -> GridView
        decreases answers.len(),
    {
        if answers.len() == 0 {
            self
        } else {
            let before = self.rasterized(faces, answers.drop_last());
            match answers.last() {
                Some(weights) => {
                    let (cell, corners) = question(self.dimensions, faces, answers.len() - 1);
                    before.struck(cell, corners, weights@)
                },
                None => before,
            }
        }
    }
}

/// Whether `last` is the grid after a pass over the whole grid that began
/// in the state `start`: `probe` answered every question of the pass, and
/// every answer that holds weights is a strike, in the order of the
/// questions.
pub open spec fn simply_rasterized<P: Fn(UVec3, Vec3, Vec3, Vec3) -> Option<[Weight; 3]>>(
    start: GridView,
    cage: &Cage,
    probe: P,
    last: GridView,
) -> bool {
    exists|answers: Seq<Option<[Weight; 3]>>|
        {
            &&& answers.len() == 2 * cage.faces@.len() * cell_count(start.dimensions)
            &&& forall|n: int|
                0 <= n < answers.len() ==> call_ensures(
                    probe,
                    question_args(start.dimensions, cage, n),
                    #[trigger] answers[n],
                )
            &&& last == #[trigger] start.rasterized(cage.faces@, answers)
        }
}

/// Whether `reason` is why a pass turns a cage away: the first face of
/// which `degenerate` found a triangle to have no area.
pub open spec fn turned_away<D: Fn(Vec3, Vec3, Vec3) -> bool>(
    degenerate: D,
    cage: &Cage,
    reason: GridError,
) -> bool {
    match reason {
        GridError::DegenerateFace(face) => first_degenerate_is(degenerate, cage, Some(face)),
        _ => false,
    }
}

/// Question `n` of a pass, where `n` counts `i` voxels into triangle
/// `second` of face `f`.
pub proof fn lemma_question(dims: UVec3, faces: Seq<[u32; 4]>, f: int, second: bool, i: int)
    requires
        0 <= f < faces.len(),
        0 <= i < cell_count(dims),
    ensures
        ({
            let t: int = if second { 1 } else { 0 };
            question(dims, faces, (2 * f + t) * cell_count(dims) + i) == (
                position_of(dims, i),
                triangle_corners(faces[f]@, second),
            )
        }),
{
    let t: int = if second { 1 } else { 0 };
    let count = cell_count(dims) as int;
    let n = (2 * f + t) * count + i;
    vstd::arithmetic::div_mod::lemma_fundamental_div_mod_converse(n, count, 2 * f + t, i);
    vstd::arithmetic::div_mod::lemma_fundamental_div_mod_converse(2 * f + t, 2, f, t);
}

impl Grid {
    /// Whether nothing but boundaries has been classified so far, which is
    /// when the grid can be rasterised.
    pub fn is_unclassified(&self) -> (yes: bool)
        ensures
            yes == self.view().unclassified(),
    {
        let count: usize = self.cell_types.len();
        let mut i: usize = 0;
        while i < count
            invariant
                count == self.view().cells.len(),
                i <= count,
                forall|j: int|
                    0 <= j < i ==> (#[trigger] self.view().cells[j]) is Uninitialized
                        || self.view().cells[j] is Boundary,
            decreases count - i,
        {
            match self.cell_types[i] {
                GridCell::Uninitialized => {},
                GridCell::Boundary(_) => {},
                _ => {
                    assert(!(self.view().cells[i as int] is Uninitialized
                        || self.view().cells[i as int] is Boundary));
                    return false;
                },
            }
            i = i + 1;
        }
        true
    }

    /// Rasterises the cage into the grid.
    ///
    /// For every triangle of every face and every voxel of the grid, `probe`
    /// is given the voxel and the positions of the triangle's corners. It
    /// answers with the weights of the three corners at the voxel where the
    /// triangle touches the voxel, and with `None` where it does not. Every
    /// touched voxel becomes a boundary voxel and takes the weights.
    ///
    /// The pass fails as a whole for a cage with a face without area:
    /// before anything is written, `degenerate` is asked of every triangle,
    /// as `first_degenerate` tells, and where it finds a triangle without
    /// area the grid stays as it is and the face is reported.
    pub fn mark_boundaries_simple<D, P>(&mut self, degenerate: D, probe: P) -> (done: Result<
        (),
        GridError,
    >) where
        D: Fn(Vec3, Vec3, Vec3) -> bool,
        P: Fn(UVec3, Vec3, Vec3, Vec3) -> Option<[Weight; 3]>,

        requires
            old(self).wf(),
            old(self).view().unclassified(),
            forall|a: Vec3, b: Vec3, c: Vec3| call_requires(degenerate, (a, b, c)),
            forall|cell: UVec3, a: Vec3, b: Vec3, c: Vec3| call_requires(probe, (cell, a, b, c)),
        ensures
            final(self).wf(),
            final(self).setting() == old(self).setting(),
            match done {
                Ok(_) => {
                    &&& first_degenerate_is(degenerate, &old(self).setting().2, None)
                    &&& final(self).view().unclassified()
                    &&& old(self).view().marks_to(final(self).view())
                    &&& simply_rasterized(
                        old(self).view(),
                        &old(self).setting().2,
                        probe,
                        final(self).view(),
                    )
                },
                Err(reason) => {
                    &&& final(self).view() == old(self).view()
                    &&& turned_away(degenerate, &old(self).setting().2, reason)
                },
            },
    {
        match first_degenerate(&self.cage, &degenerate) {
            Some(face) => {
                return Err(GridError::DegenerateFace(face));
            },
            None => {},
        }
        let ghost start = self.view();
        let ghost faces = self.cage.faces@;
        let ghost mut answers: Seq<Option<[Weight; 3]>> = Seq::empty();
        let dims = self.dimensions;
        let count: usize = self.cell_types.len();
        let mut f: usize = 0;
        proof {
            assert(2 * f * count == 0) by (nonlinear_arith)
                requires
                    f == 0,
            ;
        }
        while f < self.cage.faces.len()
            invariant
                start == old(self).view(),
                faces == old(self).setting().2.faces@,
                dims == start.dimensions,
                count == cell_count(dims),
                self.wf(),
                self.view().unclassified(),
                start.marks_to(self.view()),
                self.view().dimensions == dims,
                self.view().depth == start.depth,
                self.setting() == old(self).setting(),
                forall|cell: UVec3, a: Vec3, b: Vec3, c: Vec3| call_requires(probe, (cell, a, b, c)),
                f <= faces.len(),
                answers.len() == 2 * f * count,
                forall|n: int|
                    0 <= n < answers.len() ==> call_ensures(
                        probe,
                        question_args(dims, &old(self).setting().2, n),
                        #[trigger] answers[n],
                    ),
                self.view() == start.rasterized(faces, answers),
            decreases faces.len() - f,
        {
            let quad: [u32; 4] = self.cage.faces[f];
            let mut second: bool = false;
            let mut done: usize = 0;
            while done < 2
                invariant
                    start == old(self).view(),
                    faces == old(self).setting().2.faces@,
                    dims == start.dimensions,
                    count == cell_count(dims),
                    self.wf(),
                    self.view().unclassified(),
                    start.marks_to(self.view()),
                    self.view().dimensions == dims,
                    self.view().depth == start.depth,
                    self.setting() == old(self).setting(),
                    forall|cell: UVec3, a: Vec3, b: Vec3, c: Vec3|
                        call_requires(probe, (cell, a, b, c)),
                    f < faces.len(),
                    quad == faces[f as int],
                    done <= 2,
                    second == (done != 0),
                    answers.len() == (2 * f + done) * count,
                    forall|n: int|
                        0 <= n < answers.len() ==> call_ensures(
                            probe,
                            question_args(dims, &old(self).setting().2, n),
                            #[trigger] answers[n],
                        ),
                    self.view() == start.rasterized(faces, answers),
                decreases 2 - done,
            {
                let corners: [u32; 3] = if second {
                    [quad[2], quad[3], quad[0]]
                } else {
                    [quad[0], quad[1], quad[2]]
                };
                proof {
                    assert(corners@ =~= triangle_corners(faces[f as int]@, second));
                    assert(self.cage.faces_in_range());
                    assert(faces[f as int]@[0] < self.cage.depth());
                    assert(faces[f as int]@[1] < self.cage.depth());
                    assert(faces[f as int]@[2] < self.cage.depth());
                    assert(faces[f as int]@[3] < self.cage.depth());
                }
                let a: Vec3 = self.cage.vertices[corners[0] as usize];
                let b: Vec3 = self.cage.vertices[corners[1] as usize];
                let c: Vec3 = self.cage.vertices[corners[2] as usize];
                let mut i: usize = 0;
                while i < count
                    invariant
                        start == old(self).view(),
                        faces == old(self).setting().2.faces@,
                        dims == start.dimensions,
                        count == cell_count(dims),
                        self.wf(),
                        self.view().unclassified(),
                        start.marks_to(self.view()),
                        self.view().dimensions == dims,
                        self.view().depth == start.depth,
                        self.setting() == old(self).setting(),
                        forall|cell: UVec3, a: Vec3, b: Vec3, c: Vec3|
                            call_requires(probe, (cell, a, b, c)),
                        f < faces.len(),
                        done < 2,
                        second == (done != 0),
                        i <= count,
                        corners@ == triangle_corners(faces[f as int]@, second),
                        corners@[0] < start.depth && corners@[1] < start.depth && corners@[2]
                            < start.depth,
                        a == old(self).setting().2.vertices@[corners@[0] as int],
                        b == old(self).setting().2.vertices@[corners@[1] as int],
                        c == old(self).setting().2.vertices@[corners@[2] as int],
                        answers.len() == (2 * f + done) * count + i,
                        forall|n: int|
                            0 <= n < answers.len() ==> call_ensures(
                                probe,
                                question_args(dims, &old(self).setting().2, n),
                                #[trigger] answers[n],
                            ),
                        self.view() == start.rasterized(faces, answers),
                    decreases count - i,
                {
                    let cell = position_at(dims, i);
                    let answer = probe(cell, a, b, c);
                    let ghost earlier = answers;
                    proof {
                        lemma_question(dims, faces, f as int, second, i as int);
                        answers = earlier.push(answer);
                        assert(answers.drop_last() =~= earlier);
                        assert(answers.last() == answer);
                        assert forall|n: int| 0 <= n < answers.len() implies call_ensures(
                            probe,
                            question_args(dims, &old(self).setting().2, n),
                            #[trigger] answers[n],
                        ) by {
                            if n < earlier.len() {
                                assert(answers[n] == earlier[n]);
                            }
                        }
                    }
                    match answer {
                        Some(weights) => {
                            let ghost before = self.view();
                            proof {
                                lemma_flat_index_bound(dims, cell);
                                assert(before.cells[i as int] is Uninitialized
                                    || before.cells[i as int] is Boundary);
                            }
                            self.mark_triangle(cell, corners, weights);
                            proof {
                                lemma_struck_wf(before, cell, corners@, weights@);
                                lemma_struck_marks(start, before, cell, corners@, weights@);
                            }
                        },
                        None => {},
                    }
                    i = i + 1;
                    proof {
                        assert((2 * f + done) * count + (i - 1) + 1 == (2 * f + done) * count + i);
                    }
                }
                second = true;
                done = done + 1;
                proof {
                    assert((2 * f + (done - 1)) * count + count == (2 * f + done) * count)
                        by (nonlinear_arith);
                }
            }
            f = f + 1;
            proof {
                assert((2 * (f - 1) + 2) * count == 2 * f * count) by (nonlinear_arith);
            }
        }
        proof {
            assert(2 * f * count == 2 * faces.len() * count);
            assert(self.view() == start.rasterized(faces, answers));
            assert(simply_rasterized(start, &old(self).setting().2, probe, self.view()));
        }
        Ok(())
    }

    /// Records that a triangle with the given corners touches the voxel
    /// `cell`, with the given weights for the three corners.
    pub fn mark_triangle(&mut self, cell: UVec3, corners: [u32; 3], weights: [Weight; 3])
        requires
            old(self).wf(),
            old(self).view().strikable(cell, corners@),
        ensures
            final(self).wf(),
            final(self).view() == old(self).view().struck(cell, corners@, weights@),
            final(self).setting() == old(self).setting(),
    {
        let ghost start = self.view();
        let depth: usize = self.cage.vertices.len();
        proof {
            lemma_flat_index_bound(start.dimensions, cell);
        }
        let index = index_in(self.dimensions, cell).unwrap();
        let mut record: GridCell = self.cell_types[index];
        record.mark_boundary(&mut self.cell_data, depth);
        self.cell_types[index] = record;
        let ghost marked = self.cell_data@;
        let ghost s = record.slot().unwrap() as int;
        proof {
            assert((record, marked) == start.cells[index as int].marked(start.weights, start.depth));
            assert(start.runs_in_range());
            assert(start.cells[index as int].slot() is Some ==> s + depth <= start.weights.len());
            assert(0 <= s && s + depth <= marked.len());
        }
        let run = record.get_boundary(&mut self.cell_data, depth);
        run[corners[0] as usize] = weights[0];
        run[corners[1] as usize] = weights[1];
        run[corners[2] as usize] = weights[2];
        proof {
            let goal = start.struck(cell, corners@, weights@);
            assert(self.cell_data.len() == self.cell_data@.len());
            lemma_write_through_run(marked, s, depth as int, corners@, weights@);
            assert(self.cell_data@ == goal.weights);
            assert(self.cell_types@ == goal.cells);
            assert(self.view() == goal);
            lemma_struck_wf(start, cell, corners@, weights@);
        }
    }
}

} // verus!
