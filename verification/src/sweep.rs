//! Rasterisation narrowed to the reach of each triangle: only the voxels
//! that the triangle's bounding box meets are examined.

use vstd::prelude::*;
use glam::{UVec3, Vec3};
use crate::cage::{first_degenerate, first_degenerate_is, Cage};
use crate::grid::{Grid, GridError, GridView};
use crate::lattice::{
    cell_count,
    flat_index,
    inside,
    lemma_flat_index_bound,
    lemma_flat_index_injective,
    lemma_position_of,
    lemma_position_of_flat_index,
    position_of,
};
use crate::raster::{
    lemma_question,
    lemma_struck_marks,
    lemma_struck_wf,
    question_args,
    triangle_corners,
    turned_away,
};
use crate::weight::Weight;

verus! {

/// Whether voxel `p` lies in the box of voxels from `least` to `greatest`,
/// both included.
pub open spec fn within(p: UVec3, least: UVec3, greatest: UVec3) -> bool {
    &&& least.x <= p.x <= greatest.x
    &&& least.y <= p.y <= greatest.y
    &&& least.z <= p.z <= greatest.z
}

/// Whether `answer` may be the answer to a question of a narrowed pass.
///
/// `reach` gives the box of voxels that a triangle can touch. For a voxel
/// in the box the answer is the probe's; for any other voxel nothing is
/// asked and the answer is `None`.
pub open spec fn narrowed<
    B: Fn(Vec3, Vec3, Vec3) -> (UVec3, UVec3),
    P: Fn(UVec3, Vec3, Vec3, Vec3) -> Option<[Weight; 3]>,
>(reach: B, probe: P, args: (UVec3, Vec3, Vec3, Vec3), answer: Option<[Weight; 3]>) -> bool {
    exists|span: (UVec3, UVec3)|
        {
            &&& #[trigger] call_ensures(reach, (args.1, args.2, args.3), span)
            &&& if within(args.0, span.0, span.1) {
                call_ensures(probe, args, answer)
            } else {
                answer is None
            }
        }
}

/// Whether `last` is the grid after a narrowed pass that began in the
/// state `start`: every question of a full pass has the answer that a
/// narrowed pass may give, and every answer that holds weights is a
/// strike, in the order of the questions.
pub open spec fn narrowly_rasterized<
    B: Fn(Vec3, Vec3, Vec3) -> (UVec3, UVec3),
    P: Fn(UVec3, Vec3, Vec3, Vec3) -> Option<[Weight; 3]>,
>(start: GridView, cage: &Cage, reach: B, probe: P, last: GridView) -> bool {
    exists|answers: Seq<Option<[Weight; 3]>>|
        {
            &&& answers.len() == 2 * cage.faces@.len() * cell_count(start.dimensions)
            &&& forall|n: int|
                0 <= n < answers.len() ==> narrowed(
                    reach,
                    probe,
                    question_args(start.dimensions, cage, n),
                    #[trigger] answers[n],
                )
            &&& last == #[trigger] start.rasterized(cage.faces@, answers)
        }
}

/// A run of `count` answers that are all `None`.
pub open spec fn silence(count: nat) -> Seq<Option<[Weight; 3]>> {
    Seq::new(count, |i: int| None)
}

/// Answers that are `None` change nothing.
pub proof fn lemma_rasterized_silence(
    g: GridView,
    faces: Seq<[u32; 4]>,
    answers: Seq<Option<[Weight; 3]>>,
    count: nat,
)
    ensures
        g.rasterized(faces, answers + silence(count)) == g.rasterized(faces, answers),
    decreases count,
{
    if count == 0 {
        assert(answers + silence(0) =~= answers);
    } else {
        let longer = answers + silence(count);
        assert(longer.drop_last() =~= answers + silence((count - 1) as nat));
        assert(longer.last() is None);
        lemma_rasterized_silence(g, faces, answers, (count - 1) as nat);
    }
}

/// Whether the answer recorded for voxel `p` of the triangle at hand is in
/// order: the probe's answer if the voxel is in the box, `None` if not.
spec fn entry_ok<P: Fn(UVec3, Vec3, Vec3, Vec3) -> Option<[Weight; 3]>>(
    probe: P,
    answers: Seq<Option<[Weight; 3]>>,
    base: int,
    dims: UVec3,
    corners: (Vec3, Vec3, Vec3),
    span: (UVec3, UVec3),
    p: UVec3,
) -> bool {
    let answer = answers[base + flat_index(dims, p)];
    if within(p, span.0, span.1) {
        call_ensures(probe, (p, corners.0, corners.1, corners.2), answer)
    } else {
        answer is None
    }
}

/// Whether the answers for all voxels with a flat index below `upto` are
/// in order.
spec fn scanned<P: Fn(UVec3, Vec3, Vec3, Vec3) -> Option<[Weight; 3]>>(
    probe: P,
    answers: Seq<Option<[Weight; 3]>>,
    base: int,
    dims: UVec3,
    corners: (Vec3, Vec3, Vec3),
    span: (UVec3, UVec3),
    upto: int,
) -> bool {
    forall|p: UVec3|
        inside(dims, p) && flat_index(dims, p) < upto ==> #[trigger] entry_ok(
            probe,
            answers,
            base,
            dims,
            corners,
            span,
            p,
        )
}

/// Skipping a stretch of voxels outside the box keeps the answers in order.
proof fn lemma_skip<P: Fn(UVec3, Vec3, Vec3, Vec3) -> Option<[Weight; 3]>>(
    probe: P,
    answers: Seq<Option<[Weight; 3]>>,
    base: int,
    dims: UVec3,
    corners: (Vec3, Vec3, Vec3),
    span: (UVec3, UVec3),
    upto: int,
    count: nat,
)
    requires
        0 <= base,
        0 <= upto,
        answers.len() == base + upto,
        scanned(probe, answers, base, dims, corners, span, upto),
        forall|p: UVec3|
            inside(dims, p) && upto <= #[trigger] flat_index(dims, p) < upto + count ==> !within(
                p,
                span.0,
                span.1,
            ),
    ensures
        scanned(probe, answers + silence(count), base, dims, corners, span, upto + count),
{
    let longer = answers + silence(count);
    assert forall|p: UVec3| inside(dims, p) && flat_index(dims, p) < upto + count implies #[trigger] entry_ok(
        probe,
        longer,
        base,
        dims,
        corners,
        span,
        p,
    ) by {
        lemma_flat_index_bound(dims, p);
        let at = base + flat_index(dims, p);
        if flat_index(dims, p) < upto {
            assert(entry_ok(probe, answers, base, dims, corners, span, p));
            assert(longer[at] == answers[at]);
        } else {
            assert(longer[at] == silence(count)[at - answers.len()]);
        }
    }
}

/// Recording the probe's answer for the next voxel keeps the answers in
/// order.
proof fn lemma_record<P: Fn(UVec3, Vec3, Vec3, Vec3) -> Option<[Weight; 3]>>(
    probe: P,
    answers: Seq<Option<[Weight; 3]>>,
    base: int,
    dims: UVec3,
    corners: (Vec3, Vec3, Vec3),
    span: (UVec3, UVec3),
    cell: UVec3,
    answer: Option<[Weight; 3]>,
)
    requires
        0 <= base,
        inside(dims, cell),
        answers.len() == base + flat_index(dims, cell),
        scanned(probe, answers, base, dims, corners, span, flat_index(dims, cell)),
        within(cell, span.0, span.1),
        call_ensures(probe, (cell, corners.0, corners.1, corners.2), answer),
    ensures
        scanned(
            probe,
            answers.push(answer),
            base,
            dims,
            corners,
            span,
            flat_index(dims, cell) + 1,
        ),
{
    let longer = answers.push(answer);
    let upto = flat_index(dims, cell);
    assert forall|p: UVec3| inside(dims, p) && flat_index(dims, p) < upto + 1 implies #[trigger] entry_ok(
        probe,
        longer,
        base,
        dims,
        corners,
        span,
        p,
    ) by {
        lemma_flat_index_bound(dims, p);
        let at = base + flat_index(dims, p);
        if flat_index(dims, p) < upto {
            assert(entry_ok(probe, answers, base, dims, corners, span, p));
            assert(longer[at] == answers[at]);
        } else {
            lemma_flat_index_injective(dims, p, cell);
            assert(longer[at] == answer);
        }
    }
}

/// Where a voxel lies, told from bounds on its flat index.
///
/// Its flat index is at least that of the first voxel of its row and
/// plane, and below that of the first voxel of the next.
proof fn lemma_flat_bounds(dims: UVec3, p: UVec3)
    requires
        inside(dims, p),
    ensures
        p.x * (dims.y * dims.z) <= flat_index(dims, p) < (p.x + 1) * (dims.y * dims.z),
        p.x * (dims.y * dims.z) + p.y * dims.z <= flat_index(dims, p) < p.x * (dims.y * dims.z) + (
        p.y + 1) * dims.z,
        flat_index(dims, p) == p.x * (dims.y * dims.z) + p.y * dims.z + p.z,
{
    let (x, y, z) = (p.x as int, p.y as int, p.z as int);
    let (dy, dz) = (dims.y as int, dims.z as int);
    assert((x + 1) * (dy * dz) == x * (dy * dz) + dy * dz && (y + 1) * dz == y * dz + dz && y * dz
        + dz <= dy * dz && 0 <= y * dz) by (nonlinear_arith)
        requires
            0 <= y < dy,
            0 <= z < dz,
    ;
}

/// A voxel whose flat index lies among those of plane `x` is in plane `x`.
proof fn lemma_same_plane(dims: UVec3, p: UVec3, x: int)
    requires
        inside(dims, p),
        x * (dims.y * dims.z) <= flat_index(dims, p) < (x + 1) * (dims.y * dims.z),
    ensures
        p.x == x,
{
    lemma_flat_bounds(dims, p);
    let plane = dims.y * dims.z;
    let at = flat_index(dims, p);
    let px = p.x as int;
    assert(px == x) by (nonlinear_arith)
        requires
            px * plane <= at < (px + 1) * plane,
            x * plane <= at < (x + 1) * plane,
    ;
}

/// A voxel whose flat index lies among those of row `y` of plane `x` is in
/// that row.
proof fn lemma_same_row(dims: UVec3, p: UVec3, x: int, y: int)
    requires
        inside(dims, p),
        0 <= y < dims.y,
        x * (dims.y * dims.z) + y * dims.z <= flat_index(dims, p) < x * (dims.y * dims.z) + (y
            + 1) * dims.z,
    ensures
        p.x == x,
        p.y == y,
{
    lemma_flat_bounds(dims, p);
    let plane = dims.y * dims.z;
    let dz = dims.z as int;
    let at = flat_index(dims, p);
    let py = p.y as int;
    assert(0 <= y * dz && (y + 1) * dz <= plane && (x + 1) * plane == x * plane + plane)
        by (nonlinear_arith)
        requires
            0 <= y < dims.y,
            dz >= 0,
            plane == dims.y * dz,
    ;
    lemma_same_plane(dims, p, x);
    assert(py == y) by (nonlinear_arith)
        requires
            x * plane + py * dz <= at < x * plane + (py + 1) * dz,
            x * plane + y * dz <= at < x * plane + (y + 1) * dz,
    ;
}

/// A voxel in a plane before the box is outside the box.
proof fn lemma_planes_before(dims: UVec3, least: UVec3, greatest: UVec3, p: UVec3)
    requires
        inside(dims, p),
        flat_index(dims, p) < least.x * (dims.y * dims.z),
    ensures
        !within(p, least, greatest),
{
    lemma_flat_bounds(dims, p);
    let plane = dims.y * dims.z;
    let at = flat_index(dims, p);
    let (px, lx) = (p.x as int, least.x as int);
    assert(px < lx) by (nonlinear_arith)
        requires
            px * plane <= at < lx * plane,
            plane >= 0,
    ;
}

/// A voxel in a plane after the box is outside the box.
proof fn lemma_planes_after(dims: UVec3, least: UVec3, greatest: UVec3, p: UVec3)
    requires
        inside(dims, p),
        (greatest.x + 1) * (dims.y * dims.z) <= flat_index(dims, p),
    ensures
        !within(p, least, greatest),
{
    lemma_flat_bounds(dims, p);
    let plane = dims.y * dims.z;
    let at = flat_index(dims, p);
    let (px, hx) = (p.x as int, greatest.x as int);
    assert(hx < px) by (nonlinear_arith)
        requires
            (hx + 1) * plane <= at < (px + 1) * plane,
            plane >= 0,
    ;
}

/// A voxel of plane `x` in a row before the box is outside the box.
proof fn lemma_rows_before(dims: UVec3, least: UVec3, greatest: UVec3, p: UVec3, x: int)
    requires
        inside(dims, p),
        least.y <= dims.y,
        x * (dims.y * dims.z) <= flat_index(dims, p) < x * (dims.y * dims.z) + least.y * dims.z,
    ensures
        !within(p, least, greatest),
{
    lemma_flat_bounds(dims, p);
    let plane = dims.y * dims.z;
    let dz = dims.z as int;
    let at = flat_index(dims, p);
    let (py, ly) = (p.y as int, least.y as int);
    assert(ly * dz <= plane && (x + 1) * plane == x * plane + plane) by (nonlinear_arith)
        requires
            0 <= ly <= dims.y,
            dz >= 0,
            plane == dims.y * dz,
    ;
    lemma_same_plane(dims, p, x);
    assert(py < ly) by (nonlinear_arith)
        requires
            x * plane + py * dz <= at < x * plane + ly * dz,
            dz >= 0,
    ;
}

/// A voxel of plane `x` in a row after the box is outside the box.
proof fn lemma_rows_after(dims: UVec3, least: UVec3, greatest: UVec3, p: UVec3, x: int)
    requires
        inside(dims, p),
        x * (dims.y * dims.z) + (greatest.y + 1) * dims.z <= flat_index(dims, p) < (x + 1) * (
        dims.y * dims.z),
    ensures
        !within(p, least, greatest),
{
    lemma_flat_bounds(dims, p);
    let plane = dims.y * dims.z;
    let dz = dims.z as int;
    let at = flat_index(dims, p);
    let (py, hy) = (p.y as int, greatest.y as int);
    assert(0 <= (hy + 1) * dz) by (nonlinear_arith)
        requires
            0 <= hy,
            dz >= 0,
    ;
    lemma_same_plane(dims, p, x);
    assert(hy < py) by (nonlinear_arith)
        requires
            x * plane + (hy + 1) * dz <= at < x * plane + (py + 1) * dz,
            dz >= 0,
    ;
}

/// A voxel of row `y` of plane `x` before the box is outside the box.
proof fn lemma_cells_before(dims: UVec3, least: UVec3, greatest: UVec3, p: UVec3, x: int, y: int)
    requires
        inside(dims, p),
        0 <= y < dims.y,
        least.z <= dims.z,
        x * (dims.y * dims.z) + y * dims.z <= flat_index(dims, p) < x * (dims.y * dims.z) + y
            * dims.z + least.z,
    ensures
        !within(p, least, greatest),
{
    lemma_flat_bounds(dims, p);
    let dz = dims.z as int;
    assert((y + 1) * dz == y * dz + dz) by (nonlinear_arith);
    lemma_same_row(dims, p, x, y);
}

/// A voxel of row `y` of plane `x` after the box is outside the box.
proof fn lemma_cells_after(dims: UVec3, least: UVec3, greatest: UVec3, p: UVec3, x: int, y: int)
    requires
        inside(dims, p),
        0 <= y < dims.y,
        x * (dims.y * dims.z) + y * dims.z + greatest.z + 1 <= flat_index(dims, p) < x * (dims.y
            * dims.z) + (y + 1) * dims.z,
    ensures
        !within(p, least, greatest),
{
    lemma_flat_bounds(dims, p);
    lemma_same_row(dims, p, x, y);
}

/// What holds while the voxels of one triangle are scanned: the grid is
/// the start grid rasterised with the answers so far, and the answers for
/// the voxels with a flat index below `upto` are in order.
spec fn scanning<P: Fn(UVec3, Vec3, Vec3, Vec3) -> Option<[Weight; 3]>>(
    grid: &Grid,
    start: GridView,
    probe: P,
    first: Seq<Option<[Weight; 3]>>,
    answers: Seq<Option<[Weight; 3]>>,
    corners: (Vec3, Vec3, Vec3),
    span: (UVec3, UVec3),
    upto: int,
) -> bool {
    &&& grid.wf()
    &&& grid.view().unclassified()
    &&& start.marks_to(grid.view())
    &&& grid.view().dimensions == start.dimensions
    &&& grid.view().depth == start.depth
    &&& answers.len() == first.len() + upto
    &&& answers.take(first.len() as int) == first
    &&& scanned(probe, answers, first.len() as int, start.dimensions, corners, span, upto)
    &&& grid.view() == start.rasterized(grid.setting().2.faces@, answers)
}

/// Skipping a stretch of voxels outside the box keeps a scan in order.
proof fn lemma_scan_skip<P: Fn(UVec3, Vec3, Vec3, Vec3) -> Option<[Weight; 3]>>(
    grid: &Grid,
    start: GridView,
    probe: P,
    first: Seq<Option<[Weight; 3]>>,
    answers: Seq<Option<[Weight; 3]>>,
    corners: (Vec3, Vec3, Vec3),
    span: (UVec3, UVec3),
    upto: int,
    count: int,
)
    requires
        0 <= upto,
        0 <= count,
        scanning(grid, start, probe, first, answers, corners, span, upto),
        forall|p: UVec3|
            inside(start.dimensions, p) && upto <= #[trigger] flat_index(start.dimensions, p) < upto
                + count ==> !within(p, span.0, span.1),
    ensures
        scanning(
            grid,
            start,
            probe,
            first,
            answers + silence(count as nat),
            corners,
            span,
            upto + count,
        ),
{
    let longer = answers + silence(count as nat);
    lemma_skip(
        probe,
        answers,
        first.len() as int,
        start.dimensions,
        corners,
        span,
        upto,
        count as nat,
    );
    lemma_rasterized_silence(start, grid.setting().2.faces@, answers, count as nat);
    assert(longer.take(first.len() as int) =~= answers.take(first.len() as int));
}

/// Once the voxels of a triangle are scanned, every answer so far is one
/// that a narrowed pass may give.
proof fn lemma_scan_narrowed<
    B: Fn(Vec3, Vec3, Vec3) -> (UVec3, UVec3),
    P: Fn(UVec3, Vec3, Vec3, Vec3) -> Option<[Weight; 3]>,
>(
    reach: B,
    probe: P,
    dims: UVec3,
    cage: &Cage,
    face: int,
    second: bool,
    first: Seq<Option<[Weight; 3]>>,
    out: Seq<Option<[Weight; 3]>>,
    corners: (Vec3, Vec3, Vec3),
    span: (UVec3, UVec3),
)
    requires
        0 <= face < cage.faces@.len(),
        cage.faces_in_range(),
        first.len() == (2 * face + if second { 1int } else { 0int }) * cell_count(dims),
        out.len() == first.len() + cell_count(dims),
        out.take(first.len() as int) == first,
        scanned(probe, out, first.len() as int, dims, corners, span, cell_count(dims) as int),
        call_ensures(reach, corners, span),
        ({
            let at = triangle_corners(cage.faces@[face]@, second);
            corners == (
                cage.vertices@[at[0] as int],
                cage.vertices@[at[1] as int],
                cage.vertices@[at[2] as int],
            )
        }),
        forall|n: int|
            0 <= n < first.len() ==> narrowed(
                reach,
                probe,
                question_args(dims, cage, n),
                #[trigger] first[n],
            ),
    ensures
        forall|n: int|
            0 <= n < out.len() ==> narrowed(reach, probe, question_args(dims, cage, n), #[trigger] out[n]),
{
    let base = first.len() as int;
    assert forall|n: int| 0 <= n < out.len() implies narrowed(
        reach,
        probe,
        question_args(dims, cage, n),
        #[trigger] out[n],
    ) by {
        if n < base {
            assert(out[n] == out.take(base)[n]);
            assert(narrowed(reach, probe, question_args(dims, cage, n), first[n]));
        } else {
            let i = n - base;
            let p = position_of(dims, i);
            lemma_position_of(dims, i);
            lemma_question(dims, cage.faces@, face, second, i);
            assert(entry_ok(probe, out, base, dims, corners, span, p));
            assert(out[base + flat_index(dims, p)] == out[n]);
            let args = question_args(dims, cage, n);
            assert(args == (p, corners.0, corners.1, corners.2));
            assert(call_ensures(reach, (args.1, args.2, args.3), span));
            if within(args.0, span.0, span.1) {
                assert(call_ensures(probe, args, out[n]));
            } else {
                assert(out[n] is None);
            }
            assert(narrowed(reach, probe, args, out[n]));
        }
    }
}

impl Grid {
    /// Rasterises the cage into the grid, looking for each triangle only at
    /// the voxels in its reach.
    ///
    /// For each triangle of each face `reach` is given the positions of the
    /// triangle's corners and names the box of voxels, from a least to a
    /// greatest voxel, that the triangle can touch. Of the voxels of the
    /// grid in that box, `probe` is asked as in `mark_boundaries_simple`.
    /// The grid that results is the one of a full pass in which every
    /// voxel outside the box was answered with `None`.
    ///
    /// The pass fails as a whole for a cage with a face without area:
    /// before anything is written, `degenerate` is asked of every triangle,
    /// as `first_degenerate` tells, and where it finds a triangle without
    /// area the grid stays as it is and the face is reported.
    pub fn mark_boundaries<D, B, P>(&mut self, degenerate: D, reach: B, probe: P) -> (done: Result<
        (),
        GridError,
    >) where
        D: Fn(Vec3, Vec3, Vec3) -> bool,
        B: Fn(Vec3, Vec3, Vec3) -> (UVec3, UVec3),
        P: Fn(UVec3, Vec3, Vec3, Vec3) -> Option<[Weight; 3]>,

        requires
            old(self).wf(),
            old(self).view().unclassified(),
            forall|a: Vec3, b: Vec3, c: Vec3| call_requires(degenerate, (a, b, c)),
            forall|a: Vec3, b: Vec3, c: Vec3| call_requires(reach, (a, b, c)),
            forall|cell: UVec3, a: Vec3, b: Vec3, c: Vec3| call_requires(probe, (cell, a, b, c)),
        ensures
            final(self).wf(),
            final(self).setting() == old(self).setting(),
            match done {
                Ok(_) => {
                    &&& first_degenerate_is(degenerate, &old(self).setting().2, None)
                    &&& final(self).view().unclassified()
                    &&& old(self).view().marks_to(final(self).view())
                    &&& narrowly_rasterized(
                        old(self).view(),
                        &old(self).setting().2,
                        reach,
                        probe,
                        final(self).view(),
                    )
                },
                Err(reason) => {
                    &&& final(self).view() == old(self).view()
                    &&& turned_away(degenerate, &old(self).setting().2, reason)
                },
            },
    {
        match first_degenerate(&self.cage, &degenerate) {
            Some(face) => {
                return Err(GridError::DegenerateFace(face));
            },
            None => {},
        }
        let ghost start = self.view();
        let ghost faces = self.cage.faces@;
        let ghost mut answers: Seq<Option<[Weight; 3]>> = Seq::empty();
        let dims = self.dimensions;
        let ghost count = cell_count(dims) as int;
        let mut f: usize = 0;
        proof {
            assert(2 * f * count == 0) by (nonlinear_arith)
                requires
                    f == 0,
            ;
        }
        while f < self.cage.faces.len()
            invariant
                start == old(self).view(),
                faces == old(self).setting().2.faces@,
                dims == start.dimensions,
                count == cell_count(dims),
                self.wf(),
                self.view().unclassified(),
                start.marks_to(self.view()),
                self.view().dimensions == dims,
                self.view().depth == start.depth,
                self.setting() == old(self).setting(),
                forall|a: Vec3, b: Vec3, c: Vec3| call_requires(reach, (a, b, c)),
                forall|cell: UVec3, a: Vec3, b: Vec3, c: Vec3| call_requires(probe, (cell, a, b, c)),
                f <= faces.len(),
                answers.len() == 2 * f * count,
                forall|n: int|
                    0 <= n < answers.len() ==> narrowed(
                        reach,
                        probe,
                        question_args(dims, &old(self).setting().2, n),
                        #[trigger] answers[n],
                    ),
                self.view() == start.rasterized(faces, answers),
            decreases faces.len() - f,
        {
            let quad: [u32; 4] = self.cage.faces[f];
            let mut second: bool = false;
            let mut done: usize = 0;
            while done < 2
                invariant
                    start == old(self).view(),
                    faces == old(self).setting().2.faces@,
                    dims == start.dimensions,
                    count == cell_count(dims),
                    self.wf(),
                    self.view().unclassified(),
                    start.marks_to(self.view()),
                    self.view().dimensions == dims,
                    self.view().depth == start.depth,
                    self.setting() == old(self).setting(),
                    forall|a: Vec3, b: Vec3, c: Vec3| call_requires(reach, (a, b, c)),
                    forall|cell: UVec3, a: Vec3, b: Vec3, c: Vec3|
                        call_requires(probe, (cell, a, b, c)),
                    f < faces.len(),
                    quad == faces[f as int],
                    done <= 2,
                    second == (done != 0),
                    answers.len() == (2 * f + done) * count,
                    forall|n: int|
                        0 <= n < answers.len() ==> narrowed(
                            reach,
                            probe,
                            question_args(dims, &old(self).setting().2, n),
                            #[trigger] answers[n],
                        ),
                    self.view() == start.rasterized(faces, answers),
                decreases 2 - done,
            {
                let corners: [u32; 3] = if second {
                    [quad[2], quad[3], quad[0]]
                } else {
                    [quad[0], quad[1], quad[2]]
                };
                proof {
                    assert(corners@ =~= triangle_corners(faces[f as int]@, second));
                    assert(self.cage.faces_in_range());
                    assert(faces[f as int]@[0] < self.cage.depth());
                    assert(faces[f as int]@[1] < self.cage.depth());
                    assert(faces[f as int]@[2] < self.cage.depth());
                    assert(faces[f as int]@[3] < self.cage.depth());
                }
                let a: Vec3 = self.cage.vertices[corners[0] as usize];
                let b: Vec3 = self.cage.vertices[corners[1] as usize];
                let c: Vec3 = self.cage.vertices[corners[2] as usize];
                let span = reach(a, b, c);
                let ghost first = answers;
                proof {
                    assert(first.take(first.len() as int) =~= first);
                    assert(done == (if second { 1int } else { 0int }));
                }
                let out = self.scan_triangle(
                    &probe,
                    corners,
                    a,
                    b,
                    c,
                    span,
                    Ghost(start),
                    Ghost(f as int),
                    Ghost(second),
                    Ghost(first),
                );
                proof {
                    lemma_scan_narrowed(
                        reach,
                        probe,
                        dims,
                        &old(self).setting().2,
                        f as int,
                        second,
                        first,
                        out@,
                        (a, b, c),
                        span,
                    );
                    answers = out@;
                    assert((2 * f + done) * count + count == (2 * f + (done + 1)) * count)
                        by (nonlinear_arith);
                }
                second = true;
                done = done + 1;
            }
            f = f + 1;
            proof {
                assert((2 * (f - 1) + 2) * count == 2 * f * count) by (nonlinear_arith);
            }
        }
        proof {
            assert(2 * f * count == 2 * faces.len() * count);
            assert(self.view() == start.rasterized(faces, answers));
            assert(narrowly_rasterized(start, &old(self).setting().2, reach, probe, self.view()));
        }
        Ok(())
    }

    /// Scans the voxels in the reach of one triangle and strikes those that
    /// the probe says the triangle touches.
    fn scan_triangle<P>(
        &mut self,
        probe: &P,
        corners: [u32; 3],
        a: Vec3,
        b: Vec3,
        c: Vec3,
        span: (UVec3, UVec3),
        Ghost(start): Ghost<GridView>,
        Ghost(face): Ghost<int>,
        Ghost(second): Ghost<bool>,
        Ghost(first): Ghost<Seq<Option<[Weight; 3]>>>,
    ) -> (out: Ghost<Seq<Option<[Weight; 3]>>>) where
        P: Fn(UVec3, Vec3, Vec3, Vec3) -> Option<[Weight; 3]>,

        requires
            forall|cell: UVec3, a: Vec3, b: Vec3, c: Vec3| call_requires(*probe, (cell, a, b, c)),
            0 <= face < old(self).setting().2.faces@.len(),
            corners@ == triangle_corners(old(self).setting().2.faces@[face]@, second),
            corners@[0] < start.depth && corners@[1] < start.depth && corners@[2] < start.depth,
            first.len() == (2 * face + if second { 1int } else { 0int }) * cell_count(
                start.dimensions,
            ),
            scanning(&*old(self), start, *probe, first, first, (a, b, c), span, 0),
        ensures
            final(self).setting() == old(self).setting(),
            scanning(
                &*final(self),
                start,
                *probe,
                first,
                out@,
                (a, b, c),
                span,
                cell_count(start.dimensions) as int,
            ),
    {
        let dims = self.dimensions;
        let ghost faces = self.cage.faces@;
        let ghost plane = dims.y * dims.z;
        let ghost dz = dims.z as int;
        let ghost count = cell_count(dims) as int;
        let ghost mut answers = first;
        let lo = span.0;
        let hx: u32 = if span.1.x < dims.x { span.1.x } else { dims.x - 1 };
        let hy: u32 = if span.1.y < dims.y { span.1.y } else { dims.y - 1 };
        let hz: u32 = if span.1.z < dims.z { span.1.z } else { dims.z - 1 };
        let ghost clamped = UVec3 { x: hx, y: hy, z: hz };
        proof {
            assert(count == dims.x * plane) by (nonlinear_arith)
                requires
                    count == dims.x * dims.y * dims.z,
                    plane == dims.y * dims.z,
            ;
            assert(plane == dims.y * dz);
            assert forall|p: UVec3| inside(dims, p) && within(p, span.0, span.1) implies within(
                p,
                lo,
                clamped,
            ) by {}
        }
        if lo.x > hx || lo.y > hy || lo.z > hz {
            proof {
                assert forall|p: UVec3|
                    inside(dims, p) && 0 <= #[trigger] flat_index(dims, p) < 0 + count implies !within(
                    p,
                    span.0,
                    span.1,
                ) by {}
                lemma_scan_skip(&*self, start, *probe, first, answers, (a, b, c), span, 0, count);
                answers = answers + silence(count as nat);
            }
            return Ghost(answers);
        }
        proof {
            assert(0 <= lo.x * plane) by (nonlinear_arith)
                requires
                    plane >= 0,
                    lo.x >= 0,
            ;
            assert forall|p: UVec3|
                inside(dims, p) && 0 <= #[trigger] flat_index(dims, p) < 0 + lo.x * plane implies !within(
                p,
                span.0,
                span.1,
            ) by {
                lemma_planes_before(dims, lo, clamped, p);
            }
            lemma_scan_skip(&*self, start, *probe, first, answers, (a, b, c), span, 0, lo.x * plane);
            answers = answers + silence((lo.x * plane) as nat);
        }
        let mut x: u32 = lo.x;
        while x <= hx
            invariant
                forall|cell: UVec3, a: Vec3, b: Vec3, c: Vec3|
                    call_requires(*probe, (cell, a, b, c)),
                self.setting() == old(self).setting(),
                faces == self.setting().2.faces@,
                0 <= face < faces.len(),
                corners@ == triangle_corners(faces[face]@, second),
                corners@[0] < start.depth && corners@[1] < start.depth && corners@[2] < start.depth,
                first.len() == (2 * face + if second { 1int } else { 0int }) * count,
                dims == start.dimensions,
                count == dims.x * plane,
                count == cell_count(dims),
                hx <= span.1.x && hy <= span.1.y && hz <= span.1.z,
                plane == dims.y * dz,
                dz == dims.z,
                lo == span.0,
                clamped == (UVec3 { x: hx, y: hy, z: hz }),
                lo.x <= hx < dims.x,
                lo.y <= hy < dims.y,
                lo.z <= hz < dims.z,
                forall|p: UVec3|
                    inside(dims, p) && within(p, span.0, span.1) ==> within(p, lo, clamped),
                lo.x <= x <= hx + 1,
                scanning(&*self, start, *probe, first, answers, (a, b, c), span, x * plane),
            decreases hx + 1 - x,
        {
            proof {
                assert(0 <= lo.y * dz && 0 <= x * plane) by (nonlinear_arith)
                    requires
                        plane >= 0,
                        dz >= 0,
                        lo.y >= 0,
                        x >= 0,
                ;
                assert forall|p: UVec3|
                    inside(dims, p) && x * plane <= #[trigger] flat_index(dims, p) < x * plane
                        + lo.y * dz implies !within(p, span.0, span.1) by {
                    lemma_rows_before(dims, lo, clamped, p, x as int);
                }
                lemma_scan_skip(
                    &*self,
                    start,
                    *probe,
                    first,
                    answers,
                    (a, b, c),
                    span,
                    x * plane,
                    lo.y * dz,
                );
                answers = answers + silence((lo.y * dz) as nat);
            }
            let mut y: u32 = lo.y;
            while y <= hy
                invariant
                    forall|cell: UVec3, a: Vec3, b: Vec3, c: Vec3|
                        call_requires(*probe, (cell, a, b, c)),
                    self.setting() == old(self).setting(),
                    faces == self.setting().2.faces@,
                    0 <= face < faces.len(),
                    corners@ == triangle_corners(faces[face]@, second),
                    corners@[0] < start.depth && corners@[1] < start.depth && corners@[2]
                        < start.depth,
                    first.len() == (2 * face + if second { 1int } else { 0int }) * count,
                    dims == start.dimensions,
                        count == dims.x * plane,
                    count == cell_count(dims),
                    hx <= span.1.x && hy <= span.1.y && hz <= span.1.z,
                    plane == dims.y * dz,
                    dz == dims.z,
                    lo == span.0,
                    clamped == (UVec3 { x: hx, y: hy, z: hz }),
                    lo.x <= x <= hx < dims.x,
                    lo.y <= hy < dims.y,
                    lo.z <= hz < dims.z,
                    forall|p: UVec3|
                        inside(dims, p) && within(p, span.0, span.1) ==> within(p, lo, clamped),
                    lo.y <= y <= hy + 1,
                    scanning(
                        &*self,
                        start,
                        *probe,
                        first,
                        answers,
                        (a, b, c),
                        span,
                        x * plane + y * dz,
                    ),
                decreases hy + 1 - y,
            {
                proof {
                    assert(0 <= x * plane + y * dz) by (nonlinear_arith)
                        requires
                            plane >= 0,
                            dz >= 0,
                            y >= 0,
                            x >= 0,
                    ;
                    assert forall|p: UVec3|
                        inside(dims, p) && x * plane + y * dz <= #[trigger] flat_index(dims, p) < x
                            * plane + y * dz + lo.z implies !within(p, span.0, span.1) by {
                        lemma_cells_before(dims, lo, clamped, p, x as int, y as int);
                    }
                    lemma_scan_skip(
                        &*self,
                        start,
                        *probe,
                        first,
                        answers,
                        (a, b, c),
                        span,
                        x * plane + y * dz,
                        lo.z as int,
                    );
                    answers = answers + silence(lo.z as nat);
                }
                let mut z: u32 = lo.z;
                while z <= hz
                    invariant
                        forall|cell: UVec3, a: Vec3, b: Vec3, c: Vec3|
                            call_requires(*probe, (cell, a, b, c)),
                        self.setting() == old(self).setting(),
                        faces == self.setting().2.faces@,
                        0 <= face < faces.len(),
                        corners@ == triangle_corners(faces[face]@, second),
                        corners@[0] < start.depth && corners@[1] < start.depth && corners@[2]
                            < start.depth,
                        first.len() == (2 * face + if second { 1int } else { 0int }) * count,
                        dims == start.dimensions,
                                count == cell_count(dims),
                        plane == dims.y * dz,
                        dz == dims.z,
                        lo == span.0,
                        lo.x <= x <= hx < dims.x,
                        lo.y <= y <= hy < dims.y,
                        lo.z <= hz < dims.z,
                        hx <= span.1.x && hy <= span.1.y && hz <= span.1.z,
                        lo.z <= z <= hz + 1,
                        scanning(
                            &*self,
                            start,
                            *probe,
                            first,
                            answers,
                            (a, b, c),
                            span,
                            x * plane + y * dz + z,
                        ),
                    decreases hz + 1 - z,
                {
                    let cell = UVec3 { x, y, z };
                    let answer = probe(cell, a, b, c);
                    let ghost earlier = answers;
                    let ghost before = self.view();
                    proof {
                        lemma_flat_index_bound(dims, cell);
                        lemma_position_of_flat_index(dims, cell);
                        lemma_question(dims, faces, face, second, flat_index(dims, cell));
                        lemma_record(
                            *probe,
                            earlier,
                            first.len() as int,
                            dims,
                            (a, b, c),
                            span,
                            cell,
                            answer,
                        );
                        answers = earlier.push(answer);
                        assert(answers.drop_last() =~= earlier);
                        assert(answers.take(first.len() as int) =~= earlier.take(
                            first.len() as int,
                        ));
                        assert(before.cells[flat_index(dims, cell)] is Uninitialized
                            || before.cells[flat_index(dims, cell)] is Boundary);
                    }
                    match answer {
                        Some(weights) => {
                            self.mark_triangle(cell, corners, weights);
                            proof {
                                lemma_struck_wf(before, cell, corners@, weights@);
                                lemma_struck_marks(start, before, cell, corners@, weights@);
                            }
                        },
                        None => {},
                    }
                    z = z + 1;
                }
                proof {
                    assert((y + 1) * dz == y * dz + dz) by (nonlinear_arith);
                    assert forall|p: UVec3|
                        inside(dims, p) && x * plane + y * dz + hz + 1 <= #[trigger] flat_index(
                            dims,
                            p,
                        ) < x * plane + y * dz + hz + 1 + (dz - 1 - hz) implies !within(
                        p,
                        span.0,
                        span.1,
                    ) by {
                        lemma_cells_after(dims, lo, clamped, p, x as int, y as int);
                    }
                    lemma_scan_skip(
                        &*self,
                        start,
                        *probe,
                        first,
                        answers,
                        (a, b, c),
                        span,
                        x * plane + y * dz + hz + 1,
                        dz - 1 - hz,
                    );
                    answers = answers + silence((dz - 1 - hz) as nat);
                }
                y = y + 1;
            }
            proof {
                assert((x + 1) * plane == x * plane + plane) by (nonlinear_arith);
                assert((hy + 1) * dz + (dims.y - 1 - hy) * dz == plane && 0 <= (dims.y - 1 - hy) * dz)
                    by (nonlinear_arith)
                    requires
                        plane == dims.y * dz,
                        hy < dims.y,
                        dz >= 0,
                ;
                assert forall|p: UVec3|
                    inside(dims, p) && x * plane + (hy + 1) * dz <= #[trigger] flat_index(dims, p)
                        < x * plane + (hy + 1) * dz + (dims.y - 1 - hy) * dz implies !within(
                    p,
                    span.0,
                    span.1,
                ) by {
                    lemma_rows_after(dims, lo, clamped, p, x as int);
                }
                lemma_scan_skip(
                    &*self,
                    start,
                    *probe,
                    first,
                    answers,
                    (a, b, c),
                    span,
                    x * plane + (hy + 1) * dz,
                    (dims.y - 1 - hy) * dz,
                );
                answers = answers + silence(((dims.y - 1 - hy) * dz) as nat);
            }
            x = x + 1;
        }
        proof {
            assert((hx + 1) * plane + (dims.x - 1 - hx) * plane == count && 0 <= (dims.x - 1 - hx)
                * plane) by (nonlinear_arith)
                requires
                    count == dims.x * plane,
                    hx < dims.x,
                    plane >= 0,
            ;
            assert forall|p: UVec3|
                inside(dims, p) && (hx + 1) * plane <= #[trigger] flat_index(dims, p) < (hx + 1)
                    * plane + (dims.x - 1 - hx) * plane implies !within(p, span.0, span.1) by {
                lemma_planes_after(dims, lo, clamped, p);
            }
            lemma_scan_skip(
                &*self,
                start,
                *probe,
                first,
                answers,
                (a, b, c),
                span,
                (hx + 1) * plane,
                (dims.x - 1 - hx) * plane,
            );
            answers = answers + silence(((dims.x - 1 - hx) * plane) as nat);
        }
        Ghost(answers)
    }
}

} // verus!
