//! The voxel grid: its state, its invariant and its construction.

use vstd::prelude::*;
use glam::{UVec3, Vec3};
use crate::cage::{box_of, flat, is_flat, some_box_flat, Cage};
use crate::cell::GridCell;
use crate::lattice::{adjacent, cell_count, flat_index, index_in, inside, lemma_flat_index_bound};
use crate::tally::{lemma_tally_zero, owns_run, tally};
use crate::weight::Weight;

verus! {

/// Why a grid could not be built.
#[derive(Debug, Clone, Copy, PartialEq, Eq, Structural)]
pub enum GridError {
    /// The cage has no vertex.
    EmptyCage,
    /// A face names a vertex that the cage does not have.
    FaceOutOfRange,
    /// The resolution is zero along some axis.
    EmptyResolution,
    /// The number of voxels does not fit the address space.
    TooManyCells,
    /// The cage has no extent along some axis.
    FlatExtent,
    /// The face with this index has a triangle without area.
    DegenerateFace(usize),
}

/// What a grid holds, as mathematics.
pub struct GridView {
    /// Cell counts along the three axes.
    pub dimensions: UVec3,
    /// Number of weights in one coordinate vector.
    pub depth: nat,
    /// Classification of every voxel, by flat index.
    pub cells: Seq<GridCell>,
    /// The coordinate buffer.
    pub weights: Seq<Weight>,
}

impl GridView {
    /// Classification of voxel `p`.
    pub open spec fn cell_at(self, p: UVec3) -> GridCell {
        self.cells[flat_index(self.dimensions, p)]
    }

    /// The coordinate vector that starts at offset `slot` of the buffer.
    pub open spec fn run(self, slot: int) -> Seq<Weight> {
        self.weights.subrange(slot, slot + self.depth)
    }

    /// A grid of the given shape in which nothing is classified yet.
    pub open spec fn fresh(dimensions: UVec3, depth: nat) -> GridView {
        GridView {
            dimensions,
            depth,
            cells: Seq::new(cell_count(dimensions), |i: int| GridCell::Uninitialized),
            weights: Seq::empty(),
        }
    }

    /// Every cell that owns a run owns `depth` weights inside the buffer,
    /// starting at a multiple of `depth`.
    pub open spec fn runs_in_range(self) -> bool {
        forall|i: int|
            0 <= i < self.cells.len() ==> match (#[trigger] self.cells[i]).slot() {
                Some(s) => (s as int) % (self.depth as int) == 0 && s + self.depth <= self.weights.len(),
                None => true,
            }
    }

    /// No two cells share a weight.
    pub open spec fn runs_disjoint(self) -> bool {
        forall|i: int, j: int|
            0 <= i < self.cells.len() && 0 <= j < self.cells.len() && i != j ==> match (
                (#[trigger] self.cells[i]).slot(),
                (#[trigger] self.cells[j]).slot(),
            ) {
                (Some(s), Some(t)) => s + self.depth <= t || t + self.depth <= s,
                _ => true,
            }
    }

    /// Whether the cell with flat index `i` owns place `at` of the buffer.
    pub open spec fn owns(self, i: int, at: int) -> bool {
        0 <= i < self.cells.len() && match self.cells[i].slot() {
            Some(s) => s <= at < s + self.depth,
            None => false,
        }
    }

    /// Whether some cell owns place `at` of the buffer.
    pub open spec fn owned(self, at: int) -> bool {
        exists|i: int| #[trigger] self.owns(i, at)
    }

    /// Every weight in the buffer belongs to a cell.
    pub open spec fn runs_cover(self) -> bool {
        forall|at: int| 0 <= at < self.weights.len() ==> #[trigger] self.owned(at)
    }

    /// Every voxel next to an exterior voxel is boundary or exterior
    /// itself.
    pub open spec fn sealed(self) -> bool {
        forall|p: UVec3, q: UVec3|
            inside(self.dimensions, p) && inside(self.dimensions, q) && #[trigger] adjacent(p, q)
                && self.cell_at(p) is Exterior ==> self.cell_at(q) is Exterior || self.cell_at(
                q,
            ) is Boundary
    }

    /// Interior cells appear only once no cell is left unclassified.
    pub open spec fn phased(self) -> bool {
        forall|i: int, j: int|
            0 <= i < self.cells.len() && 0 <= j < self.cells.len() ==> !((
            #[trigger] self.cells[i]) is Interior && (#[trigger] self.cells[j]) is Uninitialized)
    }

    /// The invariant of a grid.
    ///
    /// The grid has at least one voxel and one cell record per voxel. The
    /// buffer is made up of one run of `depth` weights for each boundary or
    /// interior cell: the runs do not overlap and leave no weight out, so
    /// an exterior or unclassified cell owns no weight. Cell records and
    /// buffer fit the machine.
    pub open spec fn wf(self) -> bool {
        &&& self.dimensions.x > 0 && self.dimensions.y > 0 && self.dimensions.z > 0
        &&& self.depth > 0
        &&& self.cells.len() == cell_count(self.dimensions)
        &&& self.cells.len() <= usize::MAX
        &&& self.weights.len() == self.depth * tally(self.cells, owns_run())
        &&& self.weights.len() <= usize::MAX
        &&& self.runs_in_range()
        &&& self.runs_disjoint()
        &&& self.runs_cover()
        &&& self.sealed()
        &&& self.phased()
    }
}

/// The invariant speaks of the layout of the buffer, not of the weights in
/// it: a grid with the same shape, the same cells and as many weights as a
/// grid that meets the invariant meets it too.
pub proof fn lemma_wf_same_layout(g: GridView, h: GridView)
    requires
        g.wf(),
        h.dimensions == g.dimensions,
        h.depth == g.depth,
        h.cells == g.cells,
        h.weights.len() == g.weights.len(),
    ensures
        h.wf(),
{
    assert forall|at: int| 0 <= at < h.weights.len() implies #[trigger] h.owned(at) by {
        assert(g.owned(at));
        let i = choose|i: int| #[trigger] g.owns(i, at);
        assert(h.owns(i, at));
    }
    assert forall|p: UVec3, q: UVec3|
        inside(h.dimensions, p) && inside(h.dimensions, q) && #[trigger] adjacent(p, q) && h.cell_at(
            p,
        ) is Exterior implies h.cell_at(q) is Exterior || h.cell_at(q) is Boundary by {
        assert(g.cell_at(p) is Exterior);
    }
}

/// A grid in which nothing is classified yet meets the invariant.
pub proof fn lemma_fresh_wf(dimensions: UVec3, depth: nat)
    requires
        dimensions.x > 0 && dimensions.y > 0 && dimensions.z > 0,
        cell_count(dimensions) <= usize::MAX,
        depth > 0,
    ensures
        GridView::fresh(dimensions, depth).wf(),
{
    let v = GridView::fresh(dimensions, depth);
    lemma_tally_zero(v.cells, owns_run());
    assert(v.depth * 0 == 0);
    assert forall|p: UVec3, q: UVec3|
        inside(v.dimensions, p) && inside(v.dimensions, q) && #[trigger] adjacent(p, q) && v.cell_at(
            p,
        ) is Exterior implies v.cell_at(q) is Exterior || v.cell_at(q) is Boundary by {
        lemma_flat_index_bound(dimensions, p);
    }
}

/// Only boundary and interior cells own weights. An exterior cell and an
/// unclassified cell own no run and no place of the buffer, and every
/// place of the buffer belongs to a boundary or an interior cell.
pub proof fn lemma_exterior_owns_nothing(g: GridView, i: int, at: int)
    requires
        g.wf(),
        0 <= i < g.cells.len(),
        0 <= at < g.weights.len(),
    ensures
        g.cells[i] is Exterior || g.cells[i] is Uninitialized ==> g.cells[i].slot() is None
            && !g.owns(i, at),
        exists|j: int|
            #[trigger] g.owns(j, at) && (g.cells[j] is Boundary || g.cells[j] is Interior),
        g.weights.len() == g.depth * tally(g.cells, owns_run()),
{
    assert(g.owned(at));
    let j = choose|j: int| #[trigger] g.owns(j, at);
    assert(g.owns(j, at) && (g.cells[j] is Boundary || g.cells[j] is Interior));
}

/// A regular grid of voxels over the bounding box of a cage.
///
/// The grid owns its cage, its cell records and its buffer: they are read
/// through the methods of the grid and changed by them alone, so every
/// grid that is handed out meets the invariant.
pub struct Grid {
    /// Least corner of the bounding box.
    pub(crate) min: Vec3,
    /// Greatest corner of the bounding box.
    pub(crate) max: Vec3,
    /// Cell counts along the three axes.
    pub(crate) dimensions: UVec3,
    pub(crate) cell_types: Vec<GridCell>,
    pub(crate) cell_data: Vec<Weight>,
    /// The cage the grid was built for.
    pub(crate) cage: Cage,
}

impl Grid {
    /// What the grid holds, as mathematics.
    pub open(crate) spec fn view(&self) -> GridView {
        GridView {
            dimensions: self.dimensions,
            depth: self.cage.depth(),
            cells: self.cell_types@,
            weights: self.cell_data@,
        }
    }

    /// What the grid was built from: the two corners of the bounding box,
    /// least first, and the cage. No operation on a grid changes it.
    pub open(crate) spec fn setting(&self) -> (Vec3, Vec3, Cage) {
        (self.min, self.max, self.cage)
    }

    /// The invariant that every operation on a grid keeps.
    pub open(crate) spec fn wf(&self) -> bool {
        &&& self.view().wf()
        &&& self.cage.faces_in_range()
    }

    /// The reason, if there is one that shape and cage alone show, for which
    /// no grid can be built.
    pub open spec fn rejection(dimensions: UVec3, cage: &Cage) -> Option<GridError> {
        if cage.vertices@.len() == 0 {
            Some(GridError::EmptyCage)
        } else if !cage.faces_in_range() {
            Some(GridError::FaceOutOfRange)
        } else if dimensions.x == 0 || dimensions.y == 0 || dimensions.z == 0 {
            Some(GridError::EmptyResolution)
        } else if cell_count(dimensions) > usize::MAX {
            Some(GridError::TooManyCells)
        } else {
            None
        }
    }

    /// Builds the grid for a cage whose bounding box is already known.
    ///
    /// `flat` tells whether that box has no extent along some axis.
    pub fn assemble(dimensions: UVec3, cage: Cage, min: Vec3, max: Vec3, flat: bool) -> (made: Result<
        Grid,
        GridError,
    >)
        ensures
            match made {
                Ok(grid) => {
                    &&& Grid::rejection(dimensions, &cage) is None
                    &&& !flat
                    &&& grid.wf()
                    &&& grid.view() == GridView::fresh(dimensions, cage.depth())
                    &&& grid.setting() == (min, max, cage)
                },
                Err(reason) => match Grid::rejection(dimensions, &cage) {
                    Some(expected) => reason == expected,
                    None => flat && reason == GridError::FlatExtent,
                },
            },
    {
        if cage.vertices.len() == 0 {
            return Err(GridError::EmptyCage);
        }
        if !cage.check_faces() {
            return Err(GridError::FaceOutOfRange);
        }
        if dimensions.x == 0 || dimensions.y == 0 || dimensions.z == 0 {
            return Err(GridError::EmptyResolution);
        }
        assert(dimensions.x * dimensions.y <= 0xffff_ffff * 0xffff_ffff && dimensions.x
            * dimensions.y * dimensions.z <= 0xffff_ffff * 0xffff_ffff * 0xffff_ffff) by (nonlinear_arith)
            requires
                0 < dimensions.x <= 0xffff_ffff,
                0 < dimensions.y <= 0xffff_ffff,
                0 < dimensions.z <= 0xffff_ffff,
        ;
        let total: u128 = (dimensions.x as u128) * (dimensions.y as u128) * (dimensions.z as u128);
        if total > usize::MAX as u128 {
            return Err(GridError::TooManyCells);
        }
        if flat {
            return Err(GridError::FlatExtent);
        }
        let count: usize = total as usize;
        let mut cell_types: Vec<GridCell> = Vec::new();
        let mut n: usize = 0;
        while n < count
            invariant
                n <= count,
                cell_types@ == Seq::new(n as nat, |i: int| GridCell::Uninitialized),
            decreases count - n,
        {
            cell_types.push(GridCell::Uninitialized);
            n = n + 1;
            assert(cell_types@ =~= Seq::new(n as nat, |i: int| GridCell::Uninitialized));
        }
        let grid = Grid { min, max, dimensions, cell_types, cell_data: Vec::new(), cage };
        proof {
            assert(grid.view() =~= GridView::fresh(dimensions, cage.depth()));
            lemma_fresh_wf(dimensions, cage.depth());
        }
        Ok(grid)
    }

    /// Builds the grid over the bounding box of `cage`, with nothing
    /// classified yet.
    ///
    /// No grid is built for an empty cage, for a face that names a missing
    /// vertex, for a resolution that is zero along some axis or too large
    /// for the machine, nor for a cage whose bounding box is flat along
    /// some axis. For every other cage the grid is built, over the bounding
    /// box of the cage's vertices: the box that is computed decides.
    pub fn new(dimensions: UVec3, cage: Cage) -> (made: Result<Grid, GridError>)
        ensures
            match made {
                Ok(grid) => {
                    &&& Grid::rejection(dimensions, &cage) is None
                    &&& grid.wf()
                    &&& grid.view() == GridView::fresh(dimensions, cage.depth())
                    &&& grid.setting().2 == cage
                    &&& box_of(cage.vertices@, grid.setting().0, grid.setting().1)
                    &&& !flat(grid.setting().0, grid.setting().1)
                },
                Err(reason) => match Grid::rejection(dimensions, &cage) {
                    Some(expected) => reason == expected,
                    None => reason == GridError::FlatExtent && some_box_flat(cage.vertices@, true),
                },
            },
    {
        if cage.vertices.len() == 0 {
            return Err(GridError::EmptyCage);
        }
        let (least, greatest) = cage.bounding_box();
        let flat = is_flat(least, greatest);
        proof {
            assert(box_of(cage.vertices@, least, greatest));
        }
        Grid::assemble(dimensions, cage, least, greatest, flat)
    }

    /// Least corner of the bounding box.
    pub fn min(&self) -> (corner: Vec3)
        ensures
            corner == self.setting().0,
    {
        self.min
    }

    /// Greatest corner of the bounding box.
    pub fn max(&self) -> (corner: Vec3)
        ensures
            corner == self.setting().1,
    {
        self.max
    }

    /// Cell counts along the three axes.
    pub fn dimensions(&self) -> (dimensions: UVec3)
        ensures
            dimensions == self.view().dimensions,
    {
        self.dimensions
    }

    /// The cage the grid was built for.
    pub fn cage(&self) -> (cage: &Cage)
        ensures
            *cage == self.setting().2,
    {
        &self.cage
    }

    /// Classification of the voxel at `position`, or `None` where the
    /// position lies outside the grid.
    pub fn classification(&self, position: UVec3) -> (cell: Option<GridCell>)
        requires
            self.wf(),
        ensures
            cell == if inside(self.view().dimensions, position) {
                Some(self.view().cell_at(position))
            } else {
                None
            },
    {
        match self.index_of(position) {
            Some(index) => Some(self.cell_types[index]),
            None => None,
        }
    }

    /// A copy of the coordinate vector of the voxel at `position`: one
    /// weight per vertex of the cage. It is `None` where the position lies
    /// outside the grid or the voxel is neither boundary nor interior.
    pub fn coordinates(&self, position: UVec3) -> (vector: Option<Vec<Weight>>)
        requires
            self.wf(),
        ensures
            match vector {
                Some(weights) => {
                    &&& inside(self.view().dimensions, position)
                    &&& self.view().cell_at(position).slot() is Some
                    &&& weights@ == self.view().run(
                        self.view().cell_at(position).slot().unwrap() as int,
                    )
                },
                None => !inside(self.view().dimensions, position) || self.view().cell_at(
                    position,
                ).slot() is None,
            },
    {
        let depth: usize = self.cage.vertices.len();
        let index = match self.index_of(position) {
            Some(index) => index,
            None => {
                return None;
            },
        };
        let slot: usize = match self.cell_types[index] {
            GridCell::Boundary(s) => s,
            GridCell::Interior(s) => s,
            _ => {
                return None;
            },
        };
        proof {
            assert(self.view().cells[index as int].slot() == Some(slot));
        }
        let mut weights: Vec<Weight> = Vec::new();
        let mut k: usize = 0;
        while k < depth
            invariant
                k <= depth,
                slot + depth <= self.cell_data@.len() <= usize::MAX,
                weights@ == self.cell_data@.subrange(slot as int, slot + k),
            decreases depth - k,
        {
            weights.push(self.cell_data[slot + k]);
            k = k + 1;
            assert(weights@ =~= self.cell_data@.subrange(slot as int, slot + k));
        }
        Some(weights)
    }

    /// Number of voxels of the grid.
    pub fn cell_count(&self) -> (count: usize)
        requires
            self.wf(),
        ensures
            count == cell_count(self.view().dimensions),
    {
        self.cell_types.len()
    }

    /// Number of weights in the coordinate buffer.
    pub fn weight_count(&self) -> (count: usize)
        ensures
            count == self.view().weights.len(),
    {
        self.cell_data.len()
    }

    /// Number of weights in one coordinate vector.
    pub fn depth(&self) -> (depth: usize)
        ensures
            depth == self.view().depth,
    {
        self.cage.vertices.len()
    }

    /// Flat index of the voxel at `position`, or `None` where the position
    /// lies outside the grid along any axis.
    pub fn index_of(&self, position: UVec3) -> (index: Option<usize>)
        requires
            self.wf(),
        ensures
            index == if inside(self.view().dimensions, position) {
                Some(flat_index(self.view().dimensions, position) as usize)
            } else {
                None
            },
            index is Some ==> index.unwrap() < self.view().cells.len(),
            index is Some ==> index.unwrap() == flat_index(self.view().dimensions, position),
    {
        index_in(self.dimensions, position)
    }
}

} // verus!
