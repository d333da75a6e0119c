//! The per-voxel classification record.

use vstd::prelude::*;
use crate::weight::{extend_zeros, Weight};

verus! {

/// Classification of one voxel.
///
/// `Boundary` and `Interior` cells own a run of weights in the shared
/// coordinate buffer; the payload is the offset at which that run starts.
#[derive(Debug, Clone, Copy, PartialEq, Eq, Structural)]
pub enum GridCell {
    Uninitialized,
    Exterior,
    Boundary(usize),
    Interior(usize),
}

impl GridCell {
    /// Offset of the cell's run of weights, if it owns one.
    pub open spec fn slot(self) -> Option<usize> {
        match self {
            GridCell::Boundary(i) => Some(i),
            GridCell::Interior(i) => Some(i),
            _ => None,
        }
    }

    /// The cell and buffer that result from marking `self` as boundary when
    /// the buffer holds `data` and every cell owns `cage_len` weights.
    ///
    /// An uninitialized cell takes a fresh zeroed run at the end of the
    /// buffer; any other cell, and the buffer with it, stays as it is.
    pub open spec fn marked(self, data: Seq<Weight>, cage_len: nat) -> (GridCell, Seq<Weight>) {
        match self {
            GridCell::Uninitialized => (
                GridCell::Boundary(data.len() as usize),
                data + Weight::zeros(cage_len),
            ),
            _ => (self, data),
        }
    }

    /// Whether the cell is not classified yet.
    pub fn uninitialized(&self) -> (r: bool)
        ensures
            r == (*self is Uninitialized),
    {
        match self {
            GridCell::Uninitialized => true,
            _ => false,
        }
    }

    /// Turns an uninitialized cell into a boundary cell with a fresh zeroed
    /// run of `cage_len` weights; leaves a boundary cell and the buffer alone.
    pub fn mark_boundary(&mut self, data: &mut Vec<Weight>, cage_len: usize)
        requires
            *old(self) is Uninitialized || *old(self) is Boundary,
        ensures
            (*final(self), final(data)@) == old(self).marked(old(data)@, cage_len as nat),
    {
        match *self {
            GridCell::Uninitialized => {
                *self = GridCell::Boundary(data.len());
                extend_zeros(data, cage_len);
            },
            _ => {},
        }
    }

    /// The cell's run of weights, borrowed out of the buffer for writing.
    pub fn get_boundary<'a>(&self, data: &'a mut Vec<Weight>, cage_len: usize) -> (run: &'a mut [Weight])
        requires
            self.slot() is Some,
            self.slot().unwrap() + cage_len <= old(data).len(),
        ensures
            run@ == old(data)@.subrange(
                self.slot().unwrap() as int,
                self.slot().unwrap() + cage_len,
            ),
            final(data)@ == old(data)@.subrange(0, self.slot().unwrap() as int) + final(run)@
                + old(data)@.subrange(self.slot().unwrap() + cage_len, old(data).len() as int),
    {
        let start: usize = match *self {
            GridCell::Boundary(i) => i,
            GridCell::Interior(i) => i,
            _ => 0,
        };
        let whole = data.as_mut_slice();
        let (_head, rest) = whole.split_at_mut(start);
        let (run, _tail) = rest.split_at_mut(cage_len);
        run
    }
}

/// Marking a cell a second time changes neither the cell nor the buffer, so
/// a boundary cell's run of weights is never reallocated or moved.
pub proof fn lemma_mark_boundary_idempotent(cell: GridCell, data: Seq<Weight>, cage_len: nat)
    ensures
        ({
            let once = cell.marked(data, cage_len);
            once.0.marked(once.1, cage_len) == once
        }),
{
}

} // verus!
