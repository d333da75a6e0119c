//! Counting the cells of a sequence that satisfy a predicate.

use vstd::prelude::*;
use crate::cell::GridCell;

verus! {

/// Number of cells of `cells` that `pick` holds of.
pub open spec fn tally(cells: Seq<GridCell>, pick: spec_fn(GridCell) -> bool) -> nat
    decreases cells.len(),
{
    if cells.len() == 0 {
        0
    } else {
        tally(cells.drop_last(), pick) + if pick(cells.last()) {
            1nat
        } else {
            0nat
        }
    }
}

/// Picks the cells that own a run of weights.
pub open spec fn owns_run() -> spec_fn(GridCell) -> bool {
    |c: GridCell| c.slot() is Some
}

/// Picks the interior cells.
pub open spec fn is_interior() -> spec_fn(GridCell) -> bool {
    |c: GridCell| c is Interior
}

/// Picks the cells that are not yet classified.
pub open spec fn is_blank() -> spec_fn(GridCell) -> bool {
    |c: GridCell| c is Uninitialized
}

/// The tally of a prefix grows by one exactly when the next cell is picked.
pub proof fn lemma_tally_take_next(cells: Seq<GridCell>, pick: spec_fn(GridCell) -> bool, n: int)
    requires
        0 <= n < cells.len(),
    ensures
        tally(cells.take(n + 1), pick) == tally(cells.take(n), pick) + if pick(cells[n]) {
            1nat
        } else {
            0nat
        },
{
    assert(cells.take(n + 1).drop_last() =~= cells.take(n));
}

/// Prefix tallies do not decrease with the length of the prefix.
pub proof fn lemma_tally_take_monotone(
    cells: Seq<GridCell>,
    pick: spec_fn(GridCell) -> bool,
    m: int,
    n: int,
)
    requires
        0 <= m <= n <= cells.len(),
    ensures
        tally(cells.take(m), pick) <= tally(cells.take(n), pick),
    decreases n - m,
{
    if m < n {
        lemma_tally_take_next(cells, pick, n - 1);
        lemma_tally_take_monotone(cells, pick, m, n - 1);
    }
}

/// Replacing one cell changes the tally by what that cell contributes.
pub proof fn lemma_tally_update(
    cells: Seq<GridCell>,
    pick: spec_fn(GridCell) -> bool,
    i: int,
    cell: GridCell,
)
    requires
        0 <= i < cells.len(),
    ensures
        tally(cells.update(i, cell), pick) + (if pick(cells[i]) {
            1nat
        } else {
            0nat
        }) == tally(cells, pick) + (if pick(cell) {
            1nat
        } else {
            0nat
        }),
    decreases cells.len(),
{
    let after = cells.update(i, cell);
    if i == cells.len() - 1 {
        assert(after.drop_last() =~= cells.drop_last());
    } else {
        assert(after.drop_last() =~= cells.drop_last().update(i, cell));
        lemma_tally_update(cells.drop_last(), pick, i, cell);
    }
}

/// Two sequences whose cells are picked at the same places have the same
/// tally.
pub proof fn lemma_tally_agree(a: Seq<GridCell>, b: Seq<GridCell>, pick: spec_fn(GridCell) -> bool)
    requires
        a.len() == b.len(),
        forall|i: int| 0 <= i < a.len() ==> pick(#[trigger] a[i]) == pick(b[i]),
    ensures
        tally(a, pick) == tally(b, pick),
    decreases a.len(),
{
    if a.len() > 0 {
        let (fa, fb) = (a.drop_last(), b.drop_last());
        assert forall|i: int| 0 <= i < fa.len() implies pick(#[trigger] fa[i]) == pick(fb[i]) by {
            assert(fa[i] == a[i]);
        }
        lemma_tally_agree(fa, fb, pick);
        assert(pick(a[a.len() - 1]) == pick(b[a.len() - 1]));
    }
}

/// A predicate that holds of fewer cells has the smaller tally.
pub proof fn lemma_tally_implies(
    cells: Seq<GridCell>,
    fewer: spec_fn(GridCell) -> bool,
    more: spec_fn(GridCell) -> bool,
)
    requires
        forall|c: GridCell| #[trigger] fewer(c) ==> more(c),
    ensures
        tally(cells, fewer) <= tally(cells, more),
    decreases cells.len(),
{
    if cells.len() > 0 {
        lemma_tally_implies(cells.drop_last(), fewer, more);
    }
}

/// For every number below the tally there is a picked cell with exactly
/// that many picked cells before it.
pub proof fn lemma_tally_select(cells: Seq<GridCell>, pick: spec_fn(GridCell) -> bool, k: int) -> (i:
    int)
    requires
        0 <= k < tally(cells, pick),
    ensures
        0 <= i < cells.len(),
        pick(cells[i]),
        tally(cells.take(i), pick) == k,
    decreases cells.len(),
{
    let front = cells.drop_last();
    if pick(cells.last()) && tally(front, pick) == k {
        assert(cells.take(cells.len() - 1) =~= front);
        cells.len() - 1
    } else {
        let i = lemma_tally_select(front, pick, k);
        assert(cells.take(i) =~= front.take(i));
        i
    }
}

/// The tally is zero exactly when no cell is picked.
pub proof fn lemma_tally_zero(cells: Seq<GridCell>, pick: spec_fn(GridCell) -> bool)
    ensures
        tally(cells, pick) == 0 <==> forall|i: int| 0 <= i < cells.len() ==> !pick(#[trigger] cells[i]),
    decreases cells.len(),
{
    if cells.len() > 0 {
        let front = cells.drop_last();
        lemma_tally_zero(front, pick);
        if tally(cells, pick) == 0 {
            assert forall|i: int| 0 <= i < cells.len() implies !pick(#[trigger] cells[i]) by {
                if i < cells.len() - 1 {
                    assert(front[i] == cells[i]);
                }
            }
        } else {
            if forall|i: int| 0 <= i < cells.len() ==> !pick(#[trigger] cells[i]) {
                assert forall|i: int| 0 <= i < front.len() implies !pick(#[trigger] front[i]) by {
                    assert(front[i] == cells[i]);
                }
                assert(!pick(cells[cells.len() - 1]));
            }
        }
    }
}

} // verus!
