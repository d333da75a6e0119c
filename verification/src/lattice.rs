//! Index arithmetic on the regular lattice of voxels.
//!
//! A voxel is named by its integer position; the cells of a grid are stored
//! in one flat array, ordered by `x`, then `y`, then `z`.

use vstd::prelude::*;
use glam::UVec3;

verus! {

/// Number of voxels in a grid with `dims` cells along the three axes.
pub open spec fn cell_count(dims: UVec3) -> nat {
    (dims.x * dims.y * dims.z) as nat
}

/// Whether `p` names a voxel of a grid with dimensions `dims`.
pub open spec fn inside(dims: UVec3, p: UVec3) -> bool {
    p.x < dims.x && p.y < dims.y && p.z < dims.z
}

/// Place of voxel `p` in the flat cell array.
pub open spec fn flat_index(dims: UVec3, p: UVec3) -> int {
    p.x * (dims.y * dims.z) + p.y * dims.z + p.z
}

/// The voxel stored at place `i` of the flat cell array.
pub open spec fn position_of(dims: UVec3, i: int) -> UVec3 {
    let plane = dims.y * dims.z;
    UVec3 {
        x: (i / plane) as u32,
        y: ((i % plane) / (dims.z as int)) as u32,
        z: ((i % plane) % (dims.z as int)) as u32,
    }
}

/// Whether `p` and `q` share a face: they differ by one step along exactly
/// one axis.
pub open spec fn adjacent(p: UVec3, q: UVec3) -> bool {
    ||| (p.y == q.y && p.z == q.z && (p.x + 1 == q.x || q.x + 1 == p.x))
    ||| (p.x == q.x && p.z == q.z && (p.y + 1 == q.y || q.y + 1 == p.y))
    ||| (p.x == q.x && p.y == q.y && (p.z + 1 == q.z || q.z + 1 == p.z))
}

/// The sequence that holds `q` alone where `present` is true, and nothing
/// otherwise.
pub open spec fn single(present: bool, q: UVec3) -> Seq<UVec3> {
    if present {
        seq![q]
    } else {
        seq![]
    }
}

/// The face neighbours of `p` that lie in the grid, in the order
/// `+x`, `+y`, `+z`, `-x`, `-y`, `-z`.
pub open spec fn neighbours_of(dims: UVec3, p: UVec3) -> Seq<UVec3> {
    single(p.x + 1 < dims.x, UVec3 { x: (p.x + 1) as u32, y: p.y, z: p.z })
        + single(p.y + 1 < dims.y, UVec3 { x: p.x, y: (p.y + 1) as u32, z: p.z })
        + single(p.z + 1 < dims.z, UVec3 { x: p.x, y: p.y, z: (p.z + 1) as u32 })
        + single(p.x > 0, UVec3 { x: (p.x - 1) as u32, y: p.y, z: p.z })
        + single(p.y > 0, UVec3 { x: p.x, y: (p.y - 1) as u32, z: p.z })
        + single(p.z > 0, UVec3 { x: p.x, y: p.y, z: (p.z - 1) as u32 })
}

proof fn lemma_radix_unique(a1: int, r1: int, a2: int, r2: int, m: int)
    requires
        0 <= r1 < m,
        0 <= r2 < m,
        a1 * m + r1 == a2 * m + r2,
    ensures
        a1 == a2,
        r1 == r2,
{
    assert(a1 == a2) by (nonlinear_arith)
        requires
            0 <= r1 < m,
            0 <= r2 < m,
            a1 * m + r1 == a2 * m + r2,
    {
        if a1 < a2 {
            assert(a1 * m + m <= a2 * m);
        } else if a2 < a1 {
            assert(a2 * m + m <= a1 * m);
        }
    }
}

proof fn lemma_row_bound(y: int, z: int, dy: int, dz: int)
    requires
        0 <= y < dy,
        0 <= z < dz,
    ensures
        0 <= y * dz + z < dy * dz,
{
    assert(0 <= y * dz && y * dz + dz <= dy * dz) by (nonlinear_arith)
        requires
            0 <= y < dy,
            0 <= z < dz,
    ;
}

/// A voxel of the grid has a place inside the flat cell array.
pub proof fn lemma_flat_index_bound(dims: UVec3, p: UVec3)
    requires
        inside(dims, p),
    ensures
        0 <= flat_index(dims, p) < cell_count(dims),
{
    let plane = dims.y * dims.z;
    lemma_row_bound(p.y as int, p.z as int, dims.y as int, dims.z as int);
    lemma_row_bound(p.x as int, p.y * dims.z + p.z, dims.x as int, plane);
    assert(dims.x * plane == dims.x * dims.y * dims.z) by (nonlinear_arith)
        requires
            plane == dims.y * dims.z,
    ;
}

/// Two voxels of the grid with the same place in the flat cell array are
/// the same voxel.
pub proof fn lemma_flat_index_injective(dims: UVec3, p: UVec3, q: UVec3)
    requires
        inside(dims, p),
        inside(dims, q),
        flat_index(dims, p) == flat_index(dims, q),
    ensures
        p == q,
{
    let plane = dims.y * dims.z;
    lemma_row_bound(p.y as int, p.z as int, dims.y as int, dims.z as int);
    lemma_row_bound(q.y as int, q.z as int, dims.y as int, dims.z as int);
    lemma_radix_unique(
        p.x as int,
        p.y * dims.z + p.z,
        q.x as int,
        q.y * dims.z + q.z,
        plane,
    );
    lemma_radix_unique(p.y as int, p.z as int, q.y as int, q.z as int, dims.z as int);
}

/// Every place of the flat cell array holds a voxel of the grid, and that
/// voxel's place is the one it was read from.
pub proof fn lemma_position_of(dims: UVec3, i: int)
    requires
        0 <= i < cell_count(dims),
    ensures
        inside(dims, position_of(dims, i)),
        flat_index(dims, position_of(dims, i)) == i,
        0 <= i / (dims.y * dims.z) < dims.x,
        0 <= (i % (dims.y * dims.z)) / (dims.z as int) < dims.y,
        0 <= (i % (dims.y * dims.z)) % (dims.z as int) < dims.z,
{
    let dz = dims.z as int;
    let dy = dims.y as int;
    let dx = dims.x as int;
    let plane = dy * dz;
    assert(dx > 0 && plane > 0 && dz > 0 && dy > 0) by (nonlinear_arith)
        requires
            0 <= i < dx * dy * dz,
            plane == dy * dz,
            dx >= 0,
            dy >= 0,
            dz >= 0,
    ;
    let x = i / plane;
    let r = i % plane;
    let y = r / dz;
    let z = r % dz;
    assert(i == plane * x + r && 0 <= r < plane) by {
        vstd::arithmetic::div_mod::lemma_fundamental_div_mod(i, plane);
        vstd::arithmetic::div_mod::lemma_mod_bound(i, plane);
    }
    assert(r == dz * y + z && 0 <= z < dz) by {
        vstd::arithmetic::div_mod::lemma_fundamental_div_mod(r, dz);
        vstd::arithmetic::div_mod::lemma_mod_bound(r, dz);
    }
    assert(dx * dy * dz == dx * plane) by (nonlinear_arith)
        requires
            plane == dy * dz,
    ;
    assert(0 <= x < dx) by (nonlinear_arith)
        requires
            i == plane * x + r,
            0 <= r < plane,
            0 <= i < dx * plane,
    ;
    assert(0 <= y < dy) by (nonlinear_arith)
        requires
            r == dz * y + z,
            0 <= z < dz,
            0 <= r < dy * dz,
    ;
    assert(plane * x == x * plane && dz * y == y * dz) by (nonlinear_arith);
}

proof fn lemma_single_contains(present: bool, c: UVec3, q: UVec3)
    ensures
        single(present, c).contains(q) <==> present && q == c,
{
    if present && q == c {
        assert(single(present, c)[0] == q);
    }
}

/// A voxel is in the concatenation of two lists exactly when it is in one of
/// them.
pub proof fn lemma_concat_contains(a: Seq<UVec3>, b: Seq<UVec3>, q: UVec3)
    ensures
        (a + b).contains(q) <==> a.contains(q) || b.contains(q),
{
    if a.contains(q) {
        let i = choose|i: int| 0 <= i < a.len() && a[i] == q;
        assert((a + b)[i] == q);
    }
    if b.contains(q) {
        let i = choose|i: int| 0 <= i < b.len() && b[i] == q;
        assert((a + b)[a.len() + i] == q);
    }
    if (a + b).contains(q) {
        let i = choose|i: int| 0 <= i < (a + b).len() && (a + b)[i] == q;
        if i < a.len() {
            assert(a[i] == q);
        } else {
            assert(b[i - a.len()] == q);
        }
    }
}

/// A voxel has at most six neighbours.
pub proof fn lemma_neighbours_count(dims: UVec3, p: UVec3)
    ensures
        neighbours_of(dims, p).len() <= 6,
{
}

/// The listed neighbours of a voxel are exactly the voxels of the grid that
/// share a face with it.
pub proof fn lemma_neighbours_of(dims: UVec3, p: UVec3, q: UVec3)
    requires
        inside(dims, p),
    ensures
        neighbours_of(dims, p).contains(q) <==> inside(dims, q) && adjacent(p, q),
{
    let c0 = UVec3 { x: (p.x + 1) as u32, y: p.y, z: p.z };
    let c1 = UVec3 { x: p.x, y: (p.y + 1) as u32, z: p.z };
    let c2 = UVec3 { x: p.x, y: p.y, z: (p.z + 1) as u32 };
    let c3 = UVec3 { x: (p.x - 1) as u32, y: p.y, z: p.z };
    let c4 = UVec3 { x: p.x, y: (p.y - 1) as u32, z: p.z };
    let c5 = UVec3 { x: p.x, y: p.y, z: (p.z - 1) as u32 };
    let s0 = single(p.x + 1 < dims.x, c0);
    let s1 = single(p.y + 1 < dims.y, c1);
    let s2 = single(p.z + 1 < dims.z, c2);
    let s3 = single(p.x > 0, c3);
    let s4 = single(p.y > 0, c4);
    let s5 = single(p.z > 0, c5);
    lemma_single_contains(p.x + 1 < dims.x, c0, q);
    lemma_single_contains(p.y + 1 < dims.y, c1, q);
    lemma_single_contains(p.z + 1 < dims.z, c2, q);
    lemma_single_contains(p.x > 0, c3, q);
    lemma_single_contains(p.y > 0, c4, q);
    lemma_single_contains(p.z > 0, c5, q);
    lemma_concat_contains(s0, s1, q);
    lemma_concat_contains(s0 + s1, s2, q);
    lemma_concat_contains(s0 + s1 + s2, s3, q);
    lemma_concat_contains(s0 + s1 + s2 + s3, s4, q);
    lemma_concat_contains(s0 + s1 + s2 + s3 + s4, s5, q);
}

/// The voxel read from a place of the flat cell array is the voxel that was
/// stored there.
pub proof fn lemma_position_of_flat_index(dims: UVec3, p: UVec3)
    requires
        inside(dims, p),
    ensures
        position_of(dims, flat_index(dims, p)) == p,
{
    lemma_flat_index_bound(dims, p);
    lemma_position_of(dims, flat_index(dims, p));
    lemma_flat_index_injective(dims, position_of(dims, flat_index(dims, p)), p);
}

/// Place of the voxel at `position` in the flat cell array, or `None` where
/// the position lies outside the grid along any axis.
pub fn index_in(dims: UVec3, position: UVec3) -> (index: Option<usize>)
    requires
        cell_count(dims) <= usize::MAX,
    ensures
        index == if inside(dims, position) {
            Some(flat_index(dims, position) as usize)
        } else {
            None
        },
        index is Some ==> index.unwrap() == flat_index(dims, position) && index.unwrap()
            < cell_count(dims),
{
    if position.x < dims.x && position.y < dims.y && position.z < dims.z {
        proof {
            lemma_flat_index_bound(dims, position);
            let (x, y, z) = (position.x as int, position.y as int, position.z as int);
            let (dy, dz) = (dims.y as int, dims.z as int);
            assert(0 <= y * dz && 0 <= x * (dy * dz) && 0 <= dy * dz <= dims.x * dy * dz)
                by (nonlinear_arith)
                requires
                    0 <= x < dims.x,
                    0 <= y < dy,
                    0 <= z < dz,
            ;
        }
        let plane: usize = (dims.y as usize) * (dims.z as usize);
        Some(
            (position.x as usize) * plane + (position.y as usize) * (dims.z as usize) + (
            position.z as usize),
        )
    } else {
        None
    }
}

/// The voxel stored at place `index` of the flat cell array.
pub fn position_at(dims: UVec3, index: usize) -> (p: UVec3)
    requires
        index < cell_count(dims) <= usize::MAX,
    ensures
        p == position_of(dims, index as int),
        inside(dims, p),
        flat_index(dims, p) == index,
{
    proof {
        lemma_position_of(dims, index as int);
        assert(0 < dims.y * dims.z <= cell_count(dims) && dims.z > 0) by (nonlinear_arith)
            requires
                index < dims.x * dims.y * dims.z,
                cell_count(dims) == dims.x * dims.y * dims.z,
        ;
    }
    let plane: usize = (dims.y as usize) * (dims.z as usize);
    let rest: usize = index % plane;
    UVec3 {
        x: (index / plane) as u32,
        y: (rest / (dims.z as usize)) as u32,
        z: (rest % (dims.z as usize)) as u32,
    }
}

/// Lists the face neighbours of `p` that lie in the grid.
pub fn neighbours(dims: UVec3, p: UVec3) -> (list: Vec<UVec3>)
    requires
        inside(dims, p),
    ensures
        list@ == neighbours_of(dims, p),
{
    let mut list: Vec<UVec3> = Vec::new();
    if p.x + 1 < dims.x {
        list.push(UVec3 { x: p.x + 1, y: p.y, z: p.z });
    }
    if p.y + 1 < dims.y {
        list.push(UVec3 { x: p.x, y: p.y + 1, z: p.z });
    }
    if p.z + 1 < dims.z {
        list.push(UVec3 { x: p.x, y: p.y, z: p.z + 1 });
    }
    if p.x > 0 {
        list.push(UVec3 { x: p.x - 1, y: p.y, z: p.z });
    }
    if p.y > 0 {
        list.push(UVec3 { x: p.x, y: p.y - 1, z: p.z });
    }
    if p.z > 0 {
        list.push(UVec3 { x: p.x, y: p.y, z: p.z - 1 });
    }
    assert(list@ =~= neighbours_of(dims, p));
    list
}

} // verus!
