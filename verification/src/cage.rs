//! The control cage: vertex positions and the quads that span them.

use vstd::prelude::*;
use glam::Vec3;
use crate::raster::triangle_corners;
use crate::vector::{equal_axes, greater_of, lesser_of};

verus! {

/// A closed surface of quads.
///
/// A vertex is known by its position in `vertices`; every coordinate vector
/// of the grid holds one weight per vertex, in this order. Each quad is read
/// as the two triangles over its corners `(0, 1, 2)` and `(2, 3, 0)`.
pub struct Cage {
    pub vertices: Vec<Vec3>,
    pub faces: Vec<[u32; 4]>,
}

impl Cage {
    /// Number of weights in one coordinate vector.
    pub open spec fn depth(&self) -> nat {
        self.vertices@.len()
    }

    /// Whether every corner of every face names a vertex of the cage.
    pub open spec fn faces_in_range(&self) -> bool {
        forall|f: int, c: int|
            0 <= f < self.faces@.len() && 0 <= c < 4 ==> (#[trigger] self.faces@[f]@[c]) < self.depth()
    }

    /// Checks that every corner of every face names a vertex of the cage.
    pub fn check_faces(&self) -> (ok: bool)
        ensures
            ok == self.faces_in_range(),
    {
        let count: usize = self.vertices.len();
        let mut f: usize = 0;
        while f < self.faces.len()
            invariant
                f <= self.faces@.len(),
                count == self.vertices@.len(),
                forall|g: int, c: int|
                    0 <= g < f && 0 <= c < 4 ==> (#[trigger] self.faces@[g]@[c]) < count,
            decreases self.faces@.len() - f,
        {
            let face: [u32; 4] = self.faces[f];
            let mut c: usize = 0;
            while c < 4
                invariant
                    c <= 4,
                    f < self.faces@.len(),
                    count == self.vertices@.len(),
                    face == self.faces@[f as int],
                    forall|d: int| 0 <= d < c ==> (#[trigger] face@[d]) < count,
                decreases 4 - c,
            {
                if face[c] as usize >= count {
                    assert(!(self.faces@[f as int]@[c as int] < self.depth()));
                    return false;
                }
                c = c + 1;
            }
            f = f + 1;
        }
        true
    }

    /// The two opposite corners of the smallest axis-aligned box that holds
    /// every vertex: first the least, then the greatest.
    pub fn bounding_box(&self) -> (corners: (Vec3, Vec3))
        requires
            self.vertices@.len() > 0,
        ensures
            box_of(self.vertices@, corners.0, corners.1),
    {
        let mut least: Vec3 = self.vertices[0];
        let mut greatest: Vec3 = self.vertices[0];
        let mut i: usize = 1;
        while i < self.vertices.len()
            invariant
                1 <= i <= self.vertices@.len(),
                least_is(self.vertices@.take(i as int), least),
                greatest_is(self.vertices@.take(i as int), greatest),
            decreases self.vertices@.len() - i,
        {
            let ghost lower = least;
            let ghost upper = greatest;
            least = least.min(self.vertices[i]);
            greatest = greatest.max(self.vertices[i]);
            proof {
                let longer = self.vertices@.take(i + 1);
                assert(longer.drop_last() =~= self.vertices@.take(i as int));
                assert(least_is(longer.drop_last(), lower) && lesser_of(lower, longer.last(), least));
                assert(greatest_is(longer.drop_last(), upper) && greater_of(
                    upper,
                    longer.last(),
                    greatest,
                ));
                lemma_corner_step(longer, lower, upper, least, greatest);
            }
            i = i + 1;
        }
        proof {
            assert(self.vertices@.take(i as int) =~= self.vertices@);
        }
        (least, greatest)
    }
}

/// Whether `corner` is a least corner of the bounding box of `points`: on
/// every axis the smallest number that a point holds there. It is the
/// first point alone, or what `glam::Vec3::min` may give for a least corner
/// of the points before the last and the last point.
pub open spec fn least_is(points: Seq<Vec3>, corner: Vec3) -> bool
    decreases points.len(),
{
    if points.len() <= 1 {
        corner == points[0]
    } else {
        exists|before: Vec3|
            #![trigger lesser_of(before, points.last(), corner)]
            least_is(points.drop_last(), before) && lesser_of(before, points.last(), corner)
    }
}

/// Whether `corner` is a greatest corner of the bounding box of `points`:
/// on every axis the largest number that a point holds there. It is the
/// first point alone, or what `glam::Vec3::max` may give for a greatest
/// corner of the points before the last and the last point.
pub open spec fn greatest_is(points: Seq<Vec3>, corner: Vec3) -> bool
    decreases points.len(),
{
    if points.len() <= 1 {
        corner == points[0]
    } else {
        exists|before: Vec3|
            #![trigger greater_of(before, points.last(), corner)]
            greatest_is(points.drop_last(), before) && greater_of(before, points.last(), corner)
    }
}

/// A least corner of some points and a further point give a least corner
/// of them all, and likewise for a greatest corner.
proof fn lemma_corner_step(points: Seq<Vec3>, lower: Vec3, upper: Vec3, least: Vec3, greatest: Vec3)
    requires
        points.len() >= 2,
        least_is(points.drop_last(), lower),
        lesser_of(lower, points.last(), least),
        greatest_is(points.drop_last(), upper),
        greater_of(upper, points.last(), greatest),
    ensures
        least_is(points, least),
        greatest_is(points, greatest),
{
}

/// Whether `least` and `greatest` are the two corners of a bounding box of
/// `points`.
pub open spec fn box_of(points: Seq<Vec3>, least: Vec3, greatest: Vec3) -> bool {
    least_is(points, least) && greatest_is(points, greatest)
}

/// Whether a bounding box of `points` is flat along some axis, or is not,
/// as `yes` tells.
pub open spec fn some_box_flat(points: Seq<Vec3>, yes: bool) -> bool {
    exists|least: Vec3, greatest: Vec3|
        #![trigger box_of(points, least, greatest)]
        box_of(points, least, greatest) && flat(least, greatest) == yes
}

/// Positions of the corners of one of the two triangles of face `f`.
pub open spec fn triangle_points(cage: &Cage, f: int, second: bool) -> (Vec3, Vec3, Vec3) {
    let at = triangle_corners(cage.faces@[f]@, second);
    (cage.vertices@[at[0] as int], cage.vertices@[at[1] as int], cage.vertices@[at[2] as int])
}

/// Whether `degenerate` found both triangles of face `f` to have an area.
pub open spec fn face_sound<D: Fn(Vec3, Vec3, Vec3) -> bool>(degenerate: D, cage: &Cage, f: int) -> bool {
    &&& call_ensures(degenerate, triangle_points(cage, f, false), false)
    &&& call_ensures(degenerate, triangle_points(cage, f, true), false)
}

/// Whether `degenerate` found a triangle of face `f` to have no area: the
/// first, or else the second.
pub open spec fn face_degenerate<D: Fn(Vec3, Vec3, Vec3) -> bool>(
    degenerate: D,
    cage: &Cage,
    f: int,
) -> bool {
    ||| call_ensures(degenerate, triangle_points(cage, f, false), true)
    ||| (call_ensures(degenerate, triangle_points(cage, f, false), false) && call_ensures(
        degenerate,
        triangle_points(cage, f, true),
        true,
    ))
}

/// Whether `found` is the first face of the cage of which `degenerate`
/// found a triangle to have no area, and `None` if it found none.
pub open spec fn first_degenerate_is<D: Fn(Vec3, Vec3, Vec3) -> bool>(
    degenerate: D,
    cage: &Cage,
    found: Option<usize>,
) -> bool {
    match found {
        Some(f) => {
            &&& f < cage.faces@.len()
            &&& face_degenerate(degenerate, cage, f as int)
            &&& forall|g: int| 0 <= g < f ==> #[trigger] face_sound(degenerate, cage, g)
        },
        None => forall|g: int|
            0 <= g < cage.faces@.len() ==> #[trigger] face_sound(degenerate, cage, g),
    }
}

/// Looks for the first face with a triangle without area.
///
/// `degenerate` is asked of the two triangles of each face, in the order
/// of the faces and first triangle first, whether the triangle with the
/// given corners has no area. The search ends at the first yes.
pub fn first_degenerate<D: Fn(Vec3, Vec3, Vec3) -> bool>(cage: &Cage, degenerate: &D) -> (found:
    Option<usize>)
    requires
        cage.faces_in_range(),
        forall|a: Vec3, b: Vec3, c: Vec3| call_requires(*degenerate, (a, b, c)),
    ensures
        first_degenerate_is(*degenerate, cage, found),
{
    let mut f: usize = 0;
    while f < cage.faces.len()
        invariant
            f <= cage.faces@.len(),
            cage.faces_in_range(),
            forall|a: Vec3, b: Vec3, c: Vec3| call_requires(*degenerate, (a, b, c)),
            forall|g: int| 0 <= g < f ==> #[trigger] face_sound(*degenerate, cage, g),
        decreases cage.faces@.len() - f,
    {
        let quad: [u32; 4] = cage.faces[f];
        proof {
            assert(cage.faces@[f as int]@[0] < cage.depth());
            assert(cage.faces@[f as int]@[1] < cage.depth());
            assert(cage.faces@[f as int]@[2] < cage.depth());
            assert(cage.faces@[f as int]@[3] < cage.depth());
        }
        let a: Vec3 = cage.vertices[quad[0] as usize];
        let b: Vec3 = cage.vertices[quad[1] as usize];
        let c: Vec3 = cage.vertices[quad[2] as usize];
        let d: Vec3 = cage.vertices[quad[3] as usize];
        if degenerate(a, b, c) {
            return Some(f);
        }
        if degenerate(c, d, a) {
            return Some(f);
        }
        f = f + 1;
    }
    None
}

/// Whether the box between two corners has no extent along some axis.
pub(crate) fn is_flat(least: Vec3, greatest: Vec3) -> (yes: bool)
    ensures
        yes == flat(least, greatest),
{
    least.cmpeq(greatest).any()
}

/// Whether two corners hold the same number on some axis, so that the box
/// between them has no extent along it.
pub open spec fn flat(least: Vec3, greatest: Vec3) -> bool {
    let same = equal_axes(least, greatest);
    same.x || same.y || same.z
}

} // verus!
