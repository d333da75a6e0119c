//! The vector types of `glam` as the verifier sees them, and what is
//! assumed of the `glam` functions that the library calls.

use vstd::prelude::*;
use glam::{BVec3, UVec3, Vec3};

verus! {

/// `glam::Vec3`, a point of three single-precision numbers. It is carried
/// through the library unopened.
#[verifier::external_type_specification]
#[verifier::external_body]
pub struct ExVec3(Vec3);

/// `glam::UVec3`, a vector of three unsigned integers, with its public
/// fields `x`, `y` and `z` as `glam` declares them.
#[verifier::external_type_specification]
pub struct ExUVec3(UVec3);

/// `glam::BVec3`, a mask of three flags, with its public fields `x`, `y`
/// and `z` as `glam` declares them.
#[verifier::external_type_specification]
pub struct ExBVec3(BVec3);

/// Whether `r` is a point that `glam::Vec3::min` may return for `a` and
/// `b`: on each axis the smaller of their two numbers. It is a relation
/// and no function, because where the two numbers compare equal, as the
/// two zeros do, either of them may come back.
pub uninterp spec fn lesser_of(a: Vec3, b: Vec3, r: Vec3) -> bool;

/// Whether `r` is a point that `glam::Vec3::max` may return for `a` and
/// `b`: on each axis the larger of their two numbers. It is a relation and
/// no function, for the reason given with `lesser_of`.
pub uninterp spec fn greater_of(a: Vec3, b: Vec3, r: Vec3) -> bool;

/// `glam::Vec3::min`, the componentwise smaller of two points. The numbers
/// inside a point are not visible here; the result is known as one that
/// the call may give for its two points.
pub assume_specification[ Vec3::min ](a: Vec3, b: Vec3) -> (r: Vec3)
    ensures
        lesser_of(a, b, r),
;

/// `glam::Vec3::max`, the componentwise larger of two points. The result
/// is known as one that the call may give for its two points.
pub assume_specification[ Vec3::max ](a: Vec3, b: Vec3) -> (r: Vec3)
    ensures
        greater_of(a, b, r),
;

/// For each axis, whether two points hold the same number on it: the mask
/// that `glam::Vec3::cmpeq` returns for them. The numbers are compared as
/// `==` compares them, so the mask depends on the two points alone.
pub uninterp spec fn equal_axes(a: Vec3, b: Vec3) -> BVec3;

/// `glam::Vec3::cmpeq`, which compares two points axis by axis with `==`.
/// The numbers inside a point are not visible here, so the mask is known
/// by its name only.
pub assume_specification[ Vec3::cmpeq ](a: Vec3, b: Vec3) -> (mask: BVec3)
    ensures
        mask == equal_axes(a, b),
;

/// `glam::BVec3::any`: whether at least one of the three flags is set.
pub assume_specification[ BVec3::any ](mask: BVec3) -> (r: bool)
    ensures
        r == (mask.x || mask.y || mask.z),
;

} // verus!
