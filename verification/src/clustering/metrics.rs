//! Distance metrics over collections.

use vstd::prelude::*;

use crate::clustering::diameter::spec_diameter;
use crate::clustering::diameter::Distance;

verus! {

/// `spec_diameter` floored at zero: the largest positive pairwise distance,
/// or `0` when there is none.
pub open spec fn spec_diameter_or_zero<D: Distance>(d: D, s: Seq<D::Item>) -> i64 {
    match spec_diameter(d, s) {
        None => 0,
        Some(v) => if v > 0 {
            v
        } else {
            0
        },
    }
}

/// Computes the diameter of `items` — the largest `distance` between any two
/// of its elements — returning `0` when `items` has fewer than two elements
/// or when no pairwise distance is positive.
pub fn diameter<D: Distance>(items: &Vec<D::Item>, distance: &D) -> (r: i64)
    ensures
        r == spec_diameter_or_zero(*distance, items@),
{
    match crate::clustering::diameter::diameter(items, distance) {
        None => 0,
        Some(v) => if v > 0 {
            v
        } else {
            0
        },
    }
}

} // verus!
