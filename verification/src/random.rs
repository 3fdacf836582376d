//! The random source. It is an outside generator; the library states of each
//! draw only what holds of every outcome.

use vstd::prelude::*;
use crate::geometry::Point;

verus! {

/// The generator of `bracket_lib`. Nothing is known of what is inside it.
#[verifier::external_type_specification]
#[verifier::external_body]
pub struct ExRandomNumberGenerator(bracket_lib::prelude::RandomNumberGenerator);

/// Calls `RandomNumberGenerator::range` on `i32` bounds. The draw lies in
/// `min <= r < max`; an empty range, on which the generator panics, is left
/// out.
#[verifier::external_body]
pub(crate) fn draw_range(
    rng: &mut bracket_lib::prelude::RandomNumberGenerator,
    min: i32,
    max: i32,
) -> (r: i32)
    requires
        min < max,
    ensures
        min <= r < max,
{
    rng.range(min, max)
}

/// Calls `RandomNumberGenerator::random_slice_index` on the points of
/// `items`. An empty list gives `None`; any other gives an index into it.
/// Lists too long for the generator's 32-bit dice are left out.
#[verifier::external_body]
pub(crate) fn draw_index(
    rng: &mut bracket_lib::prelude::RandomNumberGenerator,
    items: &Vec<Point>,
) -> (r: Option<usize>)
    requires
        items@.len() < 0x7fff_ffff,
    ensures
        items@.len() == 0 ==> r.is_none(),
        items@.len() > 0 ==> r.is_some() && r.unwrap() < items@.len(),
{
    rng.random_slice_index(items.as_slice())
}

} // verus!
