use rand::Rng;
use vstd::prelude::*;

use crate::term::RollError;

verus! {

/// Relies on rand's `thread_rng().gen_range(min..=max)`: for a non-empty
/// inclusive range it returns a value inside it (it panics on an empty one,
/// which `requires` leaves out).
#[verifier::external_body]
fn draw_inclusive(min: i32, max: i32) -> (r: i32)
    requires
        min <= max,
    ensures
        min <= r <= max,
{
    rand::thread_rng().gen_range(min..=max)
}

/// A value drawn uniformly from `[min, max]`, or `InvalidRange` when
/// `min > max`.
pub fn roll_range(min: i32, max: i32) -> (r: Result<i32, RollError>)
    ensures
        min > max ==> r == Err::<i32, RollError>(RollError::InvalidRange),
        min <= max ==> (r matches Ok(v) && min <= v <= max),
{
    if min > max {
        Err(RollError::InvalidRange)
    } else {
        Ok(draw_inclusive(min, max))
    }
}

} // verus!
