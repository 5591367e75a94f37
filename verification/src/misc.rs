//! Rescaling of parameter values.

use crate::sample::{arithmetic_is_exact, arithmetic_is_total, Sample};
use vstd::prelude::*;
use vstd::std_specs::ops::{AddSpec, MulSpec, SubSpec};

verus! {

/// Rescales a normalized value into a given range: a value in the range from
/// zero to one is taken to the range from `min` to `max`.
pub fn rescale_normalized_value<T: Sample>(val: T, min: T, max: T) -> (rescaled: T)
    requires
        arithmetic_is_total::<T>(),
    ensures
        arithmetic_is_exact::<T>() ==> rescaled == val.mul_spec(max.sub_spec(min)).add_spec(min),
{
    val * (max - min) + min
}

} // verus!
