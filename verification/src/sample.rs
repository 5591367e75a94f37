//! What the library asks of a sample type.
//!
//! Samples are added, subtracted and multiplied with the operators of the
//! type. A contract can say what such an operation gives only for a type
//! whose operators are functions of their operands; of other types it says
//! how the samples move and where each operation is applied.

use core::ops::{Add, Div, Mul, Neg, Sub};
use vstd::prelude::*;
use vstd::std_specs::ops::{AddSpec, DivSpec, MulSpec, NegSpec, SubSpec};

verus! {

/// A sample: a value that is copied freely and has `+`, `-` and `*`.
pub trait Sample: Copy + Add<Output = Self> + Sub<Output = Self> + Mul<Output = Self> {

}

impl<T: Copy + Add<Output = T> + Sub<Output = T> + Mul<Output = T>> Sample for T {

}

/// `+`, `-` and `*` accept every pair of samples.
pub open spec fn arithmetic_is_total<T: Sample>() -> bool {
    &&& forall|a: T, b: T| #[trigger] a.add_req(b)
    &&& forall|a: T, b: T| #[trigger] a.sub_req(b)
    &&& forall|a: T, b: T| #[trigger] a.mul_req(b)
}

/// `+`, `-` and `*` give what `add_spec`, `sub_spec` and `mul_spec` say.
pub open spec fn arithmetic_is_exact<T: Sample>() -> bool {
    &&& T::obeys_add_spec()
    &&& T::obeys_sub_spec()
    &&& T::obeys_mul_spec()
}

/// The numbers and the functions of a real number that coefficient tables
/// are computed with, as the sample type `T` has them. Nothing is asked of
/// what these give; a contract that speaks of a result says which of them
/// gave it.
pub trait Reals<T> {
    /// The number `index`.
    fn from_index(index: usize) -> T;

    /// One half.
    fn half() -> T;

    /// The circle constant.
    fn pi() -> T;

    /// The sine of an angle in radians.
    fn sin(angle: T) -> T;

    /// The cosine of an angle in radians.
    fn cos(angle: T) -> T;

    /// A number raised to a whole power.
    fn powi(base: T, n: i32) -> T;

    /// `a` times `b` plus `c`, rounded once.
    fn mul_add(a: T, b: T, c: T) -> T;
}

/// `/` accepts every pair of samples.
pub open spec fn division_is_total<T: Div<Output = T>>() -> bool {
    forall|a: T, b: T| #[trigger] a.div_req(b)
}

/// `-` before a sample accepts every sample.
pub open spec fn negation_is_total<T: Neg<Output = T>>() -> bool {
    forall|a: T| #[trigger] a.neg_req()
}

/// `value` is a sample that `T::default()` can give: the silent sample of
/// the type.
pub open spec fn is_default<T: Default>(value: T) -> bool {
    call_ensures(T::default, (), value)
}

/// The block of `len` samples that are all `value`.
pub open spec fn constant<T>(value: T, len: nat) -> Seq<T> {
    Seq::new(len, |i: int| value)
}

/// A vector of `len` samples, each of them `value`.
pub fn filled<T: Copy>(value: T, len: usize) -> (samples: Vec<T>)
    ensures
        samples@ == constant(value, len as nat),
{
    let mut samples: Vec<T> = Vec::new();
    let mut i: usize = 0;
    while i < len
        invariant
            i <= len,
            samples@.len() == i,
            forall|j: int| 0 <= j < i ==> samples@[j] == value,
        decreases len - i,
    {
        samples.push(value);
        i += 1;
    }
    assert(samples@ =~= constant(value, len as nat));
    samples
}

/// Copies `count` samples of `source`, from `from` on, over the samples of
/// `target` from `to` on.
pub fn copy_samples<T: Copy>(source: &[T], from: usize, target: &mut [T], to: usize, count: usize)
    requires
        from + count <= source@.len(),
        to + count <= old(target)@.len(),
    ensures
        final(target)@ == old(target)@.take(to as int) + source@.subrange(
            from as int,
            from + count,
        ) + old(target)@.skip(to + count),
{
    let available: usize = source.len();
    let room: usize = target.len();
    let mut i: usize = 0;
    while i < count
        invariant
            i <= count,
            available == source@.len(),
            room == target@.len(),
            room == old(target)@.len(),
            from + count <= available,
            to + count <= room,
            forall|j: int| 0 <= j < to ==> target@[j] == old(target)@[j],
            forall|j: int| to <= j < to + i ==> target@[j] == source@[j - to + from],
            forall|j: int| to + i <= j < room ==> target@[j] == old(target)@[j],
        decreases count - i,
    {
        target[to + i] = source[from + i];
        i += 1;
    }
    assert(target@ =~= old(target)@.take(to as int) + source@.subrange(from as int, from + count)
        + old(target)@.skip(to + count));
}

} // verus!
