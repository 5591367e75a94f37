//! Windows: weights that a block of samples is multiplied by, sample by
//! sample.

use crate::sample::{arithmetic_is_total, division_is_total, Reals, Sample};
use core::marker::PhantomData;
use core::ops::Div;
use vstd::prelude::*;
use vstd::std_specs::ops::{AddSpec, DivSpec, MulSpec};

verus! {

/// A window that is applied to a block in place.
pub trait SignalWindow<T: Sample>: Sized {
    /// Whether a window can be made for `block_size`. A window that says
    /// nothing about itself can be made for every block size.
    open spec fn ready(block_size: usize) -> bool {
        true
    }

    /// Whether the window can be applied to a block of `len` samples.
    open spec fn covers(&self, len: nat) -> bool {
        true
    }

    /// Whether applying the window to `block` can give `windowed`. A window
    /// that says nothing about itself can give anything.
    open spec fn applies(&self, block: Seq<T>, windowed: Seq<T>) -> bool {
        true
    }

    /// Makes the window for blocks of `block_size` samples, which covers two
    /// blocks.
    fn new(block_size: usize) -> (window: Self)
        requires
            Self::ready(block_size),
        ensures
            window.covers((2 * block_size) as nat),
    ;

    /// Applies the window to `block`.
    fn apply(&self, block: &mut [T])
        requires
            self.covers(old(block)@.len()),
            arithmetic_is_total::<T>(),
        ensures
            final(block)@.len() == old(block)@.len(),
            self.applies(old(block)@, final(block)@),
    ;
}

/// The block whose samples are those of `block`, each multiplied by the
/// weight at its place.
pub open spec fn weighted<T: Sample>(block: Seq<T>, weights: Seq<T>) -> Seq<T> {
    Seq::new(block.len(), |i: int| block[i].mul_spec(weights[i]))
}

/// The weights of the two halves are complementary: whatever a sample is, its
/// share by the weight at a place of the first half and its share by the
/// weight at the same place of the second half add up to the sample.
pub open spec fn complementary<T: Sample>(weights: Seq<T>, block_size: nat) -> bool {
    forall|sample: T, i: int|
        0 <= i < block_size ==> (#[trigger] sample.mul_spec(weights[i])).add_spec(
            sample.mul_spec(weights[block_size + i]),
        ) == sample
}

/// The weights of the two halves are complementary when applied twice:
/// whatever a sample is, its share by a weight of the first half taken twice
/// and its share by the weight at the same place of the second half taken
/// twice add up to the sample.
pub open spec fn complementary_twice<T: Sample>(weights: Seq<T>, block_size: nat) -> bool {
    forall|sample: T, i: int|
        0 <= i < block_size ==> (#[trigger] sample.mul_spec(weights[i])).mul_spec(
            weights[i],
        ).add_spec(
            sample.mul_spec(weights[block_size + i]).mul_spec(weights[block_size + i]),
        ) == sample
}

/// `weight` is the weight at place `i` of a window over two blocks, as `R`
/// computes it: the sine of pi times `i` over twice `block_size`, which is
/// a quarter turn over `block_size` places; raised to the second power if
/// `squared` is set.
pub open spec fn is_sine_weight<T: Sample + Div<Output = T>, R: Reals<T>>(
    i: usize,
    block_size: usize,
    squared: bool,
    weight: T,
) -> bool {
    exists|pi: T, place: T, period: T, angle: T, sine: T|
        {
            &&& #[trigger] call_ensures(R::pi, (), pi)
            &&& #[trigger] call_ensures(R::from_index, (i,), place)
            &&& #[trigger] call_ensures(R::from_index, ((2 * block_size) as usize,), period)
            &&& T::obeys_mul_spec() && T::obeys_div_spec() ==> angle == pi.mul_spec(
                place,
            ).div_spec(period)
            &&& #[trigger] call_ensures(R::sin, (angle,), sine)
            &&& if squared {
                call_ensures(R::powi, (sine, 2i32), weight)
            } else {
                weight == sine
            }
        }
}

/// `weights` are the weights of a window over two blocks, as `R` computes
/// them.
pub open spec fn are_sine_weights<T: Sample + Div<Output = T>, R: Reals<T>>(
    weights: Seq<T>,
    block_size: usize,
    squared: bool,
) -> bool {
    &&& weights.len() == 2 * block_size
    &&& forall|i: int|
        0 <= i < weights.len() ==> is_sine_weight::<T, R>(
            i as usize,
            block_size,
            squared,
            #[trigger] weights[i],
        )
}

/// The weights for two blocks, each computed from its place `i` and
/// `block_size`: the sine of `pi * i / (2 * block_size)`, squared if
/// `squared` is set. The squared weights of the two halves add up to one
/// where the sample type computes exactly.
pub(crate) fn sine_weights<T: Sample + Div<Output = T>, R: Reals<T>>(
    block_size: usize,
    squared: bool,
) -> (weights: Vec<T>)
    requires
        2 * block_size <= usize::MAX,
        arithmetic_is_total::<T>(),
        division_is_total::<T>(),
    ensures
        are_sine_weights::<T, R>(weights@, block_size, squared),
{
    let len: usize = block_size * 2;
    let mut weights: Vec<T> = Vec::new();
    let mut i: usize = 0;
    while i < len
        invariant
            arithmetic_is_total::<T>(),
            division_is_total::<T>(),
            i <= len,
            len == 2 * block_size,
            weights@.len() == i,
            forall|j: int|
                0 <= j < i ==> is_sine_weight::<T, R>(
                    j as usize,
                    block_size,
                    squared,
                    #[trigger] weights@[j],
                ),
        decreases len - i,
    {
        let pi: T = R::pi();
        let place: T = R::from_index(i);
        let period: T = R::from_index(len);
        let angle: T = pi * place / period;
        let sine: T = R::sin(angle);
        let weight: T = if squared {
            R::powi(sine, 2)
        } else {
            sine
        };
        proof {
            assert(call_ensures(R::pi, (), pi));
            assert(call_ensures(R::from_index, (i,), place));
            assert(call_ensures(R::from_index, ((2 * block_size) as usize,), period));
            assert(call_ensures(R::sin, (angle,), sine));
            assert(is_sine_weight::<T, R>(i, block_size, squared, weight));
        }
        let ghost earlier = weights@;
        weights.push(weight);
        assert forall|j: int| 0 <= j < i + 1 implies is_sine_weight::<T, R>(
            j as usize,
            block_size,
            squared,
            #[trigger] weights@[j],
        ) by {
            if j < i {
                assert(weights@[j] == earlier[j]);
            }
        }
        i += 1;
    }
    weights
}

/// Multiplies each sample of `block` by the weight at its place.
pub fn apply_weights<T: Sample>(weights: &[T], block: &mut [T])
    requires
        old(block)@.len() <= weights@.len(),
        arithmetic_is_total::<T>(),
    ensures
        final(block)@.len() == old(block)@.len(),
        T::obeys_mul_spec() ==> final(block)@ == weighted(old(block)@, weights@),
{
    let len: usize = block.len();
    let mut i: usize = 0;
    while i < len
        invariant
            arithmetic_is_total::<T>(),
            i <= len,
            len == block@.len(),
            len == old(block)@.len(),
            len <= weights@.len(),
            forall|j: int| i <= j < len ==> block@[j] == old(block)@[j],
            T::obeys_mul_spec() ==> forall|j: int|
                0 <= j < i ==> block@[j] == old(block)@[j].mul_spec(weights@[j]),
        decreases len - i,
    {
        block[i] = block[i] * weights[i];
        i += 1;
    }
    proof {
        if T::obeys_mul_spec() {
            assert(block@ =~= weighted(old(block)@, weights@));
        }
    }
}

/// The window of squared sines.
pub struct HannWindow<T, R> {
    window: Vec<T>,
    reals: PhantomData<R>,
}

impl<T: Sample, R> HannWindow<T, R> {
    /// The weights of the window.
    pub closed spec fn weights(&self) -> Seq<T> {
        self.window@
    }
}

impl<T: Sample + Div<Output = T>, R: Reals<T>> SignalWindow<T> for HannWindow<T, R> {
    open spec fn ready(block_size: usize) -> bool {
        &&& 2 * block_size <= usize::MAX
        &&& arithmetic_is_total::<T>()
        &&& division_is_total::<T>()
    }

    open spec fn covers(&self, len: nat) -> bool {
        len <= self.weights().len()
    }

    open spec fn applies(&self, block: Seq<T>, windowed: Seq<T>) -> bool {
        &&& windowed.len() == block.len()
        &&& T::obeys_mul_spec() ==> windowed == weighted(block, self.weights())
    }

    /// The window for blocks of `block_size` samples: the weight at place
    /// `i` is the squared sine of `pi * i / (2 * block_size)`.
    fn new(block_size: usize) -> (window: Self)
        ensures
            are_sine_weights::<T, R>(window.weights(), block_size, true),
    {
        Self { window: sine_weights::<T, R>(block_size, true), reals: PhantomData }
    }

    fn apply(&self, block: &mut [T]) {
        apply_weights(self.window.as_slice(), block);
    }
}

/// The window of sines.
pub struct SineWindow<T, R> {
    window: Vec<T>,
    reals: PhantomData<R>,
}

impl<T: Sample, R> SineWindow<T, R> {
    /// The weights of the window.
    pub closed spec fn weights(&self) -> Seq<T> {
        self.window@
    }
}

impl<T: Sample + Div<Output = T>, R: Reals<T>> SignalWindow<T> for SineWindow<T, R> {
    open spec fn ready(block_size: usize) -> bool {
        &&& 2 * block_size <= usize::MAX
        &&& arithmetic_is_total::<T>()
        &&& division_is_total::<T>()
    }

    open spec fn covers(&self, len: nat) -> bool {
        len <= self.weights().len()
    }

    open spec fn applies(&self, block: Seq<T>, windowed: Seq<T>) -> bool {
        &&& windowed.len() == block.len()
        &&& T::obeys_mul_spec() ==> windowed == weighted(block, self.weights())
    }

    /// The window for blocks of `block_size` samples: the weight at place
    /// `i` is the sine of `pi * i / (2 * block_size)`.
    fn new(block_size: usize) -> (window: Self)
        ensures
            are_sine_weights::<T, R>(window.weights(), block_size, false),
    {
        Self { window: sine_weights::<T, R>(block_size, false), reals: PhantomData }
    }

    fn apply(&self, block: &mut [T]) {
        apply_weights(self.window.as_slice(), block);
    }
}

} // verus!
