//! Filters: a state-variable filter that takes one sample at a time, and a
//! one-pole low pass that takes a block.

use crate::sample::{
    arithmetic_is_total, division_is_total, negation_is_total, Reals, Sample,
};
use core::marker::PhantomData;
use core::ops::{Div, Neg};
use vstd::prelude::*;
use vstd::std_specs::cmp::PartialEqSpec;
use vstd::std_specs::ops::{AddSpec, DivSpec, MulSpec, NegSpec, SubSpec};

verus! {

/// The responses a filter can be asked for.
pub enum FilterType {
    LowPass,
    HighPass,
    BandPass,
    Notch,
    LowShelf,
    HighShelf,
}

/// A filter that takes one sample at a time.
pub trait Filter<T>: Sized {
    /// Whether the sample type lets the filter run. A filter that says
    /// nothing about itself runs with every sample type.
    open spec fn ready() -> bool {
        true
    }

    /// Makes the filter for a sample rate and a response.
    fn new(sample_rate: T, f_type: FilterType) -> Self
        requires
            Self::ready(),
    ;

    /// Changes the response, and says whether the filter has it.
    fn set_type(&mut self, f_type: FilterType) -> bool;

    /// Takes a sample and gives the filtered sample.
    fn process(&mut self, sample: T, cutoff_frequency: T, q: T) -> T
        requires
            Self::ready(),
    ;

    /// Computes anew what depends on the cutoff frequency.
    fn init(&mut self)
        requires
            Self::ready(),
    ;
}

/// Whether the state-variable filter has a response of its own for the type.
pub open spec fn is_state_variable(f_type: FilterType) -> bool {
    f_type is LowPass || f_type is HighPass || f_type is BandPass || f_type is Notch
}

/// `value` is the frequency coefficient for a cutoff frequency and a sample
/// rate, as `R` computes it: the number two times the sine of pi times the
/// cutoff frequency over the sample rate.
pub open spec fn is_coefficient<T: Sample + Div<Output = T>, R: Reals<T>>(
    cutoff_frequency: T,
    sample_rate: T,
    value: T,
) -> bool {
    exists|two: T, pi: T, angle: T, sine: T|
        {
            &&& #[trigger] call_ensures(R::from_index, (2usize,), two)
            &&& #[trigger] call_ensures(R::pi, (), pi)
            &&& T::obeys_mul_spec() && T::obeys_div_spec() ==> angle == pi.mul_spec(
                cutoff_frequency,
            ).div_spec(sample_rate)
            &&& #[trigger] call_ensures(R::sin, (angle,), sine)
            &&& T::obeys_mul_spec() ==> value == two.mul_spec(sine)
        }
}

/// `value` is the number `index` as `R` gives it.
pub open spec fn is_number<T, R: Reals<T>>(index: usize, value: T) -> bool {
    call_ensures(R::from_index, (index,), value)
}

/// The state-variable filter after Chamberlin, with the responses `LowPass`,
/// `HighPass`, `BandPass` and `Notch`. Asked for another response, it hands
/// each sample back as it is.
pub struct ChamberlinApprox<T, R> {
    fs: T,
    freq: T,
    f: T,
    q: T,
    low: T,
    high: T,
    band: T,
    notch: T,
    f_type: FilterType,
    reals: PhantomData<R>,
}

impl<T, R> ChamberlinApprox<T, R> {
    /// The response that the filter is asked for.
    pub closed spec fn kind(&self) -> FilterType {
        self.f_type
    }

    /// The sample rate.
    pub closed spec fn sample_rate(&self) -> T {
        self.fs
    }

    /// The cutoff frequency that the filter was last run with.
    pub closed spec fn cutoff(&self) -> T {
        self.freq
    }

    /// The resonance that the filter was last run with.
    pub closed spec fn resonance(&self) -> T {
        self.q
    }

    /// The frequency coefficient: how far a step moves the low-pass and the
    /// band-pass state.
    pub closed spec fn coefficient(&self) -> T {
        self.f
    }

    /// The low-pass state.
    pub closed spec fn low(&self) -> T {
        self.low
    }

    /// The high-pass state.
    pub closed spec fn high(&self) -> T {
        self.high
    }

    /// The band-pass state.
    pub closed spec fn band(&self) -> T {
        self.band
    }

    /// The notch state.
    pub closed spec fn notch(&self) -> T {
        self.notch
    }

    /// The state that the filter hands out for its response, or `sample`
    /// where it has none.
    pub open spec fn selected(&self, sample: T) -> T {
        match self.kind() {
            FilterType::LowPass => self.low(),
            FilterType::HighPass => self.high(),
            FilterType::BandPass => self.band(),
            FilterType::Notch => self.notch(),
            _ => sample,
        }
    }
}

impl<T: Sample + Div<Output = T> + Neg<Output = T>, R: Reals<T>> ChamberlinApprox<T, R> {
    /// The states move on by one sample, each in one step of `R`'s
    /// multiplying and adding: the low-pass state by the coefficient times
    /// the band-pass state; the high-pass state is the sample times the
    /// resonance, less the low-pass state, less the resonance times the
    /// band-pass state; the band-pass state moves by the coefficient times
    /// the high-pass state. The coefficient is that of `after`.
    pub open spec fn stepped(&self, after: Self, sample: T, q: T) -> bool {
        let f = after.coefficient();
        &&& call_ensures(R::mul_add, (f, self.band(), self.low()), after.low())
        &&& exists|turned_band: T, turned_low: T, driven: T|
            {
                &&& T::obeys_neg_spec() ==> turned_band == self.band().neg_spec()
                &&& T::obeys_neg_spec() ==> turned_low == after.low().neg_spec()
                &&& #[trigger] call_ensures(R::mul_add, (sample, q, turned_low), driven)
                &&& #[trigger] call_ensures(R::mul_add, (q, turned_band, driven), after.high())
            }
        &&& call_ensures(R::mul_add, (f, after.high(), self.band()), after.band())
    }

    /// The filter is tuned to a cutoff frequency: either it keeps the cutoff
    /// frequency and the coefficient it had, or it takes the new cutoff
    /// frequency and the coefficient that goes with it.
    pub open spec fn retuned(&self, after: Self, cutoff_frequency: T) -> bool {
        ||| {
            &&& after.cutoff() == self.cutoff()
            &&& after.coefficient() == self.coefficient()
        }
        ||| {
            &&& after.cutoff() == cutoff_frequency
            &&& is_coefficient::<T, R>(cutoff_frequency, self.sample_rate(), after.coefficient())
        }
    }
}

impl<T: Sample + Div<Output = T> + Neg<Output = T> + PartialEq, R: Reals<T>> Filter<
    T,
> for ChamberlinApprox<T, R> {
    open spec fn ready() -> bool {
        &&& arithmetic_is_total::<T>()
        &&& division_is_total::<T>()
        &&& negation_is_total::<T>()
    }

    /// The filter at rest: the four states and the coefficient are the
    /// number nought, the resonance is the number one, and the cutoff
    /// frequency is the number one with its sign turned, which no run has.
    fn new(sample_rate: T, f_type: FilterType) -> (filter: Self)
        ensures
            filter.kind() == f_type,
            filter.sample_rate() == sample_rate,
            is_number::<T, R>(0, filter.coefficient()),
            is_number::<T, R>(1, filter.resonance()),
            is_number::<T, R>(0, filter.low()),
            is_number::<T, R>(0, filter.high()),
            is_number::<T, R>(0, filter.band()),
            is_number::<T, R>(0, filter.notch()),
            exists|one: T|
                {
                    &&& #[trigger] is_number::<T, R>(1, one)
                    &&& T::obeys_neg_spec() ==> filter.cutoff() == one.neg_spec()
                },
    {
        let one: T = R::from_index(1);
        assert(is_number::<T, R>(1, one));
        Self {
            fs: sample_rate,
            freq: one.neg(),
            f: R::from_index(0),
            q: R::from_index(1),
            low: R::from_index(0),
            high: R::from_index(0),
            band: R::from_index(0),
            notch: R::from_index(0),
            f_type,
            reals: PhantomData,
        }
    }

    fn set_type(&mut self, f_type: FilterType) -> (supported: bool)
        ensures
            supported <==> is_state_variable(f_type),
            final(self).kind() == f_type,
            final(self).sample_rate() == old(self).sample_rate(),
            final(self).cutoff() == old(self).cutoff(),
            final(self).resonance() == old(self).resonance(),
            final(self).low() == old(self).low(),
            final(self).high() == old(self).high(),
            final(self).band() == old(self).band(),
            final(self).notch() == old(self).notch(),
    {
        self.f_type = f_type;

        match self.f_type {
            FilterType::LowPass
            | FilterType::HighPass
            | FilterType::BandPass
            | FilterType::Notch => true,
            _ => false,
        }
    }

    /// Runs the filter on one sample. Where the cutoff frequency is not the
    /// one of the run before, the coefficient is computed anew. The states
    /// move on by the coefficient and the resonance, each in one step of
    /// `R`'s multiplying and adding, and the state that goes with the
    /// response is handed out.
    fn process(&mut self, sample: T, cutoff_frequency: T, q: T) -> (filtered: T)
        ensures
            final(self).kind() == old(self).kind(),
            final(self).sample_rate() == old(self).sample_rate(),
            final(self).resonance() == q,
            old(self).retuned(*final(self), cutoff_frequency),
            old(self).stepped(*final(self), sample, q),
            T::obeys_eq_spec() ==> final(self).cutoff() == (if cutoff_frequency.eq_spec(
                &old(self).cutoff(),
            ) {
                old(self).cutoff()
            } else {
                cutoff_frequency
            }),
            filtered == final(self).selected(sample),
            T::obeys_add_spec() ==> final(self).notch() == final(self).low().add_spec(
                final(self).high(),
            ),
    {
        if cutoff_frequency != self.freq {
            self.freq = cutoff_frequency;
            self.init();
        }
        self.q = q;

        self.low = R::mul_add(self.f, self.band, self.low);
        let turned_band: T = self.band.neg();
        let turned_low: T = self.low.neg();
        let driven: T = R::mul_add(sample, self.q, turned_low);
        self.high = R::mul_add(self.q, turned_band, driven);
        self.band = R::mul_add(self.f, self.high, self.band);
        self.notch = self.low + self.high;
        proof {
            assert(call_ensures(R::mul_add, (sample, q, turned_low), driven));
            assert(call_ensures(R::mul_add, (q, turned_band, driven), self.high()));
        }

        match self.f_type {
            FilterType::LowPass => self.low,
            FilterType::HighPass => self.high,
            FilterType::BandPass => self.band,
            FilterType::Notch => self.notch,
            _ => sample,
        }
    }

    /// Computes the frequency coefficient from the cutoff frequency and the
    /// sample rate: it becomes the number two times the sine of pi times the
    /// cutoff frequency over the sample rate, as `R` computes them. Nothing
    /// else of the filter changes.
    fn init(&mut self)
        ensures
            final(self).kind() == old(self).kind(),
            final(self).sample_rate() == old(self).sample_rate(),
            final(self).cutoff() == old(self).cutoff(),
            final(self).resonance() == old(self).resonance(),
            final(self).low() == old(self).low(),
            final(self).high() == old(self).high(),
            final(self).band() == old(self).band(),
            final(self).notch() == old(self).notch(),
            is_coefficient::<T, R>(
                old(self).cutoff(),
                old(self).sample_rate(),
                final(self).coefficient(),
            ),
    {
        let two: T = R::from_index(2);
        let pi: T = R::pi();
        let angle: T = pi * self.freq / self.fs;
        let sine: T = R::sin(angle);
        self.f = two * sine;
        proof {
            assert(call_ensures(R::from_index, (2usize,), two));
            assert(call_ensures(R::pi, (), pi));
            assert(call_ensures(R::sin, (angle,), sine));
        }
    }
}

/// The sample that the low pass has arrived at after `count` samples of
/// `block`: it starts at `last` and moves towards each sample by the share
/// `g / (g + one)`, where `g` is `alpha` times the cutoff frequency at the
/// sample's place.
pub open spec fn smoothed<T: Sample + Div<Output = T>>(
    last: T,
    alpha: T,
    one: T,
    block: Seq<T>,
    cutoff_frequency: Seq<T>,
    count: nat,
) -> T
    decreases count,
{
    if count == 0 {
        last
    } else {
        let at = count - 1;
        let before = smoothed(last, alpha, one, block, cutoff_frequency, at as nat);
        let g = alpha.mul_spec(cutoff_frequency[at]);
        before.add_spec(g.div_spec(g.add_spec(one)).mul_spec(block[at].sub_spec(before)))
    }
}

/// A one-pole low pass whose cutoff frequency can change with every sample.
pub struct LowPassFilter<T> {
    alpha: T,
    last: T,
    one: T,
}

impl<T: Sample + Div<Output = T>> LowPassFilter<T> {
    /// The angle that one sample stands for, per unit of frequency.
    pub closed spec fn alpha(&self) -> T {
        self.alpha
    }

    /// The sample that the filter has arrived at.
    pub closed spec fn last(&self) -> T {
        self.last
    }

    /// The number one.
    pub closed spec fn one(&self) -> T {
        self.one
    }

    /// The filter at rest for a sample rate: `alpha` is the number two times
    /// pi, over the sample rate; it starts at the number nought. The numbers
    /// are what `R` gives.
    pub fn new<R: Reals<T>>(_block_size: usize, sample_rate: T) -> (filter: Self)
        requires
            arithmetic_is_total::<T>(),
            division_is_total::<T>(),
        ensures
            is_number::<T, R>(0, filter.last()),
            is_number::<T, R>(1, filter.one()),
            exists|two: T, pi: T|
                {
                    &&& #[trigger] is_number::<T, R>(2, two)
                    &&& #[trigger] call_ensures(R::pi, (), pi)
                    &&& T::obeys_mul_spec() && T::obeys_div_spec() ==> filter.alpha()
                        == two.mul_spec(pi).div_spec(sample_rate)
                },
    {
        let two: T = R::from_index(2);
        let pi: T = R::pi();
        proof {
            assert(is_number::<T, R>(2, two));
            assert(call_ensures(R::pi, (), pi));
        }
        Self { alpha: two * pi / sample_rate, last: R::from_index(0), one: R::from_index(1) }
    }

    /// Filters `block` in place, with the cutoff frequency of each sample at
    /// the sample's place in `cutoff_frequency`.
    pub fn process(&mut self, block: &mut [T], cutoff_frequency: &[T])
        requires
            arithmetic_is_total::<T>(),
            division_is_total::<T>(),
            old(block)@.len() <= cutoff_frequency@.len(),
        ensures
            final(block)@.len() == old(block)@.len(),
            final(self).alpha() == old(self).alpha(),
            final(self).one() == old(self).one(),
            T::obeys_add_spec() && T::obeys_sub_spec() && T::obeys_mul_spec()
                && T::obeys_div_spec() ==> {
                &&& final(self).last() == smoothed(
                    old(self).last(),
                    old(self).alpha(),
                    old(self).one(),
                    old(block)@,
                    cutoff_frequency@,
                    old(block)@.len(),
                )
                &&& forall|i: int|
                    0 <= i < old(block)@.len() ==> #[trigger] final(block)@[i] == smoothed(
                        old(self).last(),
                        old(self).alpha(),
                        old(self).one(),
                        old(block)@,
                        cutoff_frequency@,
                        (i + 1) as nat,
                    )
            },
    {
        let len: usize = block.len();
        let ghost exact = T::obeys_add_spec() && T::obeys_sub_spec() && T::obeys_mul_spec()
            && T::obeys_div_spec();
        let mut i: usize = 0;
        while i < len
            invariant
                arithmetic_is_total::<T>(),
                division_is_total::<T>(),
                i <= len,
                len == block@.len(),
                len == old(block)@.len(),
                len <= cutoff_frequency@.len(),
                self.alpha == old(self).alpha,
                self.one == old(self).one,
                exact == (T::obeys_add_spec() && T::obeys_sub_spec() && T::obeys_mul_spec()
                    && T::obeys_div_spec()),
                forall|j: int| i <= j < len ==> block@[j] == old(block)@[j],
                exact ==> self.last == smoothed(
                    old(self).last,
                    self.alpha,
                    self.one,
                    old(block)@,
                    cutoff_frequency@,
                    i as nat,
                ),
                exact ==> forall|j: int|
                    0 <= j < i ==> #[trigger] block@[j] == smoothed(
                        old(self).last,
                        self.alpha,
                        self.one,
                        old(block)@,
                        cutoff_frequency@,
                        (j + 1) as nat,
                    ),
            decreases len - i,
        {
            block[i] = self.last + ((self.alpha * cutoff_frequency[i]) / (self.alpha
                * cutoff_frequency[i] + self.one)) * (block[i] - self.last);
            self.last = block[i];
            i += 1;
        }
    }
}

} // verus!
