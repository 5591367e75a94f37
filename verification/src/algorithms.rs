//! Overlap-add: a processor of windows two blocks long, run on a stream of
//! blocks that overlap by half.

use crate::sample::{arithmetic_is_total, constant, copy_samples, filled, is_default, Sample};
use crate::sample::Reals;
use crate::window::{complementary, complementary_twice, weighted, HannWindow, SignalWindow};
use core::ops::Div;
use vstd::prelude::*;
use vstd::std_specs::ops::{AddSpec, MulSpec};

verus! {

/// A processor of one block at a time, in place, which hands back a message.
pub trait Process<T>: Sized {
    /// What the processor hands back for a block.
    type Message;

    /// What the processor is given besides the block.
    type Data;

    /// The steps that this processor can take: from `self`, given `block` and
    /// `data`, to `next`, leaving `output` in the block's place and handing
    /// back `message`. A processor that says nothing about itself allows
    /// every step.
    open spec fn step(
        &self,
        block: Seq<T>,
        data: &Self::Data,
        next: &Self,
        output: Seq<T>,
        message: Self::Message,
    ) -> bool {
        true
    }

    /// Makes a processor for the given block size.
    fn new(block_size: usize) -> Self;

    /// Processes `block` in place.
    fn process(&mut self, block: &mut [T], data: &Self::Data) -> (message: Self::Message)
        ensures
            final(block)@.len() == old(block)@.len(),
            old(self).step(old(block)@, data, final(self), final(block)@, message),
    ;
}

/// The processor that leaves every block as it is.
pub struct Identity {}

impl<T> Process<T> for Identity {
    type Message = ();

    type Data = ();

    open spec fn step(&self, block: Seq<T>, data: &(), next: &Self, output: Seq<T>, message: ()) -> bool {
        output == block
    }

    fn new(_block_size: usize) -> Self {
        Identity {  }
    }

    fn process(&mut self, block: &mut [T], data: &()) -> (message: ()) {
    }
}

/// The sums of the first `block_size` samples of `window` and the samples
/// that were owed.
pub open spec fn overlapped<T: Sample>(window: Seq<T>, owed: Seq<T>) -> Seq<T> {
    Seq::new(owed.len(), |i: int| window[i].add_spec(owed[i]))
}

/// A window that is applied where `on` is set, and only there, can turn
/// `block` into `windowed`.
pub open spec fn passed<T: Sample, W: SignalWindow<T>>(
    window: W,
    on: bool,
    block: Seq<T>,
    windowed: Seq<T>,
) -> bool {
    if on {
        window.applies(block, windowed)
    } else {
        windowed == block
    }
}

/// Writes to each sample of `block` the sum of the samples of `window` and
/// of `owed` at its place.
pub fn add_samples<T: Sample>(window: &[T], owed: &[T], block: &mut [T])
    requires
        old(block)@.len() == owed@.len(),
        owed@.len() <= window@.len(),
        arithmetic_is_total::<T>(),
    ensures
        final(block)@.len() == old(block)@.len(),
        T::obeys_add_spec() ==> final(block)@ == overlapped(window@, owed@),
{
    let len: usize = block.len();
    let mut i: usize = 0;
    while i < len
        invariant
            arithmetic_is_total::<T>(),
            i <= len,
            len == block@.len(),
            len == owed@.len(),
            len <= window@.len(),
            T::obeys_add_spec() ==> forall|j: int|
                0 <= j < i ==> block@[j] == window@[j].add_spec(owed@[j]),
        decreases len - i,
    {
        block[i] = window[i] + owed[i];
        i += 1;
    }
    proof {
        if T::obeys_add_spec() {
            assert(block@ =~= overlapped(window@, owed@));
        }
    }
}

/// Runs a processor of windows two blocks long on a stream of blocks. Each
/// window is the block before and the block at hand; it is weighted before
/// the processor, after it, or both; its first half, added to the second
/// half of the window before, is what the block becomes.
pub struct WindowedProcess<T, P: Process<T>, W: SignalWindow<T>> where T: Sample {
    process: P,
    window: W,
    block_size: usize,
    input_buffer: Vec<T>,
    output_buffer: Vec<T>,
    temp_buffer_1: Vec<T>,
    pre_window: bool,
    post_window: bool,
}

impl<T: Sample, P: Process<T>, W: SignalWindow<T>> WindowedProcess<T, P, W> {
    /// The length of the blocks.
    pub closed spec fn block_size(&self) -> nat {
        self.block_size as nat
    }

    /// The processor of the windows.
    pub closed spec fn inner(&self) -> P {
        self.process
    }

    /// The weights that the windows are multiplied by.
    pub closed spec fn window(&self) -> W {
        self.window
    }

    /// Whether a window is weighted before it is processed.
    pub closed spec fn pre_window(&self) -> bool {
        self.pre_window
    }

    /// Whether a window is weighted after it has been processed.
    pub closed spec fn post_window(&self) -> bool {
        self.post_window
    }

    /// The block before the one at hand.
    pub closed spec fn previous(&self) -> Seq<T> {
        self.input_buffer@.take(self.block_size as int)
    }

    /// The second half of the window before, which the next block is owed.
    pub closed spec fn owed(&self) -> Seq<T> {
        self.output_buffer@
    }

    /// The buffers have the lengths that go with the block size, and the
    /// window covers two blocks.
    pub closed spec fn wf(&self) -> bool {
        &&& 2 * self.block_size <= usize::MAX
        &&& self.input_buffer@.len() == 2 * self.block_size
        &&& self.output_buffer@.len() == self.block_size
        &&& self.temp_buffer_1@.len() == 2 * self.block_size
        &&& self.window.covers((2 * self.block_size) as nat)
    }

    /// What follows from `wf` for the views.
    pub proof fn lemma_wf(&self)
        requires
            self.wf(),
        ensures
            self.previous().len() == self.block_size(),
            self.owed().len() == self.block_size(),
            self.window().covers(2 * self.block_size()),
    {
    }

    /// What one call does: from `self`, given `block` and `data`, to `after`,
    /// with `output` in the block's place and `message` handed back.
    ///
    /// The window is the block before and `block`. It enters the processor
    /// weighted or as it is, and leaves it to be weighted or left as it is.
    /// Its first half, added to what was owed, is the output; its second half
    /// is owed to the next block.
    pub open spec fn call(
        &self,
        after: Self,
        block: Seq<T>,
        data: &P::Data,
        output: Seq<T>,
        message: P::Message,
    ) -> bool {
        &&& after.block_size() == self.block_size()
        &&& after.window() == self.window()
        &&& after.pre_window() == self.pre_window()
        &&& after.post_window() == self.post_window()
        &&& after.previous() == block
        &&& output.len() == self.block_size()
        &&& exists|entering: Seq<T>, leaving: Seq<T>, summed: Seq<T>|
            {
                &&& passed(self.window(), self.pre_window(), self.previous() + block, entering)
                &&& #[trigger] self.inner().step(entering, data, &after.inner(), leaving, message)
                &&& #[trigger] passed(self.window(), self.post_window(), leaving, summed)
                &&& entering.len() == 2 * self.block_size()
                &&& leaving.len() == 2 * self.block_size()
                &&& summed.len() == 2 * self.block_size()
                &&& after.owed() == summed.skip(self.block_size() as int)
                &&& T::obeys_add_spec() ==> output == overlapped(summed, self.owed())
            }
    }

    /// Makes the wrapper for blocks of `block_size` samples, with a new
    /// processor and a new window, each made for `block_size`. The block
    /// before the first and what the first block is owed are `block_size`
    /// times the default sample.
    pub fn new(block_size: usize, pre_window: bool, post_window: bool) -> (wrapper: Self) where
        T: Default,

        requires
            2 * block_size <= usize::MAX,
            W::ready(block_size),
        ensures
            wrapper.wf(),
            wrapper.block_size() == block_size,
            wrapper.pre_window() == pre_window,
            wrapper.post_window() == post_window,
            call_ensures(P::new, (block_size,), wrapper.inner()),
            call_ensures(W::new, (block_size,), wrapper.window()),
            wrapper.previous().len() == block_size,
            wrapper.owed().len() == block_size,
            exists|silence: T|
                {
                    &&& #[trigger] is_default(silence)
                    &&& wrapper.previous() == constant(silence, block_size as nat)
                    &&& wrapper.owed() == constant(silence, block_size as nat)
                },
    {
        let silence: T = T::default();
        assert(is_default(silence));
        let wrapper = Self {
            process: P::new(block_size),
            window: W::new(block_size),
            block_size,
            input_buffer: filled(silence, block_size * 2),
            output_buffer: filled(silence, block_size),
            temp_buffer_1: filled(silence, block_size * 2),
            pre_window,
            post_window,
        };
        proof {
            assert(wrapper.previous() =~= constant(silence, block_size as nat));
            assert(wrapper.owed() =~= constant(silence, block_size as nat));
        }
        wrapper
    }

    /// Processes the next block of the stream in place and hands back what
    /// the processor of the windows handed back.
    pub fn process(&mut self, block: &mut [T], data: &P::Data) -> (message: P::Message)
        requires
            old(self).wf(),
            old(block)@.len() == old(self).block_size(),
            arithmetic_is_total::<T>(),
        ensures
            final(self).wf(),
            final(block)@.len() == old(block)@.len(),
            old(self).call(*final(self), old(block)@, data, final(block)@, message),
    {
        let block_size: usize = self.block_size;
        let ghost sliding = self.previous() + block@;
        copy_samples(block, 0, self.input_buffer.as_mut_slice(), block_size, block_size);
        copy_samples(
            self.input_buffer.as_slice(),
            0,
            self.temp_buffer_1.as_mut_slice(),
            0,
            block_size * 2,
        );
        assert(self.temp_buffer_1@ =~= sliding);
        copy_samples(block, 0, self.input_buffer.as_mut_slice(), 0, block_size);
        assert(self.input_buffer@.take(block_size as int) =~= block@);

        if self.pre_window {
            self.window.apply(self.temp_buffer_1.as_mut_slice());
        }
        let ghost entering = self.temp_buffer_1@;

        let msg = self.process.process(self.temp_buffer_1.as_mut_slice(), data);
        let ghost leaving = self.temp_buffer_1@;

        if self.post_window {
            self.window.apply(self.temp_buffer_1.as_mut_slice());
        }
        let ghost summed = self.temp_buffer_1@;

        add_samples(self.temp_buffer_1.as_slice(), self.output_buffer.as_slice(), block);
        copy_samples(
            self.temp_buffer_1.as_slice(),
            block_size,
            self.output_buffer.as_mut_slice(),
            0,
            block_size,
        );
        proof {
            assert(self.output_buffer@ =~= summed.skip(block_size as int));
            assert(passed(old(self).window(), old(self).pre_window(), sliding, entering));
            assert(old(self).inner().step(entering, data, &self.inner(), leaving, msg));
            assert(passed(old(self).window(), old(self).post_window(), leaving, summed));
        }
        msg
    }
}

/// The processor leaves every window as it is.
pub open spec fn is_identity<T, P: Process<T>>() -> bool {
    forall|inner: P, block: Seq<T>, data: P::Data, next: P, output: Seq<T>, message: P::Message|
        #[trigger] inner.step(block, &data, &next, output, message) ==> output == block
}

/// `Identity` leaves every window as it is.
pub proof fn lemma_identity_is_identity<T>()
    ensures
        is_identity::<T, Identity>(),
{
}

/// The weights are complementary for `value`: take a window whose second
/// half is `value` throughout, and a window that is `value` throughout.
/// However the window turns out when it is applied where the two flags say,
/// the second half of the first and the first half of the second add up to
/// `value` at every place.
pub open spec fn is_complementary<T: Sample, W: SignalWindow<T>>(
    window: W,
    pre_window: bool,
    post_window: bool,
    value: T,
    block_size: nat,
) -> bool {
    forall|earlier: Seq<T>, entered: Seq<T>, left: Seq<T>, entering: Seq<T>, summed: Seq<T>|
        {
            &&& earlier.len() == 2 * block_size
            &&& earlier.skip(block_size as int) == constant(value, block_size)
            &&& #[trigger] passed(window, pre_window, earlier, entered)
            &&& #[trigger] passed(window, post_window, entered, left)
            &&& #[trigger] passed(
                window,
                pre_window,
                constant(value, 2 * block_size),
                entering,
            )
            &&& #[trigger] passed(window, post_window, entering, summed)
            &&& left.len() == 2 * block_size
            &&& summed.len() == 2 * block_size
        } ==> overlapped(summed, left.skip(block_size as int)) == constant(value, block_size)
}

/// A window that multiplies by weights whose halves are complementary, and
/// that is applied either before the processor or after it, is
/// complementary for every value.
pub proof fn lemma_complementary_weights<T: Sample, W: SignalWindow<T>>(
    window: W,
    weights: Seq<T>,
    pre_window: bool,
    post_window: bool,
    value: T,
    block_size: nat,
)
    requires
        T::obeys_add_spec(),
        pre_window != post_window,
        complementary(weights, block_size),
        forall|block: Seq<T>, windowed: Seq<T>| #[trigger]
            window.applies(block, windowed) ==> windowed == weighted(block, weights),
    ensures
        is_complementary(window, pre_window, post_window, value, block_size),
{
    assert forall|earlier: Seq<T>, entered: Seq<T>, left: Seq<T>, entering: Seq<T>, summed: Seq<T>|
        {
            &&& earlier.len() == 2 * block_size
            &&& earlier.skip(block_size as int) == constant(value, block_size)
            &&& #[trigger] passed(window, pre_window, earlier, entered)
            &&& #[trigger] passed(window, post_window, entered, left)
            &&& #[trigger] passed(window, pre_window, constant(value, 2 * block_size), entering)
            &&& #[trigger] passed(window, post_window, entering, summed)
            &&& left.len() == 2 * block_size
            &&& summed.len() == 2 * block_size
        } implies overlapped(summed, left.skip(block_size as int)) == constant(value, block_size) by {
        let whole = constant(value, 2 * block_size);
        assert(left == weighted(earlier, weights));
        assert(summed == weighted(whole, weights));
        assert forall|i: int| 0 <= i < block_size implies overlapped(
            summed,
            left.skip(block_size as int),
        )[i] == value by {
            assert(earlier[block_size + i] == earlier.skip(block_size as int)[i]);
            assert(summed[i] == value.mul_spec(weights[i]));
            assert(left[block_size + i] == value.mul_spec(weights[block_size + i]));
        }
        assert(overlapped(summed, left.skip(block_size as int)) =~= constant(value, block_size));
    }
}

/// A window that multiplies by weights whose halves are complementary when
/// applied twice, and that is applied both before the processor and after
/// it, is complementary for every value.
pub proof fn lemma_complementary_weights_twice<T: Sample, W: SignalWindow<T>>(
    window: W,
    weights: Seq<T>,
    value: T,
    block_size: nat,
)
    requires
        T::obeys_add_spec(),
        complementary_twice(weights, block_size),
        forall|block: Seq<T>, windowed: Seq<T>| #[trigger]
            window.applies(block, windowed) ==> windowed == weighted(block, weights),
    ensures
        is_complementary(window, true, true, value, block_size),
{
    assert forall|earlier: Seq<T>, entered: Seq<T>, left: Seq<T>, entering: Seq<T>, summed: Seq<T>|
        {
            &&& earlier.len() == 2 * block_size
            &&& earlier.skip(block_size as int) == constant(value, block_size)
            &&& #[trigger] passed(window, true, earlier, entered)
            &&& #[trigger] passed(window, true, entered, left)
            &&& #[trigger] passed(window, true, constant(value, 2 * block_size), entering)
            &&& #[trigger] passed(window, true, entering, summed)
            &&& left.len() == 2 * block_size
            &&& summed.len() == 2 * block_size
        } implies overlapped(summed, left.skip(block_size as int)) == constant(value, block_size) by {
        let whole = constant(value, 2 * block_size);
        assert(entered == weighted(earlier, weights));
        assert(left == weighted(entered, weights));
        assert(entering == weighted(whole, weights));
        assert(summed == weighted(entering, weights));
        assert forall|i: int| 0 <= i < block_size implies overlapped(
            summed,
            left.skip(block_size as int),
        )[i] == value by {
            assert(earlier[block_size + i] == earlier.skip(block_size as int)[i]);
            assert(entering[i] == value.mul_spec(weights[i]));
            assert(summed[i] == value.mul_spec(weights[i]).mul_spec(weights[i]));
            assert(entered[block_size + i] == value.mul_spec(weights[block_size + i]));
            assert(left[block_size + i] == value.mul_spec(weights[block_size + i]).mul_spec(
                weights[block_size + i],
            ));
        }
        assert(overlapped(summed, left.skip(block_size as int)) =~= constant(value, block_size));
    }
}

/// The windows of the library multiply by their weights: where the weights
/// of the squared sines are complementary, that window, applied before the
/// processor or after it, is complementary for every value.
pub proof fn lemma_hann_window_is_complementary<T: Sample + Div<Output = T>, R: Reals<T>>(
    window: HannWindow<T, R>,
    pre_window: bool,
    post_window: bool,
    value: T,
    block_size: nat,
)
    requires
        T::obeys_add_spec(),
        T::obeys_mul_spec(),
        pre_window != post_window,
        complementary(window.weights(), block_size),
    ensures
        is_complementary(window, pre_window, post_window, value, block_size),
{
    lemma_complementary_weights(
        window,
        window.weights(),
        pre_window,
        post_window,
        value,
        block_size,
    );
}

/// Unity gain: where the processor leaves its windows as they are and the
/// weights are complementary for a value, a stream that holds this value
/// comes back as this value from the second block on.
pub proof fn lemma_unity_gain<T: Sample, P: Process<T>, W: SignalWindow<T>>(
    first: WindowedProcess<T, P, W>,
    second: WindowedProcess<T, P, W>,
    third: WindowedProcess<T, P, W>,
    value: T,
    data: (P::Data, P::Data),
    outputs: (Seq<T>, Seq<T>),
    messages: (P::Message, P::Message),
)
    requires
        T::obeys_add_spec(),
        is_identity::<T, P>(),
        first.previous().len() == first.block_size(),
        is_complementary(
            first.window(),
            first.pre_window(),
            first.post_window(),
            value,
            first.block_size(),
        ),
        first.call(
            second,
            constant(value, first.block_size()),
            &data.0,
            outputs.0,
            messages.0,
        ),
        second.call(
            third,
            constant(value, first.block_size()),
            &data.1,
            outputs.1,
            messages.1,
        ),
    ensures
        outputs.1 == constant(value, first.block_size()),
{
    let block_size = first.block_size();
    let block = constant(value, block_size);
    assert((first.previous() + block).skip(block_size as int) =~= block);
    assert(second.previous() + block =~= constant(value, 2 * block_size));
}

} // verus!
