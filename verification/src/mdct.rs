//! The lapped cosine transform: each block is transformed together with
//! the block before it, and the overlap is taken out again on the way back.

use crate::dct::{inverse, scaled, DCT};
use crate::sample::{
    arithmetic_is_exact, arithmetic_is_total, constant, copy_samples, division_is_total, filled,
    is_default, Reals, Sample,
};
use core::ops::Div;
use crate::window::{are_sine_weights, complementary, sine_weights, weighted};
use vstd::arithmetic::power2::is_pow2;
use vstd::prelude::*;
use vstd::std_specs::ops::{AddSpec, MulSpec};

verus! {

/// The lapped transform for blocks of one size. The forward transform takes
/// a block to twice as many samples; the inverse takes these back to a
/// block, one block late.
pub struct MDCT<T> {
    dct: DCT<T>,
    block_size: usize,
    dct_buffer: Vec<T>,
    idct_buffer: Vec<T>,
    window: Vec<T>,
    temp_buffer: Vec<T>,
}

impl<T: Sample> MDCT<T> {
    /// The length of the blocks.
    pub closed spec fn block_size(&self) -> nat {
        self.block_size as nat
    }

    /// The cosine transform of two blocks that the lapped transform uses.
    pub closed spec fn transform(&self) -> DCT<T> {
        self.dct
    }

    /// The block that the forward transform was given last.
    pub closed spec fn history(&self) -> Seq<T> {
        self.dct_buffer@.take(self.block_size as int)
    }

    /// The weighted second half of what the inverse transform produced last,
    /// which its next block is owed.
    pub closed spec fn owed(&self) -> Seq<T> {
        self.idct_buffer@
    }

    /// The weights that the inverse transform applies.
    pub closed spec fn weights(&self) -> Seq<T> {
        self.window@
    }

    /// The cosine transform is one of two blocks, and the buffers have the
    /// lengths that go with the block size.
    pub closed spec fn wf(&self) -> bool {
        &&& 2 * self.block_size <= usize::MAX
        &&& self.dct.wf()
        &&& self.dct.size() == 2 * self.block_size
        &&& self.dct_buffer@.len() == 2 * self.block_size
        &&& self.idct_buffer@.len() == self.block_size
        &&& self.window@.len() == 2 * self.block_size
        &&& self.temp_buffer@.len() == 2 * self.block_size
    }

    /// What follows from `wf` for the views.
    pub proof fn lemma_wf(&self)
        requires
            self.wf(),
        ensures
            self.transform().wf(),
            self.transform().size() == 2 * self.block_size(),
            self.history().len() == self.block_size(),
            self.owed().len() == self.block_size(),
            self.weights().len() == 2 * self.block_size(),
    {
    }

    /// What the forward transform does: from `self`, given `block`, to
    /// `after`, with `output` written. The block before and the first
    /// `block_size` samples of `block` are transformed as one, and these
    /// samples of `block` are the block before from now on.
    pub open spec fn transformed(&self, after: Self, block: Seq<T>, output: Seq<T>) -> bool {
        let fresh = block.take(self.block_size() as int);
        &&& after.block_size() == self.block_size()
        &&& after.transform() == self.transform()
        &&& after.weights() == self.weights()
        &&& after.owed() == self.owed()
        &&& after.history() == fresh
        &&& arithmetic_is_exact::<T>() ==> output == scaled(
            self.history() + fresh,
            self.transform().tables(),
            self.transform().half(),
            self.transform().multiplier(),
        )
    }

    /// What the inverse transform does: from `self`, given `lapped`, to
    /// `after`, with `back` in the place of `lapped` and `output` as the first
    /// `block_size` samples written. `back` is `lapped` transformed back.
    /// Each sample of the output is what `R` makes of a sample of the first
    /// half of `back`, times its weight, plus what was owed at its place, in
    /// one step. The weighted second half of `back` is owed from now on.
    pub open spec fn restored<R: Reals<T>>(
        &self,
        after: Self,
        lapped: Seq<T>,
        back: Seq<T>,
        output: Seq<T>,
    ) -> bool {
        &&& after.block_size() == self.block_size()
        &&& after.transform() == self.transform()
        &&& after.weights() == self.weights()
        &&& after.history() == self.history()
        &&& back.len() == lapped.len()
        &&& output.len() == self.block_size()
        &&& forall|i: int|
            0 <= i < self.block_size() ==> call_ensures(
                R::mul_add,
                (back[i], self.weights()[i], self.owed()[i]),
                #[trigger] output[i],
            )
        &&& arithmetic_is_exact::<T>() ==> back == inverse(lapped, self.transform().tables(), 0)
        &&& T::obeys_mul_spec() ==> after.owed() == weighted(back, self.weights()).skip(
            self.block_size() as int,
        )
    }

    /// `R` multiplies and adds in one step to what multiplying and then
    /// adding gives.
    pub open spec fn fused_is_exact<R: Reals<T>>() -> bool {
        forall|a: T, b: T, c: T, sum: T| #[trigger]
            call_ensures(R::mul_add, (a, b, c), sum) ==> sum == a.mul_spec(b).add_spec(c)
    }

    /// There and back is one block late: where the inverse cosine transform
    /// undoes the forward one, the weights are complementary and `R`
    /// multiplies and adds exactly, the block that comes out of the inverse
    /// transform is the block that went into the forward transform one call
    /// earlier.
    pub proof fn lemma_one_block_late<R: Reals<T>>(
        states: (Self, Self, Self, Self, Self),
        blocks: (Seq<T>, Seq<T>),
        lapped: (Seq<T>, Seq<T>),
        back: (Seq<T>, Seq<T>),
        outputs: (Seq<T>, Seq<T>),
    )
        requires
            arithmetic_is_exact::<T>(),
            Self::fused_is_exact::<R>(),
            states.0.transform().size() == 2 * states.0.block_size(),
            states.0.transform().round_trips(),
            states.0.weights().len() == 2 * states.0.block_size(),
            complementary(states.0.weights(), states.0.block_size()),
            states.0.history().len() == states.0.block_size(),
            states.0.owed().len() == states.0.block_size(),
            blocks.0.len() == states.0.block_size(),
            blocks.1.len() == states.0.block_size(),
            states.0.transformed(states.1, blocks.0, lapped.0),
            states.1.restored::<R>(states.2, lapped.0, back.0, outputs.0),
            states.2.transformed(states.3, blocks.1, lapped.1),
            states.3.restored::<R>(states.4, lapped.1, back.1, outputs.1),
        ensures
            outputs.1 == blocks.0,
    {
        let block_size = states.0.block_size();
        let weights = states.0.weights();
        let first = states.0.history() + blocks.0.take(block_size as int);
        let second = states.2.history() + blocks.1.take(block_size as int);
        assert(blocks.0.take(block_size as int) =~= blocks.0);
        assert(blocks.1.take(block_size as int) =~= blocks.1);
        assert(back.0 == first);
        assert(back.1 == second);
        assert(second =~= blocks.0 + blocks.1);
        let owed = weighted(first, weights).skip(block_size as int);
        assert(states.3.owed() == owed);
        assert forall|i: int| 0 <= i < block_size implies outputs.1[i] == blocks.0[i] by {
            assert(call_ensures(R::mul_add, (second[i], weights[i], owed[i]), outputs.1[i]));
            assert(second[i] == blocks.0[i]);
            assert(owed[i] == blocks.0[i].mul_spec(weights[block_size + i]));
        }
        assert(outputs.1 =~= blocks.0);
    }

    /// Makes the transform for blocks of `block_size` samples, a power of
    /// two. The history and what the first block is owed are `block_size`
    /// times the default sample; the cosine transform is the one of two
    /// blocks; the weight at place `i` is the squared sine of
    /// `pi * i / (2 * block_size)`, as `R` computes it.
    pub fn new<R: Reals<T>>(block_size: usize) -> (mdct: Self) where T: Div<Output = T> + Default
        requires
            is_pow2(block_size as int),
            2 * block_size <= usize::MAX,
            arithmetic_is_total::<T>(),
            division_is_total::<T>(),
        ensures
            mdct.wf(),
            mdct.block_size() == block_size,
            mdct.transform().built::<R>(),
            are_sine_weights::<T, R>(mdct.weights(), block_size, true),
            exists|silence: T|
                {
                    &&& #[trigger] is_default(silence)
                    &&& mdct.history() == constant(silence, block_size as nat)
                    &&& mdct.owed() == constant(silence, block_size as nat)
                },
    {
        proof {
            reveal(is_pow2);
        }
        let silence: T = T::default();
        assert(is_default(silence));
        let mdct = MDCT {
            dct: DCT::new::<R>(block_size * 2),
            block_size,
            dct_buffer: filled(silence, block_size * 2),
            idct_buffer: filled(silence, block_size),
            window: sine_weights::<T, R>(block_size, true),
            temp_buffer: filled(silence, block_size * 2),
        };
        proof {
            assert(mdct.history() =~= constant(silence, block_size as nat));
            assert(mdct.owed() =~= constant(silence, block_size as nat));
        }
        mdct
    }

    /// The forward transform: the block before and the first `block_size`
    /// samples of `block`, transformed as one, are written to
    /// `output_block`.
    pub fn mdct(&mut self, block: &[T], output_block: &mut [T])
        requires
            old(self).wf(),
            arithmetic_is_total::<T>(),
            block@.len() >= old(self).block_size(),
            old(output_block)@.len() == 2 * old(self).block_size(),
        ensures
            final(self).wf(),
            final(output_block)@.len() == old(output_block)@.len(),
            old(self).transformed(*final(self), block@, final(output_block)@),
    {
        let block_size: usize = self.block_size;
        copy_samples(block, 0, self.dct_buffer.as_mut_slice(), block_size, block_size);
        assert(self.dct_buffer@ =~= old(self).history() + block@.take(block_size as int));

        copy_samples(self.dct_buffer.as_slice(), 0, output_block, 0, block_size * 2);
        assert(output_block@ =~= self.dct_buffer@);

        self.dct.dct(output_block, self.temp_buffer.as_mut_slice());

        let (first, second) = self.dct_buffer.as_mut_slice().split_at_mut(block_size);
        copy_samples(second, 0, first, 0, block_size);
        assert(self.dct_buffer@.take(block_size as int) =~= block@.take(block_size as int));
    }

    /// The inverse transform: `dct_block` is transformed back in place. Each
    /// sample of its first half, times its weight, plus what was owed at its
    /// place, computed by `R` in one step, is written to the first
    /// `block_size` samples of `output_block`; its weighted second half is
    /// owed to the next block.
    pub fn imdct<R: Reals<T>>(&mut self, dct_block: &mut [T], output_block: &mut [T])
        requires
            old(self).wf(),
            arithmetic_is_total::<T>(),
            old(dct_block)@.len() == 2 * old(self).block_size(),
            old(output_block)@.len() >= old(self).block_size(),
        ensures
            final(self).wf(),
            final(dct_block)@.len() == old(dct_block)@.len(),
            final(output_block)@.len() == old(output_block)@.len(),
            final(output_block)@.skip(old(self).block_size() as int) == old(output_block)@.skip(
                old(self).block_size() as int,
            ),
            old(self).restored::<R>(
                *final(self),
                old(dct_block)@,
                final(dct_block)@,
                final(output_block)@.take(old(self).block_size() as int),
            ),
    {
        let block_size: usize = self.block_size;
        self.dct.idct(dct_block, self.temp_buffer.as_mut_slice());
        let ghost back = dct_block@;
        let ghost lapped = weighted(back, self.window@);
        let ghost owed = self.idct_buffer@;

        let mut i: usize = 0;
        while i < block_size
            invariant
                i <= block_size,
                block_size == self.block_size,
                self.wf(),
                self.dct == old(self).dct,
                self.window == old(self).window,
                self.dct_buffer == old(self).dct_buffer,
                self.idct_buffer@ == owed,
                dct_block@ == back,
                back.len() == 2 * block_size,
                output_block@.len() == old(output_block)@.len(),
                output_block@.len() >= block_size,
                forall|j: int|
                    block_size <= j < output_block@.len() ==> output_block@[j] == old(output_block)@[j],
                forall|j: int|
                    0 <= j < i ==> call_ensures(
                        R::mul_add,
                        (back[j], self.window@[j], owed[j]),
                        #[trigger] output_block@[j],
                    ),
            decreases block_size - i,
        {
            output_block[i] = R::mul_add(dct_block[i], self.window[i], self.idct_buffer[i]);
            i += 1;
        }
        let ghost written = output_block@.take(block_size as int);
        while i < block_size * 2
            invariant
                arithmetic_is_total::<T>(),
                block_size <= i <= block_size * 2,
                block_size == self.block_size,
                self.wf(),
                self.dct == old(self).dct,
                self.window == old(self).window,
                self.dct_buffer == old(self).dct_buffer,
                dct_block@ == back,
                back.len() == 2 * block_size,
                lapped == weighted(back, self.window@),
                T::obeys_mul_spec() ==> forall|j: int|
                    0 <= j < i - block_size ==> self.idct_buffer@[j] == lapped[block_size + j],
            decreases block_size * 2 - i,
        {
            self.idct_buffer[i - block_size] = dct_block[i] * self.window[i];
            i += 1;
        }
        proof {
            assert(output_block@.skip(block_size as int) =~= old(output_block)@.skip(
                block_size as int,
            ));
            assert forall|j: int| 0 <= j < block_size implies call_ensures(
                R::mul_add,
                (back[j], old(self).weights()[j], old(self).owed()[j]),
                #[trigger] written[j],
            ) by {
                assert(written[j] == output_block@[j]);
            }
            if T::obeys_mul_spec() {
                assert(self.idct_buffer@ =~= lapped.skip(block_size as int));
            }
        }
    }
}

} // verus!
