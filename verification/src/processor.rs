//! The processor of one channel, as the segmenter sees it: it takes a block,
//! writes a block, and says how that went.

use crate::status::ProcessStatus;
use std::sync::Arc;
use vstd::prelude::*;

verus! {

/// Blocks of parameter values for a processor, refreshed before each block.
pub trait ParamsBlock: Sized {
    /// The parameters that the blocks are filled from.
    type Params;

    /// Allocates the blocks for the given block size.
    fn new(params: Arc<Self::Params>, block_size: usize) -> Self;

    /// The refreshes that these blocks can go through: from `self` to
    /// `next`. Blocks that say nothing about themselves can become anything.
    open spec fn refresh(&self, next: &Self) -> bool {
        true
    }

    /// Fills the blocks with the values for the next block of samples.
    fn from_params(&mut self)
        ensures
            old(self).refresh(final(self)),
    ;
}

/// The parameter block that was at hand before the one for block `k` of
/// channel `c` was made, where `handed[c][k]` is the one for block `k` of
/// channel `c` and `first` was at hand before all: that of the channel
/// before, or that of the last channel for the block before.
pub open spec fn handed_before<B>(first: B, handed: Seq<Seq<B>>, c: int, k: int) -> B {
    if c > 0 {
        handed[c - 1][k]
    } else if k > 0 {
        handed[handed.len() - 1][k - 1]
    } else {
        first
    }
}

/// Each of the parameter blocks handed to the processors is a refresh of
/// the one that was at hand before it: the blocks go block by block, and
/// within a block channel by channel.
pub open spec fn refreshed_in_turn<B: ParamsBlock>(first: B, handed: Seq<Seq<B>>) -> bool {
    forall|c: int, k: int|
        0 <= c < handed.len() && 0 <= k < handed[c].len() ==> handed_before(
            first,
            handed,
            c,
            k,
        ).refresh(&#[trigger] handed[c][k])
}

/// A processor for one channel. It is only ever given blocks of the size it
/// was made for.
pub trait SingleChannelProcessor<T>: Sized {
    /// The parameter values that a block is processed with.
    type ParamsBlock: ParamsBlock;

    /// The steps that this processor can take: from `self`, given `block` and
    /// `params`, to `next`, writing `output` and reporting `status`. A
    /// processor that says nothing about itself allows every step.
    open spec fn step(
        &self,
        block: Seq<T>,
        params: &Self::ParamsBlock,
        next: &Self,
        output: Seq<T>,
        status: ProcessStatus,
    ) -> bool {
        true
    }

    /// Makes a processor for blocks of `block_size` samples.
    fn new(block_size: usize) -> Self;

    /// Processes `block` into `output`, a slice of the same length.
    fn process(&mut self, block: &[T], output: &mut [T], params_block: &Self::ParamsBlock) -> (status:
        ProcessStatus)
        requires
            block@.len() == old(output)@.len(),
        ensures
            final(output)@.len() == old(output)@.len(),
            old(self).step(block@, params_block, final(self), final(output)@, status),
    ;
}

/// One more parameter block is handed on in turn: where channel `c` is the
/// next to be handed one, and `used` is a refresh of the one at hand, the
/// blocks with `used` added for channel `c` are refreshed in turn.
pub proof fn lemma_refreshed_next<B: ParamsBlock>(first: B, handed: Seq<Seq<B>>, c: int, used: B)
    requires
        refreshed_in_turn(first, handed),
        0 <= c < handed.len(),
        forall|j: int| 0 <= j < c ==> (#[trigger] handed[j]).len() == handed[c].len() + 1,
        forall|j: int| c <= j < handed.len() ==> (#[trigger] handed[j]).len() == handed[c].len(),
        handed_before(first, handed, c, handed[c].len() as int).refresh(&used),
    ensures
        refreshed_in_turn(first, handed.update(c, handed[c].push(used))),
{
    let next = handed.update(c, handed[c].push(used));
    let round = handed[c].len() as int;
    assert forall|j: int, k: int| 0 <= j < next.len() && 0 <= k < next[j].len() implies handed_before(
        first,
        next,
        j,
        k,
    ).refresh(&#[trigger] next[j][k]) by {
        if j == c && k == round {
            assert(next[j][k] == used);
            if c > 0 {
                assert(next[c - 1] == handed[c - 1]);
            } else if k > 0 {
                assert(handed[handed.len() - 1].len() == round);
                assert(next[next.len() - 1][k - 1] == handed[handed.len() - 1][k - 1]);
            }
            assert(handed_before(first, next, j, k) == handed_before(first, handed, c, round));
        } else {
            assert(next[j][k] == handed[j][k]);
            assert(0 <= k < handed[j].len());
            if j > 0 {
                assert(handed[j - 1].len() >= handed[j].len());
                assert(next[j - 1][k] == handed[j - 1][k]);
            } else if k > 0 {
                assert(handed[handed.len() - 1].len() + 1 >= handed[0].len());
                assert(next[next.len() - 1][k - 1] == handed[handed.len() - 1][k - 1]);
            }
            assert(handed_before(first, next, j, k) == handed_before(first, handed, j, k));
            assert(handed_before(first, handed, j, k).refresh(&handed[j][k]));
        }
    }
}

/// The processor can go from `start` to `end` by taking `input` block after
/// block and writing `output`, without reporting an error, where it is
/// handed the parameter blocks `params`, one with each block.
pub open spec fn admits<T, P: SingleChannelProcessor<T>>(
    start: P,
    input: Seq<T>,
    output: Seq<T>,
    block_size: nat,
    end: P,
    params: Seq<P::ParamsBlock>,
) -> bool
    decreases input.len(),
{
    if input.len() == 0 {
        output.len() == 0 && params.len() == 0 && end == start
    } else if block_size == 0 || input.len() < block_size {
        false
    } else {
        &&& output.len() == input.len()
        &&& params.len() > 0
        &&& exists|mid: P, status: ProcessStatus|
            {
                &&& admits(
                    start,
                    input.take(input.len() - block_size),
                    output.take(input.len() - block_size),
                    block_size,
                    mid,
                    params.drop_last(),
                )
                &&& !(status is Error)
                &&& #[trigger] mid.step(
                    input.skip(input.len() - block_size),
                    &params.last(),
                    &end,
                    output.skip(input.len() - block_size),
                    status,
                )
            }
    }
}

/// What the processor writes is as long as what it takes.
pub proof fn lemma_admits_same_length<T, P: SingleChannelProcessor<T>>(
    start: P,
    input: Seq<T>,
    output: Seq<T>,
    block_size: nat,
    end: P,
    params: Seq<P::ParamsBlock>,
)
    requires
        admits(start, input, output, block_size, end, params),
    ensures
        output.len() == input.len(),
{
}

/// Runs of the processor follow one another: what it can do on one input and
/// then, from where that left it, on a second, it can do on the two joined.
/// Each run is what goes in, what comes out, and the parameter blocks.
pub proof fn lemma_admits_in_a_row<T, P: SingleChannelProcessor<T>>(
    start: P,
    first: (Seq<T>, Seq<T>, Seq<P::ParamsBlock>),
    mid: P,
    second: (Seq<T>, Seq<T>, Seq<P::ParamsBlock>),
    end: P,
    block_size: nat,
)
    requires
        admits(start, first.0, first.1, block_size, mid, first.2),
        admits(mid, second.0, second.1, block_size, end, second.2),
    ensures
        admits(start, first.0 + second.0, first.1 + second.1, block_size, end, first.2 + second.2),
    decreases second.0.len(),
{
    lemma_admits_same_length(start, first.0, first.1, block_size, mid, first.2);
    let input = first.0 + second.0;
    let output = first.1 + second.1;
    let params = first.2 + second.2;
    if second.0.len() == 0 {
        assert(input =~= first.0);
        assert(output =~= first.1);
        assert(params =~= first.2);
    } else {
        let rest = second.0.len() - block_size;
        let (before, status) = choose|before: P, status: ProcessStatus|
            {
                &&& admits(
                    mid,
                    second.0.take(rest),
                    second.1.take(rest),
                    block_size,
                    before,
                    second.2.drop_last(),
                )
                &&& !(status is Error)
                &&& #[trigger] before.step(
                    second.0.skip(rest),
                    &second.2.last(),
                    &end,
                    second.1.skip(rest),
                    status,
                )
            };
        lemma_admits_in_a_row(
            start,
            first,
            mid,
            (second.0.take(rest), second.1.take(rest), second.2.drop_last()),
            before,
            block_size,
        );
        assert(input.take(input.len() - block_size) =~= first.0 + second.0.take(rest));
        assert(output.take(input.len() - block_size) =~= first.1 + second.1.take(rest));
        assert(input.skip(input.len() - block_size) =~= second.0.skip(rest));
        assert(output.skip(input.len() - block_size) =~= second.1.skip(rest));
        assert(params.drop_last() =~= first.2 + second.2.drop_last());
        assert(params.last() == second.2.last());
        assert(before.step(
            input.skip(input.len() - block_size),
            &params.last(),
            &end,
            output.skip(input.len() - block_size),
            status,
        ));
    }
}

} // verus!
