//! One channel in the middle of a cycle: how far it has come, and what a
//! step of its processor, or an error, makes of it.

use crate::processor::{admits, SingleChannelProcessor};
use crate::status::ProcessStatus;
use crate::stream::{accepted, carried, completed, delivered, produced, remaining};
use vstd::arithmetic::div_mod::lemma_fundamental_div_mod_converse;
use vstd::prelude::*;

verus! {

/// The state of a channel in the middle of a cycle, after `taken` of the
/// samples it has accepted have gone through its processor: `carry` and
/// `segment` are what the channel's carry and its part of the buffer hold,
/// and `params` are the parameter blocks that the processor was handed, one
/// with each block.
pub open spec fn lane_progress<T, P: SingleChannelProcessor<T>>(
    carry0: Seq<T>,
    pending: nat,
    fed: Seq<T>,
    block_size: nat,
    start: P,
    taken: nat,
    processed: Seq<T>,
    carry: Seq<T>,
    segment: Seq<T>,
    current: P,
    params: Seq<P::ParamsBlock>,
) -> bool {
    let given = if taken == 0 {
        0
    } else {
        taken - pending
    };
    &&& taken == 0 || block_size <= taken
    &&& taken <= pending + fed.len()
    &&& processed.len() == taken
    &&& carry == (if taken == 0 {
        carry0
    } else {
        processed.skip(taken - block_size)
    })
    &&& segment == produced(carry0, pending, processed).take(given) + fed.skip(given)
    &&& admits(
        start,
        accepted(carry0, pending, fed).take(taken as int),
        processed,
        block_size,
        current,
        params,
    )
}

/// The state of a channel whose processor has reported the error `message`
/// on the block after the first `taken` accepted samples, having taken those
/// without error: the block was staged, so `segment` holds what was owed up
/// to the end of that block, and `carry` holds what the processor wrote
/// before it gave up. `params` are the parameter blocks that the processor
/// was handed, the last of them with the block it failed on.
pub open spec fn lane_failed<T, P: SingleChannelProcessor<T>>(
    carry0: Seq<T>,
    pending: nat,
    fed: Seq<T>,
    block_size: nat,
    start: P,
    taken: nat,
    processed: Seq<T>,
    carry: Seq<T>,
    segment: Seq<T>,
    end: P,
    message: &'static str,
    params: Seq<P::ParamsBlock>,
) -> bool {
    let all = accepted(carry0, pending, fed);
    let given = taken + block_size - pending;
    &&& taken + block_size <= pending + fed.len()
    &&& processed.len() == taken
    &&& params.len() > 0
    &&& segment == produced(carry0, pending, processed).take(given) + fed.skip(given)
    &&& exists|mid: P|
        {
            &&& admits(start, all.take(taken as int), processed, block_size, mid, params.drop_last())
            &&& #[trigger] mid.step(
                all.subrange(taken as int, (taken + block_size) as int),
                &params.last(),
                &end,
                carry,
                ProcessStatus::Error(message),
            )
        }
}

/// The block that is staged next is the next block of the accepted samples.
pub(crate) proof fn lemma_lane_staged<T, P: SingleChannelProcessor<T>>(
    carry0: Seq<T>,
    pending: nat,
    fed: Seq<T>,
    block_size: nat,
    start: P,
    taken: nat,
    processed: Seq<T>,
    carry: Seq<T>,
    segment: Seq<T>,
    current: P,
    handed: Seq<P::ParamsBlock>,
    block: Seq<T>,
)
    requires
        carry0.len() == block_size,
        pending < block_size,
        lane_progress(
            carry0,
            pending,
            fed,
            block_size,
            start,
            taken,
            processed,
            carry,
            segment,
            current,
            handed,
        ),
        taken + block_size <= pending + fed.len(),
        block == (if taken == 0 {
            carry.take(pending as int) + segment.subrange(0, block_size - pending)
        } else {
            carry.take(0) + segment.subrange(taken - pending, taken - pending + block_size)
        }),
    ensures
        block == accepted(carry0, pending, fed).subrange(taken as int, (taken + block_size) as int),
{
    assert(block =~= accepted(carry0, pending, fed).subrange(taken as int, (taken + block_size) as int));
}

/// A step of the processor on the staged block takes the channel one block
/// further.
pub(crate) proof fn lemma_lane_advance<T, P: SingleChannelProcessor<T>>(
    carry0: Seq<T>,
    pending: nat,
    fed: Seq<T>,
    block_size: nat,
    start: P,
    taken: nat,
    processed: Seq<T>,
    carry: Seq<T>,
    segment: Seq<T>,
    current: P,
    handed: Seq<P::ParamsBlock>,
    segment2: Seq<T>,
    used: P::ParamsBlock,
    next: P,
    out: Seq<T>,
    status: ProcessStatus,
)
    requires
        carry0.len() == block_size,
        pending < block_size,
        lane_progress(
            carry0,
            pending,
            fed,
            block_size,
            start,
            taken,
            processed,
            carry,
            segment,
            current,
            handed,
        ),
        taken + block_size <= pending + fed.len(),
        segment2 == (if taken == 0 {
            segment.take(0) + carry.skip(pending as int) + segment.skip(block_size - pending)
        } else {
            segment.take(taken - pending) + carry.skip(0) + segment.skip(
                taken - pending + block_size,
            )
        }),
        out.len() == block_size,
        !(status is Error),
        current.step(
            accepted(carry0, pending, fed).subrange(taken as int, (taken + block_size) as int),
            &used,
            &next,
            out,
            status,
        ),
    ensures
        lane_progress(
            carry0,
            pending,
            fed,
            block_size,
            start,
            taken + block_size,
            processed + out,
            out,
            segment2,
            next,
            handed.push(used),
        ),
{
    let all = accepted(carry0, pending, fed);
    let taken2 = taken + block_size;
    let processed2 = processed + out;
    let given2 = taken2 - pending;
    assert(out =~= processed2.skip(taken2 - block_size));
    assert(segment2 =~= produced(carry0, pending, processed2).take(given2) + fed.skip(given2));
    let input = all.take(taken2 as int);
    assert(input.take(input.len() - block_size) =~= all.take(taken as int));
    assert(processed2.take(input.len() - block_size) =~= processed);
    assert(input.skip(input.len() - block_size) =~= all.subrange(taken as int, (taken + block_size) as int));
    assert(processed2.skip(input.len() - block_size) =~= out);
    assert(handed.push(used).drop_last() =~= handed);
    assert(handed.push(used).last() == used);
    assert(current.step(
        input.skip(input.len() - block_size),
        &used,
        &next,
        processed2.skip(input.len() - block_size),
        status,
    ));
}

/// An error of the processor on the staged block leaves the channel failed.
pub(crate) proof fn lemma_lane_refused<T, P: SingleChannelProcessor<T>>(
    carry0: Seq<T>,
    pending: nat,
    fed: Seq<T>,
    block_size: nat,
    start: P,
    taken: nat,
    processed: Seq<T>,
    carry: Seq<T>,
    segment: Seq<T>,
    current: P,
    handed: Seq<P::ParamsBlock>,
    segment2: Seq<T>,
    used: P::ParamsBlock,
    next: P,
    out: Seq<T>,
    message: &'static str,
)
    requires
        lane_progress(
            carry0,
            pending,
            fed,
            block_size,
            start,
            taken,
            processed,
            carry,
            segment,
            current,
            handed,
        ),
        taken + block_size <= pending + fed.len(),
        carry0.len() == block_size,
        pending < block_size,
        segment2 == (if taken == 0 {
            segment.take(0) + carry.skip(pending as int) + segment.skip(block_size - pending)
        } else {
            segment.take(taken - pending) + carry.skip(0) + segment.skip(
                taken - pending + block_size,
            )
        }),
        current.step(
            accepted(carry0, pending, fed).subrange(taken as int, (taken + block_size) as int),
            &used,
            &next,
            out,
            ProcessStatus::Error(message),
        ),
    ensures
        lane_failed(
            carry0,
            pending,
            fed,
            block_size,
            start,
            taken,
            processed,
            out,
            segment2,
            next,
            message,
            handed.push(used),
        ),
{
    let all = accepted(carry0, pending, fed);
    let given = taken + block_size - pending;
    assert(segment2 =~= produced(carry0, pending, processed).take(given) + fed.skip(given));
    assert(handed.push(used).drop_last() =~= handed);
    assert(handed.push(used).last() == used);
    assert(admits(start, all.take(taken as int), processed, block_size, current, handed));
    assert(current.step(
        all.subrange(taken as int, (taken + block_size) as int),
        &used,
        &next,
        out,
        ProcessStatus::Error(message),
    ));
}

/// Once no block is left to complete, exchanging what is left of the segment
/// with the carry gives the channel what the stream model says.
pub(crate) proof fn lemma_lane_finish<T, P: SingleChannelProcessor<T>>(
    carry0: Seq<T>,
    pending: nat,
    fed: Seq<T>,
    block_size: nat,
    start: P,
    taken: nat,
    processed: Seq<T>,
    carry: Seq<T>,
    segment: Seq<T>,
    current: P,
    handed: Seq<P::ParamsBlock>,
    carry2: Seq<T>,
    segment2: Seq<T>,
)
    requires
        carry0.len() == block_size,
        pending < block_size,
        lane_progress(
            carry0,
            pending,
            fed,
            block_size,
            start,
            taken,
            processed,
            carry,
            segment,
            current,
            handed,
        ),
        pending + fed.len() < taken + block_size,
        taken == completed(pending, fed.len(), block_size) * block_size,
        carry2 == (if taken == 0 {
            carry.take(pending as int) + segment.subrange(0, fed.len() as int) + carry.skip(
                (pending + fed.len()) as int,
            )
        } else {
            carry.take(0) + segment.subrange(taken - pending, fed.len() as int) + carry.skip(
                fed.len() - (taken - pending),
            )
        }),
        segment2 == (if taken == 0 {
            segment.take(0) + carry.subrange(pending as int, (pending + fed.len()) as int) + segment.skip(
                fed.len() as int,
            )
        } else {
            segment.take(taken - pending) + carry.subrange(0, fed.len() - (taken - pending))
                + segment.skip(fed.len() as int)
        }),
    ensures
        segment2 == delivered(carry0, pending, fed.len(), processed),
        carry2 == carried(carry0, pending, fed, processed, block_size),
        admits(
            start,
            crate::stream::handed(carry0, pending, fed, block_size),
            processed,
            block_size,
            current,
            handed,
        ),
{
    assert(segment2 =~= delivered(carry0, pending, fed.len(), processed));
    assert(carry2 =~= carried(carry0, pending, fed, processed, block_size));
}

/// Where `taken` is a whole number of blocks and less than a block is left,
/// it is the number of samples in the completed blocks.
pub(crate) proof fn lemma_taken_is_completed(pending: nat, samples: nat, block_size: nat, taken: nat, blocks: nat)
    requires
        block_size > 0,
        taken == blocks * block_size,
        taken <= pending + samples < taken + block_size,
    ensures
        completed(pending, samples, block_size) == blocks,
        completed(pending, samples, block_size) * block_size == taken,
        remaining(pending, samples, block_size) == pending + samples - taken,
{
    lemma_fundamental_div_mod_converse(
        (pending + samples) as int,
        block_size as int,
        blocks as int,
        (pending + samples - taken) as int,
    );
}

} // verus!
