//! One channel of the segmenter, seen as two streams.
//!
//! A channel keeps `block_size` samples between calls, its carry. The first
//! `pending` of them are samples that were accepted and wait for their block
//! to fill up; the others are samples that the processor has produced and
//! that have not been given back yet. A call accepts a segment, hands every
//! block that becomes complete to the processor, and gives back as many
//! samples as it accepted, oldest first.

use vstd::arithmetic::div_mod::{lemma_fundamental_div_mod, lemma_fundamental_div_mod_converse};
use vstd::prelude::*;

verus! {

/// Every sample that is accepted and not yet handed on, oldest first.
pub open spec fn accepted<T>(carry: Seq<T>, pending: nat, segment: Seq<T>) -> Seq<T> {
    carry.take(pending as int) + segment
}

/// The number of blocks that become complete when `samples` samples arrive.
pub open spec fn completed(pending: nat, samples: nat, block_size: nat) -> nat {
    (pending + samples) / block_size
}

/// The number of samples left waiting after `samples` samples have arrived.
pub open spec fn remaining(pending: nat, samples: nat, block_size: nat) -> nat {
    (pending + samples) % block_size
}

/// The samples handed to the processor, block after block.
pub open spec fn handed<T>(carry: Seq<T>, pending: nat, segment: Seq<T>, block_size: nat) -> Seq<T> {
    accepted(carry, pending, segment).take(
        (completed(pending, segment.len(), block_size) * block_size) as int,
    )
}

/// Every sample that is produced and not yet given back, oldest first, where
/// `processed` is what the processor made of the blocks handed to it.
pub open spec fn produced<T>(carry: Seq<T>, pending: nat, processed: Seq<T>) -> Seq<T> {
    carry.skip(pending as int) + processed
}

/// The samples given back for a segment of `samples` samples.
pub open spec fn delivered<T>(
    carry: Seq<T>,
    pending: nat,
    samples: nat,
    processed: Seq<T>,
) -> Seq<T> {
    produced(carry, pending, processed).take(samples as int)
}

/// The carry after the call: what still waits, then what is still owed.
pub open spec fn carried<T>(
    carry: Seq<T>,
    pending: nat,
    segment: Seq<T>,
    processed: Seq<T>,
    block_size: nat,
) -> Seq<T> {
    accepted(carry, pending, segment).skip(
        (completed(pending, segment.len(), block_size) * block_size) as int,
    ) + produced(carry, pending, processed).skip(segment.len() as int)
}

/// Completes a block: `block` receives the waiting samples of `carry` and then
/// samples of `segment` from `start` on, and those samples of `segment` are
/// replaced by the samples that `carry` still owed.
pub fn stage_block<T: Copy>(
    carry: &[T],
    pending: usize,
    segment: &mut [T],
    start: usize,
    block: &mut [T],
)
    requires
        old(block)@.len() == carry@.len(),
        pending <= carry@.len(),
        start + (carry@.len() - pending) <= old(segment)@.len(),
    ensures
        final(block)@ == carry@.take(pending as int) + old(segment)@.subrange(
            start as int,
            start + carry@.len() - pending,
        ),
        final(segment)@ == old(segment)@.take(start as int) + carry@.skip(pending as int) + old(
            segment,
        )@.skip(start + carry@.len() - pending),
{
    let block_size: usize = carry.len();
    let samples: usize = segment.len();
    let mut i: usize = 0;
    while i < pending
        invariant
            i <= pending <= block_size,
            block_size == carry@.len(),
            block@.len() == block_size,
            forall|j: int| 0 <= j < i ==> block@[j] == carry@[j],
        decreases pending - i,
    {
        block[i] = carry[i];
        i += 1;
    }
    while i < block_size
        invariant
            pending <= i <= block_size,
            block_size == carry@.len(),
            block@.len() == block_size,
            segment@.len() == old(segment)@.len(),
            segment@.len() == samples,
            start + (block_size - pending) <= segment@.len(),
            forall|j: int| 0 <= j < pending ==> block@[j] == carry@[j],
            forall|j: int| pending <= j < i ==> block@[j] == old(segment)@[start + j - pending],
            forall|j: int| 0 <= j < start ==> segment@[j] == old(segment)@[j],
            forall|j: int| start <= j < start + i - pending ==> segment@[j] == carry@[j - start + pending],
            forall|j: int| start + i - pending <= j < segment@.len() ==> segment@[j] == old(segment)@[j],
        decreases block_size - i,
    {
        let at: usize = start + (i - pending);
        block[i] = segment[at];
        segment[at] = carry[i];
        i += 1;
    }
    assert(block@ =~= carry@.take(pending as int) + old(segment)@.subrange(
        start as int,
        start + carry@.len() - pending,
    ));
    assert(segment@ =~= old(segment)@.take(start as int) + carry@.skip(pending as int) + old(
        segment,
    )@.skip(start + carry@.len() - pending));
}

/// Exchanges `count` samples of `carry`, from `at` on, with as many of
/// `segment`, from `start` on.
pub fn swap_ranges<T: Copy>(
    carry: &mut [T],
    at: usize,
    segment: &mut [T],
    start: usize,
    count: usize,
)
    requires
        at + count <= old(carry)@.len(),
        start + count <= old(segment)@.len(),
    ensures
        final(carry)@ == old(carry)@.take(at as int) + old(segment)@.subrange(
            start as int,
            start + count,
        ) + old(carry)@.skip(at + count),
        final(segment)@ == old(segment)@.take(start as int) + old(carry)@.subrange(
            at as int,
            at + count,
        ) + old(segment)@.skip(start + count),
{
    let block_size: usize = carry.len();
    let samples: usize = segment.len();
    let mut i: usize = 0;
    while i < count
        invariant
            i <= count,
            carry@.len() == old(carry)@.len(),
            segment@.len() == old(segment)@.len(),
            carry@.len() == block_size,
            segment@.len() == samples,
            at + count <= carry@.len(),
            start + count <= segment@.len(),
            forall|j: int| 0 <= j < at ==> carry@[j] == old(carry)@[j],
            forall|j: int| at <= j < at + i ==> carry@[j] == old(segment)@[j - at + start],
            forall|j: int| at + i <= j < carry@.len() ==> carry@[j] == old(carry)@[j],
            forall|j: int| 0 <= j < start ==> segment@[j] == old(segment)@[j],
            forall|j: int| start <= j < start + i ==> segment@[j] == old(carry)@[j - start + at],
            forall|j: int| start + i <= j < segment@.len() ==> segment@[j] == old(segment)@[j],
        decreases count - i,
    {
        let t: T = segment[start + i];
        segment[start + i] = carry[at + i];
        carry[at + i] = t;
        i += 1;
    }
    assert(carry@ =~= old(carry)@.take(at as int) + old(segment)@.subrange(
        start as int,
        start + count,
    ) + old(carry)@.skip(at + count));
    assert(segment@ =~= old(segment)@.take(start as int) + old(carry)@.subrange(
        at as int,
        at + count,
    ) + old(segment)@.skip(start + count));
}

/// What a run of calls does, one call for each of `segments`: the samples
/// given back in all, the carry after the last call, and the number of
/// samples left waiting. `processed` is what the processor makes of all the
/// blocks that are handed to it during the run.
pub open spec fn replayed<T>(
    carry: Seq<T>,
    pending: nat,
    segments: Seq<Seq<T>>,
    processed: Seq<T>,
    block_size: nat,
) -> (Seq<T>, Seq<T>, nat)
    decreases segments.len(),
{
    if segments.len() == 0 {
        (Seq::empty(), carry, pending)
    } else {
        let first = segments.first();
        let used = (completed(pending, first.len(), block_size) * block_size) as int;
        let rest = replayed(
            carried(carry, pending, first, processed.take(used), block_size),
            remaining(pending, first.len(), block_size),
            segments.drop_first(),
            processed.skip(used),
            block_size,
        );
        (delivered(carry, pending, first.len(), processed.take(used)) + rest.0, rest.1, rest.2)
    }
}

/// The blocks completed by two segments in a row are those completed by the
/// two as one.
pub proof fn lemma_completed_in_two(pending: nat, first: nat, second: nat, block_size: nat)
    requires
        block_size > 0,
    ensures
        remaining(pending, first, block_size) < block_size,
        completed(pending, first, block_size) * block_size + remaining(pending, first, block_size)
            == pending + first,
        completed(pending, first + second, block_size) == completed(pending, first, block_size)
            + completed(remaining(pending, first, block_size), second, block_size),
        completed(pending, first + second, block_size) * block_size == completed(
            pending,
            first,
            block_size,
        ) * block_size + completed(remaining(pending, first, block_size), second, block_size)
            * block_size,
        remaining(pending, first + second, block_size) == remaining(
            remaining(pending, first, block_size),
            second,
            block_size,
        ),
{
    let b = block_size as int;
    let k1 = ((pending + first) as int) / b;
    let r1 = ((pending + first) as int) % b;
    let k2 = (r1 + second) / b;
    let r2 = (r1 + second) % b;
    lemma_fundamental_div_mod((pending + first) as int, b);
    lemma_fundamental_div_mod(r1 + second, b);
    assert(0 <= k1 && 0 <= k2) by (nonlinear_arith)
        requires
            b > 0,
            k1 == ((pending + first) as int) / b,
            k2 == (r1 + second) / b,
            0 <= r1,
    ;
    assert((k1 + k2) * b == k1 * b + k2 * b) by (nonlinear_arith);
    assert(b * k1 == k1 * b && b * k2 == k2 * b) by (nonlinear_arith);
    lemma_fundamental_div_mod_converse((pending + first + second) as int, b, k1 + k2, r2);
}

/// Two calls in a row hand on, give back and keep what one call on the two
/// segments joined does.
pub proof fn lemma_two_calls_are_one<T>(
    carry: Seq<T>,
    pending: nat,
    first: Seq<T>,
    second: Seq<T>,
    processed: Seq<T>,
    block_size: nat,
)
    requires
        block_size > 0,
        carry.len() == block_size,
        pending < block_size,
        processed.len() == completed(pending, first.len() + second.len(), block_size) * block_size,
    ensures
        ({
            let used = (completed(pending, first.len(), block_size) * block_size) as int;
            let between = carried(carry, pending, first, processed.take(used), block_size);
            let waiting = remaining(pending, first.len(), block_size);
            &&& 0 <= used <= processed.len()
            &&& between.len() == block_size
            &&& waiting < block_size
            &&& processed.skip(used).len() == completed(waiting, second.len(), block_size)
                * block_size
            &&& handed(carry, pending, first, block_size) + handed(
                between,
                waiting,
                second,
                block_size,
            ) == handed(carry, pending, first + second, block_size)
            &&& delivered(carry, pending, first.len(), processed.take(used)) + delivered(
                between,
                waiting,
                second.len(),
                processed.skip(used),
            ) == delivered(carry, pending, first.len() + second.len(), processed)
            &&& carried(between, waiting, second, processed.skip(used), block_size) == carried(
                carry,
                pending,
                first + second,
                processed,
                block_size,
            )
            &&& remaining(waiting, second.len(), block_size) == remaining(
                pending,
                first.len() + second.len(),
                block_size,
            )
        }),
{
    lemma_completed_in_two(pending, first.len(), second.len(), block_size);
    let used = (completed(pending, first.len(), block_size) * block_size) as int;
    let between = carried(carry, pending, first, processed.take(used), block_size);
    let waiting = remaining(pending, first.len(), block_size);
    let later = (completed(waiting, second.len(), block_size) * block_size) as int;
    lemma_fundamental_div_mod((waiting + second.len()) as int, block_size as int);
    assert(block_size * completed(waiting, second.len(), block_size) == later) by (nonlinear_arith)
        requires
            later == completed(waiting, second.len(), block_size) * block_size,
    ;
    assert(0 <= later) by (nonlinear_arith)
        requires
            later == completed(waiting, second.len(), block_size) * block_size,
    ;
    assert(0 <= used) by (nonlinear_arith)
        requires
            used == completed(pending, first.len(), block_size) * block_size,
    ;
    assert(between.len() == block_size);
    assert(handed(carry, pending, first, block_size) + handed(between, waiting, second, block_size)
        =~= handed(carry, pending, first + second, block_size));
    assert(delivered(carry, pending, first.len(), processed.take(used)) + delivered(
        between,
        waiting,
        second.len(),
        processed.skip(used),
    ) =~= delivered(carry, pending, first.len() + second.len(), processed));
    assert(carried(between, waiting, second, processed.skip(used), block_size) =~= carried(
        carry,
        pending,
        first + second,
        processed,
        block_size,
    ));
}

/// However a signal is cut into segments, the calls give back in all what
/// one call on the whole signal gives back, and leave the same carry.
pub proof fn lemma_chunking<T>(
    carry: Seq<T>,
    pending: nat,
    segments: Seq<Seq<T>>,
    processed: Seq<T>,
    block_size: nat,
)
    requires
        block_size > 0,
        carry.len() == block_size,
        pending < block_size,
        processed.len() == completed(pending, segments.flatten().len(), block_size) * block_size,
    ensures
        replayed(carry, pending, segments, processed, block_size) == (
            delivered(carry, pending, segments.flatten().len(), processed),
            carried(carry, pending, segments.flatten(), processed, block_size),
            remaining(pending, segments.flatten().len(), block_size),
        ),
    decreases segments.len(),
{
    if segments.len() == 0 {
        assert(segments.flatten() =~= Seq::<T>::empty());
        assert(completed(pending, 0, block_size) == 0 && remaining(pending, 0, block_size)
            == pending) by {
            lemma_fundamental_div_mod_converse(pending as int, block_size as int, 0, pending as int);
        }
        assert(delivered(carry, pending, 0, processed) =~= Seq::<T>::empty());
        assert(carried(carry, pending, segments.flatten(), processed, block_size) =~= carry);
    } else {
        let first = segments.first();
        let rest = segments.drop_first();
        assert(segments.flatten() == first + rest.flatten());
        lemma_two_calls_are_one(carry, pending, first, rest.flatten(), processed, block_size);
        let used = (completed(pending, first.len(), block_size) * block_size) as int;
        lemma_chunking(
            carried(carry, pending, first, processed.take(used), block_size),
            remaining(pending, first.len(), block_size),
            rest,
            processed.skip(used),
            block_size,
        );
    }
}

/// The samples given back are late by what the carry owed: first come the
/// samples of the carry that were owed, then, in their order, the samples
/// that the processor wrote.
pub proof fn lemma_latency<T>(carry: Seq<T>, pending: nat, samples: nat, processed: Seq<T>)
    requires
        pending <= carry.len(),
        samples <= carry.len() - pending + processed.len(),
    ensures
        delivered(carry, pending, samples, processed).len() == samples,
        forall|i: int|
            0 <= i < samples && i < carry.len() - pending ==> #[trigger] delivered(
                carry,
                pending,
                samples,
                processed,
            )[i] == carry[pending + i],
        forall|i: int|
            0 <= i && i + (carry.len() - pending) < samples ==> #[trigger] delivered(
                carry,
                pending,
                samples,
                processed,
            )[i + (carry.len() - pending)] == processed[i],
{
}

/// From a start at which nothing waits, whatever the segments of the calls
/// are: the first `block_size` samples given back are those of the first
/// carry, and sample `i` of what the processor wrote comes back at place
/// `i + block_size`.
pub proof fn lemma_one_block_late<T>(
    carry: Seq<T>,
    segments: Seq<Seq<T>>,
    processed: Seq<T>,
    block_size: nat,
)
    requires
        block_size > 0,
        carry.len() == block_size,
        processed.len() == completed(0, segments.flatten().len(), block_size) * block_size,
    ensures
        ({
            let back = replayed(carry, 0, segments, processed, block_size).0;
            &&& back.len() == segments.flatten().len()
            &&& forall|i: int| 0 <= i < block_size && i < back.len() ==> back[i] == carry[i]
            &&& forall|i: int| 0 <= i && i + block_size < back.len() ==> back[i + block_size]
                == processed[i]
        }),
{
    let total = segments.flatten().len();
    lemma_chunking(carry, 0, segments, processed, block_size);
    lemma_completed_in_two(0, total, 0, block_size);
    lemma_latency(carry, 0, total, processed);
    let back = delivered(carry, 0, total, processed);
    assert forall|i: int| 0 <= i && i + block_size < back.len() implies back[i + block_size]
        == processed[i] by {
        assert(back[i + (carry.len() - 0)] == processed[i]);
    }
}

} // verus!
