//! The block segmenter: it takes buffers of any length and lets the
//! processors see blocks of one fixed length only.

use crate::buffer::Buffer;
use crate::lane::{lane_failed, lane_progress};
use crate::lane::{
    lemma_lane_advance, lemma_lane_finish, lemma_lane_refused, lemma_lane_staged,
    lemma_taken_is_completed,
};
use crate::processor::{
    admits, handed_before, lemma_admits_in_a_row, lemma_refreshed_next, refreshed_in_turn,
    ParamsBlock, SingleChannelProcessor,
};
use crate::sample::{constant, filled, is_default};
use crate::status::ProcessStatus;
use crate::stream::{accepted, carried, completed, delivered, handed, produced, remaining};
use crate::stream::{lemma_completed_in_two, lemma_latency, lemma_two_calls_are_one};
use crate::stream::{stage_block, swap_ranges};
use std::sync::Arc;
use vstd::prelude::*;

verus! {

/// Splits the channels of a buffer into blocks of one size and has each block
/// processed by the processor of its channel. What does not fill a block
/// waits for the next buffer, so every sample comes back `block_size` samples
/// late.
pub struct DspCoreProcessor<T, SCP: SingleChannelProcessor<T>> {
    channel_processor: Vec<SCP>,
    overflow: usize,
    temp: Vec<T>,
    buffer: Vec<Vec<T>>,
    params_block: SCP::ParamsBlock,
    block_size: usize,
    channels: usize,
}

impl<T: Copy, SCP: SingleChannelProcessor<T>> DspCoreProcessor<T, SCP> {
    /// The length of the blocks that the processors are given.
    pub closed spec fn block_size(&self) -> nat {
        self.block_size as nat
    }

    /// The number of channels that there is a processor for.
    pub closed spec fn channels(&self) -> nat {
        self.channels as nat
    }

    /// The number of samples that wait for their block to fill up.
    pub closed spec fn pending(&self) -> nat {
        if self.overflow == self.block_size {
            0
        } else {
            self.overflow as nat
        }
    }

    /// The carry of each channel.
    pub closed spec fn carry(&self) -> Seq<Seq<T>> {
        Seq::new(self.buffer@.len(), |c: int| self.buffer@[c]@)
    }

    /// The processor of each channel.
    pub closed spec fn processors(&self) -> Seq<SCP> {
        self.channel_processor@
    }

    /// The parameter blocks that the processors are given.
    pub closed spec fn params(&self) -> SCP::ParamsBlock {
        self.params_block
    }

    /// There is a processor, and a carry of `block_size` samples, for each of
    /// `channels` channels.
    spec fn shaped(&self, block_size: usize, channels: usize) -> bool {
        &&& self.block_size == block_size
        &&& self.channels == channels
        &&& block_size > 0
        &&& channels > 0
        &&& self.channel_processor@.len() == channels
        &&& self.buffer@.len() == channels
        &&& self.temp@.len() == block_size
        &&& forall|c: int|
            0 <= c < self.buffer@.len() ==> (#[trigger] self.buffer@[c])@.len() == block_size
    }

    /// There is a processor and a carry of `block_size` samples for each
    /// channel, and fewer than `block_size` samples wait.
    pub closed spec fn wf(&self) -> bool {
        &&& self.shaped(self.block_size, self.channels)
        &&& 0 < self.overflow <= self.block_size
    }

    /// What follows from `wf` for the views.
    pub proof fn lemma_wf(&self)
        requires
            self.wf(),
        ensures
            self.block_size() > 0,
            self.channels() > 0,
            self.pending() < self.block_size(),
            self.processors().len() == self.channels(),
            self.carry().len() == self.channels(),
            forall|c: int|
                0 <= c < self.channels() ==> (#[trigger] self.carry()[c]).len() == self.block_size(),
    {
    }

    /// The number of channels that a cycle on a buffer of `buffer_channels`
    /// channels works on.
    pub open spec fn active(&self, buffer_channels: nat) -> nat {
        if buffer_channels < self.channels() {
            buffer_channels
        } else {
            self.channels()
        }
    }

    /// What a cycle that ended normally did to channel `c`, where `fed` is
    /// what the buffer held for the channel, `returned` what it holds now,
    /// `processed` what the channel's processor made of the blocks handed to
    /// it, and `params` the parameter blocks handed to it, one with each
    /// block.
    pub open spec fn lane_served(
        &self,
        after: Self,
        c: int,
        fed: Seq<T>,
        returned: Seq<T>,
        processed: Seq<T>,
        params: Seq<SCP::ParamsBlock>,
    ) -> bool {
        let carry = self.carry()[c];
        let pending = self.pending();
        let block_size = self.block_size();
        &&& processed.len() == completed(pending, fed.len(), block_size) * block_size
        &&& params.len() == completed(pending, fed.len(), block_size)
        &&& admits(
            self.processors()[c],
            handed(carry, pending, fed, block_size),
            processed,
            block_size,
            after.processors()[c],
            params,
        )
        &&& returned == delivered(carry, pending, fed.len(), processed)
        &&& after.carry()[c] == carried(carry, pending, fed, processed, block_size)
    }

    /// A cycle that ended normally served each of the first `lanes` channels.
    /// The parameter blocks were refreshed before each block of each channel,
    /// in turn, and `turns[c]` are those handed to the processor of channel
    /// `c`; the last of them is the one at hand afterwards.
    pub open spec fn served(
        &self,
        after: Self,
        lanes: nat,
        fed: Seq<Seq<T>>,
        returned: Seq<Seq<T>>,
        processed: Seq<Seq<T>>,
        turns: Seq<Seq<SCP::ParamsBlock>>,
    ) -> bool {
        &&& processed.len() == lanes
        &&& turns.len() == lanes
        &&& forall|c: int|
            0 <= c < lanes ==> self.lane_served(
                after,
                c,
                fed[c],
                returned[c],
                #[trigger] processed[c],
                turns[c],
            )
        &&& refreshed_in_turn(self.params(), turns)
        &&& after.params() == (if lanes > 0 && turns[lanes - 1].len() > 0 {
            turns[lanes - 1].last()
        } else {
            self.params()
        })
    }

    /// A cycle stopped at the error `message` of the processor of channel
    /// `failing`, on the block after the first `taken` accepted samples: the
    /// channels before it have had that block processed, the channels after
    /// it have not been handed it. The parameter blocks were refreshed
    /// before each block of each channel, in turn, and `turns[c]` are those
    /// handed to the processor of channel `c`; the one handed with the block
    /// that failed is the one at hand afterwards.
    pub open spec fn halted(
        &self,
        after: Self,
        lanes: nat,
        fed: Seq<Seq<T>>,
        returned: Seq<Seq<T>>,
        message: &'static str,
        failing: int,
        taken: nat,
        processed: Seq<Seq<T>>,
        turns: Seq<Seq<SCP::ParamsBlock>>,
    ) -> bool {
        &&& 0 <= failing < lanes
        &&& processed.len() == lanes
        &&& turns.len() == lanes
        &&& forall|c: int|
            0 <= c < lanes ==> (#[trigger] turns[c]).len() + (if c <= failing {
                0nat
            } else {
                1nat
            }) == turns[failing].len()
        &&& refreshed_in_turn(self.params(), turns)
        &&& after.params() == turns[failing].last()
        &&& forall|c: int|
            0 <= c < lanes && c != failing ==> lane_progress(
                self.carry()[c],
                self.pending(),
                fed[c],
                self.block_size(),
                self.processors()[c],
                if c < failing {
                    taken + self.block_size()
                } else {
                    taken
                },
                #[trigger] processed[c],
                after.carry()[c],
                returned[c],
                after.processors()[c],
                turns[c],
            )
        &&& lane_failed(
            self.carry()[failing],
            self.pending(),
            fed[failing],
            self.block_size(),
            self.processors()[failing],
            taken,
            processed[failing],
            after.carry()[failing],
            returned[failing],
            after.processors()[failing],
            message,
            turns[failing],
        )
    }

    /// A cycle stopped at the error `message` of a processor. Nothing was
    /// done after the error, so the number of waiting samples is as it was
    /// when the block began.
    pub open spec fn refused(
        &self,
        after: Self,
        lanes: nat,
        fed: Seq<Seq<T>>,
        returned: Seq<Seq<T>>,
        message: &'static str,
    ) -> bool {
        exists|
            failing: int,
            taken: nat,
            processed: Seq<Seq<T>>,
            turns: Seq<Seq<SCP::ParamsBlock>>,
        |
            {
                &&& #[trigger] self.halted(
                    after,
                    lanes,
                    fed,
                    returned,
                    message,
                    failing,
                    taken,
                    processed,
                    turns,
                )
                &&& after.pending() == (if taken == 0 {
                    self.pending()
                } else {
                    0
                })
            }
    }

    /// A cycle left every channel from `lanes` on as it was: its carry, its
    /// processor and its part of the buffer.
    pub open spec fn kept(
        &self,
        after: Self,
        lanes: nat,
        fed: Seq<Seq<T>>,
        returned: Seq<Seq<T>>,
    ) -> bool {
        &&& returned.len() == fed.len()
        &&& forall|c: int|
            lanes <= c < self.channels() ==> #[trigger] after.carry()[c] == self.carry()[c]
        &&& forall|c: int|
            lanes <= c < self.channels() ==> #[trigger] after.processors()[c]
                == self.processors()[c]
        &&& forall|c: int| lanes <= c < fed.len() ==> #[trigger] returned[c] == fed[c]
    }

    /// In the middle of a cycle: the first `split` channels have had `low` of
    /// their accepted samples processed, the others up to `lanes` have had
    /// `high`. `round` blocks have gone through every processor, and one
    /// more through those of the first `split` channels; `turns` are the
    /// parameter blocks handed to them.
    spec fn progress(
        &self,
        before: Self,
        fed: Seq<Seq<T>>,
        returned: Seq<Seq<T>>,
        lanes: nat,
        split: nat,
        low: nat,
        high: nat,
        processed: Seq<Seq<T>>,
        turns: Seq<Seq<SCP::ParamsBlock>>,
        round: nat,
    ) -> bool {
        &&& processed.len() == lanes
        &&& turns.len() == lanes
        &&& forall|c: int|
            0 <= c < lanes ==> (#[trigger] turns[c]).len() == (if c < split {
                round + 1
            } else {
                round
            })
        &&& refreshed_in_turn(before.params_block, turns)
        &&& self.params_block == (if split > 0 {
            turns[split - 1][round as int]
        } else if round > 0 {
            turns[lanes - 1][round - 1]
        } else {
            before.params_block
        })
        &&& forall|c: int|
            0 <= c < lanes ==> lane_progress(
                before.buffer@[c]@,
                before.pending(),
                fed[c],
                before.block_size as nat,
                before.channel_processor@[c],
                if c < split {
                    low
                } else {
                    high
                },
                #[trigger] processed[c],
                self.buffer@[c]@,
                returned[c],
                self.channel_processor@[c],
                turns[c],
            )
    }

    /// The channels from `lanes` on are as they were.
    spec fn rest_kept(
        &self,
        before: Self,
        fed: Seq<Seq<T>>,
        returned: Seq<Seq<T>>,
        lanes: nat,
    ) -> bool {
        &&& returned.len() == fed.len()
        &&& forall|c: int|
            lanes <= c < self.buffer@.len() ==> #[trigger] self.buffer@[c] == before.buffer@[c]
        &&& forall|c: int|
            lanes <= c < self.channel_processor@.len() ==> #[trigger] self.channel_processor@[c]
                == before.channel_processor@[c]
        &&& forall|c: int| lanes <= c < fed.len() ==> #[trigger] returned[c] == fed[c]
    }

    /// Makes a segmenter for blocks of `block_size` samples and `channels`
    /// channels, with a new processor for each channel. Nothing waits, and
    /// every carry holds `block_size` times the default sample.
    pub fn new(
        params: Arc<<SCP::ParamsBlock as ParamsBlock>::Params>,
        block_size: usize,
        channels: usize,
    ) -> (segmenter: Self) where T: Default
        requires
            block_size > 0,
            channels > 0,
        ensures
            segmenter.wf(),
            segmenter.block_size() == block_size,
            segmenter.channels() == channels,
            segmenter.pending() == 0,
            segmenter.processors().len() == channels,
            segmenter.carry().len() == channels,
            forall|c: int|
                0 <= c < channels ==> call_ensures(
                    SCP::new,
                    (block_size,),
                    #[trigger] segmenter.processors()[c],
                ),
            call_ensures(
                <SCP::ParamsBlock as ParamsBlock>::new,
                (params, block_size),
                segmenter.params(),
            ),
            exists|silence: T|
                {
                    &&& #[trigger] is_default(silence)
                    &&& forall|c: int|
                        0 <= c < channels ==> #[trigger] segmenter.carry()[c] == constant(
                            silence,
                            block_size as nat,
                        )
                },
    {
        let silence: T = T::default();
        assert(is_default(silence));
        let mut channel_processor: Vec<SCP> = Vec::new();
        let mut buffer: Vec<Vec<T>> = Vec::new();
        let mut channel: usize = 0;
        while channel < channels
            invariant
                channel <= channels,
                channel_processor@.len() == channel,
                buffer@.len() == channel,
                forall|c: int|
                    0 <= c < channel ==> (#[trigger] buffer@[c])@ == constant(
                        silence,
                        block_size as nat,
                    ),
                forall|c: int|
                    0 <= c < channel ==> call_ensures(
                        SCP::new,
                        (block_size,),
                        #[trigger] channel_processor@[c],
                    ),
            decreases channels - channel,
        {
            channel_processor.push(SCP::new(block_size));
            buffer.push(filled(silence, block_size));
            channel += 1;
        }
        let temp = filled(silence, block_size);
        let params_block = <SCP::ParamsBlock as ParamsBlock>::new(params, block_size);
        DspCoreProcessor {
            channel_processor,
            overflow: block_size,
            temp,
            buffer,
            params_block,
            block_size,
            channels,
        }
    }

    /// The parameter blocks, to set them by hand.
    pub fn params_block_mut(&mut self) -> (params: &mut SCP::ParamsBlock)
        ensures
            *params == old(self).params(),
            final(self).params() == *final(params),
            final(self).wf() == old(self).wf(),
            final(self).block_size() == old(self).block_size(),
            final(self).channels() == old(self).channels(),
            final(self).pending() == old(self).pending(),
            final(self).carry() == old(self).carry(),
            final(self).processors() == old(self).processors(),
    {
        &mut self.params_block
    }

    /// The length of the blocks that the processors are given.
    pub fn get_block_size(&self) -> (block_size: usize)
        ensures
            block_size == self.block_size(),
    {
        self.block_size
    }

    /// The number of channels that there is a processor for.
    pub fn get_channels(&self) -> (channels: usize)
        ensures
            channels == self.channels(),
    {
        self.channels
    }

    /// Two cycles in a row serve a channel as one cycle on the two segments
    /// joined does: however a signal is cut into buffers, the channel's
    /// processor is handed the same blocks, and the channel gets the same
    /// samples back and keeps the same carry.
    pub proof fn lemma_cycles_join(
        first: Self,
        second: Self,
        third: Self,
        c: int,
        fed: (Seq<T>, Seq<T>),
        returned: (Seq<T>, Seq<T>),
        processed: (Seq<T>, Seq<T>),
        params: (Seq<SCP::ParamsBlock>, Seq<SCP::ParamsBlock>),
    )
        requires
            first.block_size() > 0,
            first.pending() < first.block_size(),
            first.carry()[c].len() == first.block_size(),
            second.block_size() == first.block_size(),
            second.pending() == remaining(first.pending(), fed.0.len(), first.block_size()),
            first.lane_served(second, c, fed.0, returned.0, processed.0, params.0),
            second.lane_served(third, c, fed.1, returned.1, processed.1, params.1),
        ensures
            first.lane_served(
                third,
                c,
                fed.0 + fed.1,
                returned.0 + returned.1,
                processed.0 + processed.1,
                params.0 + params.1,
            ),
    {
        let block_size = first.block_size();
        let pending = first.pending();
        let carry = first.carry()[c];
        let all = processed.0 + processed.1;
        lemma_completed_in_two(pending, fed.0.len(), fed.1.len(), block_size);
        assert(all.take(processed.0.len() as int) =~= processed.0);
        assert(all.skip(processed.0.len() as int) =~= processed.1);
        lemma_two_calls_are_one(carry, pending, fed.0, fed.1, all, block_size);
        lemma_admits_in_a_row(
            first.processors()[c],
            (handed(carry, pending, fed.0, block_size), processed.0, params.0),
            second.processors()[c],
            (
                handed(second.carry()[c], second.pending(), fed.1, block_size),
                processed.1,
                params.1,
            ),
            third.processors()[c],
            block_size,
        );
    }

    /// The delay of one block: where nothing waited before a cycle, the
    /// samples that a served channel gets back are first those of its carry
    /// and then, `block_size` places after their own, those that its
    /// processor wrote.
    pub proof fn lemma_one_block_late(
        before: Self,
        after: Self,
        c: int,
        fed: Seq<T>,
        returned: Seq<T>,
        processed: Seq<T>,
        params: Seq<SCP::ParamsBlock>,
    )
        requires
            before.block_size() > 0,
            before.pending() == 0,
            before.carry()[c].len() == before.block_size(),
            before.lane_served(after, c, fed, returned, processed, params),
        ensures
            returned.len() == fed.len(),
            forall|i: int|
                0 <= i < before.block_size() && i < fed.len() ==> returned[i]
                    == before.carry()[c][i],
            forall|i: int|
                0 <= i && i + before.block_size() < fed.len() ==> returned[i + before.block_size()]
                    == processed[i],
    {
        let block_size = before.block_size();
        lemma_completed_in_two(0, fed.len(), 0, block_size);
        lemma_latency(before.carry()[c], 0, fed.len(), processed);
        assert forall|i: int| 0 <= i && i + block_size < fed.len() implies returned[i + block_size]
            == processed[i] by {
            assert(returned[i + (before.carry()[c].len() - 0)] == processed[i]);
        }
    }

    /// A run of cycles that ended normally, as channel `c` saw it: cycle `j`
    /// took the segmenter from `states[j]` to `states[j + 1]` and served the
    /// channel with `fed[j]`, `returned[j]`, `processed[j]` and `params[j]`.
    pub open spec fn lane_ran(
        states: Seq<Self>,
        c: int,
        fed: Seq<Seq<T>>,
        returned: Seq<Seq<T>>,
        processed: Seq<Seq<T>>,
        params: Seq<Seq<SCP::ParamsBlock>>,
    ) -> bool {
        &&& states.len() == fed.len() + 1
        &&& returned.len() == fed.len()
        &&& processed.len() == fed.len()
        &&& params.len() == fed.len()
        &&& forall|j: int|
            0 <= j < states.len() ==> {
                &&& (#[trigger] states[j]).block_size() == states[0].block_size()
                &&& states[j].pending() < states[j].block_size()
                &&& states[j].carry()[c].len() == states[j].block_size()
            }
        &&& forall|j: int|
            0 <= j < fed.len() ==> {
                &&& states[j + 1].pending() == remaining(
                    states[j].pending(),
                    (#[trigger] fed[j]).len(),
                    states[j].block_size(),
                )
                &&& states[j].lane_served(
                    states[j + 1],
                    c,
                    fed[j],
                    returned[j],
                    processed[j],
                    params[j],
                )
            }
    }

    /// However a signal is cut into buffers, a run of cycles serves a channel
    /// as one cycle on the whole signal does: the channel's processor is
    /// handed the same blocks, and the channel gets the same samples back and
    /// keeps the same carry.
    pub proof fn lemma_run_is_one_cycle(
        states: Seq<Self>,
        c: int,
        fed: Seq<Seq<T>>,
        returned: Seq<Seq<T>>,
        processed: Seq<Seq<T>>,
        params: Seq<Seq<SCP::ParamsBlock>>,
    )
        requires
            Self::lane_ran(states, c, fed, returned, processed, params),
        ensures
            states[0].lane_served(
                states.last(),
                c,
                fed.flatten(),
                returned.flatten(),
                processed.flatten(),
                params.flatten(),
            ),
            states.last().pending() == remaining(
                states[0].pending(),
                fed.flatten().len(),
                states[0].block_size(),
            ),
        decreases fed.len(),
    {
        let first = states[0];
        let block_size = first.block_size();
        let pending = first.pending();
        let carry = first.carry()[c];
        if fed.len() == 0 {
            assert(fed.flatten() =~= Seq::<T>::empty());
            assert(returned.flatten() =~= Seq::<T>::empty());
            assert(processed.flatten() =~= Seq::<T>::empty());
            assert(params.flatten() =~= Seq::<SCP::ParamsBlock>::empty());
            lemma_completed_in_two(pending, 0, 0, block_size);
            vstd::arithmetic::div_mod::lemma_fundamental_div_mod_converse(
                pending as int,
                block_size as int,
                0,
                pending as int,
            );
            assert(handed(carry, pending, Seq::<T>::empty(), block_size).len() == 0);
            assert(delivered(carry, pending, 0, Seq::<T>::empty()) =~= Seq::<T>::empty());
            assert(carried(carry, pending, Seq::<T>::empty(), Seq::<T>::empty(), block_size)
                =~= carry);
        } else {
            let later = states.drop_first();
            assert(later[0] == states[1]);
            assert forall|j: int| 0 <= j < later.len() implies {
                &&& (#[trigger] later[j]).block_size() == later[0].block_size()
                &&& later[j].pending() < later[j].block_size()
                &&& later[j].carry()[c].len() == later[j].block_size()
            } by {
                assert(later[j] == states[j + 1]);
            }
            assert forall|j: int| 0 <= j < fed.drop_first().len() implies {
                &&& later[j + 1].pending() == remaining(
                    later[j].pending(),
                    (#[trigger] fed.drop_first()[j]).len(),
                    later[j].block_size(),
                )
                &&& later[j].lane_served(
                    later[j + 1],
                    c,
                    fed.drop_first()[j],
                    returned.drop_first()[j],
                    processed.drop_first()[j],
                    params.drop_first()[j],
                )
            } by {
                assert(fed.drop_first()[j] == fed[j + 1]);
                assert(later[j] == states[j + 1]);
                assert(later[j + 1] == states[j + 2]);
            }
            Self::lemma_run_is_one_cycle(
                later,
                c,
                fed.drop_first(),
                returned.drop_first(),
                processed.drop_first(),
                params.drop_first(),
            );
            assert(later.last() == states.last());
            assert(fed[0].len() >= 0);
            Self::lemma_cycles_join(
                first,
                states[1],
                states.last(),
                c,
                (fed[0], fed.drop_first().flatten()),
                (returned[0], returned.drop_first().flatten()),
                (processed[0], processed.drop_first().flatten()),
                (params[0], params.drop_first().flatten()),
            );
            lemma_completed_in_two(
                pending,
                fed[0].len(),
                fed.drop_first().flatten().len(),
                block_size,
            );
        }
    }

    /// The delay of one block over a run of cycles: where nothing waited
    /// before the run, the samples that the channel gets back, taken
    /// together, are first those of its carry and then, `block_size` places
    /// after their own, those that its processor wrote.
    pub proof fn lemma_run_is_one_block_late(
        states: Seq<Self>,
        c: int,
        fed: Seq<Seq<T>>,
        returned: Seq<Seq<T>>,
        processed: Seq<Seq<T>>,
        params: Seq<Seq<SCP::ParamsBlock>>,
    )
        requires
            Self::lane_ran(states, c, fed, returned, processed, params),
            states[0].block_size() > 0,
            states[0].pending() == 0,
        ensures
            returned.flatten().len() == fed.flatten().len(),
            forall|i: int|
                0 <= i < states[0].block_size() && i < fed.flatten().len() ==> returned.flatten()[i]
                    == states[0].carry()[c][i],
            forall|i: int|
                0 <= i && i + states[0].block_size() < fed.flatten().len()
                    ==> returned.flatten()[i + states[0].block_size()] == processed.flatten()[i],
    {
        Self::lemma_run_is_one_cycle(states, c, fed, returned, processed, params);
        Self::lemma_one_block_late(
            states[0],
            states.last(),
            c,
            fed.flatten(),
            returned.flatten(),
            processed.flatten(),
            params.flatten(),
        );
    }

    /// A run from a new segmenter starts silent: where nothing waited before
    /// the run and the carry held one sample throughout, as that of a new
    /// segmenter holds the default sample, the first `block_size` samples
    /// that the channel gets back are that sample.
    pub proof fn lemma_run_starts_silent(
        states: Seq<Self>,
        c: int,
        fed: Seq<Seq<T>>,
        returned: Seq<Seq<T>>,
        processed: Seq<Seq<T>>,
        params: Seq<Seq<SCP::ParamsBlock>>,
        silence: T,
    )
        requires
            Self::lane_ran(states, c, fed, returned, processed, params),
            states[0].block_size() > 0,
            states[0].pending() == 0,
            states[0].carry()[c] == constant(silence, states[0].block_size()),
        ensures
            forall|i: int|
                0 <= i < states[0].block_size() && i < fed.flatten().len() ==> returned.flatten()[i]
                    == silence,
    {
        Self::lemma_run_is_one_block_late(states, c, fed, returned, processed, params);
    }

    /// Two runs agree: where two channels, of one segmenter or of two, start
    /// with the same carry and the same number of waiting samples, are fed
    /// the same signal, however each run cuts it into buffers, and their
    /// processors write the same, the two get the same samples back. The
    /// channels beside them and the places they sit at make no difference.
    pub proof fn lemma_runs_agree(
        one: (Seq<Self>, int, Seq<Seq<T>>, Seq<Seq<T>>, Seq<Seq<T>>, Seq<Seq<SCP::ParamsBlock>>),
        other: (Seq<Self>, int, Seq<Seq<T>>, Seq<Seq<T>>, Seq<Seq<T>>, Seq<Seq<SCP::ParamsBlock>>),
    )
        requires
            Self::lane_ran(one.0, one.1, one.2, one.3, one.4, one.5),
            Self::lane_ran(other.0, other.1, other.2, other.3, other.4, other.5),
            one.0[0].block_size() == other.0[0].block_size(),
            one.0[0].pending() == other.0[0].pending(),
            one.0[0].carry()[one.1] == other.0[0].carry()[other.1],
            one.2.flatten() == other.2.flatten(),
            one.4.flatten() == other.4.flatten(),
        ensures
            one.3.flatten() == other.3.flatten(),
            one.0.last().carry()[one.1] == other.0.last().carry()[other.1],
            one.0.last().pending() == other.0.last().pending(),
    {
        Self::lemma_run_is_one_cycle(one.0, one.1, one.2, one.3, one.4, one.5);
        Self::lemma_run_is_one_cycle(other.0, other.1, other.2, other.3, other.4, other.5);
    }

    /// What a served channel gets back and keeps depends on that channel
    /// alone: two channels with the same carry that are fed the same samples,
    /// and whose processors write the same, get the same samples back and
    /// keep the same carry, wherever they sit and whatever the channels
    /// beside them hold.
    pub proof fn lemma_channels_are_independent(
        one: Self,
        one_after: Self,
        c: int,
        other: Self,
        other_after: Self,
        d: int,
        fed: Seq<T>,
        processed: Seq<T>,
        returned: (Seq<T>, Seq<T>),
        params: (Seq<SCP::ParamsBlock>, Seq<SCP::ParamsBlock>),
    )
        requires
            one.block_size() == other.block_size(),
            one.pending() == other.pending(),
            one.carry()[c] == other.carry()[d],
            one.lane_served(one_after, c, fed, returned.0, processed, params.0),
            other.lane_served(other_after, d, fed, returned.1, processed, params.1),
        ensures
            returned.0 == returned.1,
            one_after.carry()[c] == other_after.carry()[d],
    {
    }

    /// Hands the next block of each of the first `lanes` channels to the
    /// channel's processor, in the order of the channels, each with the
    /// parameter blocks freshly refreshed, and stops at the first error.
    fn run_block(
        &mut self,
        buffer: &mut Buffer<T>,
        lanes: usize,
        index: usize,
        pending: usize,
        Ghost(before): Ghost<Self>,
        Ghost(fed): Ghost<Seq<Seq<T>>>,
        Ghost(taken): Ghost<nat>,
        Ghost(round): Ghost<nat>,
        Ghost(processed): Ghost<Seq<Seq<T>>>,
        Ghost(handed): Ghost<Seq<Seq<SCP::ParamsBlock>>>,
    ) -> (result: (ProcessStatus, Ghost<Seq<Seq<T>>>, Ghost<Seq<Seq<SCP::ParamsBlock>>>))
        requires
            before.wf(),
            old(self).shaped(before.block_size, before.channels),
            old(buffer).wf(),
            0 < lanes <= before.channels,
            lanes <= old(buffer)@.len(),
            fed.len() == old(buffer)@.len(),
            forall|c: int| 0 <= c < lanes ==> (#[trigger] fed[c]).len() == old(buffer).num_samples,
            old(self).progress(
                before,
                fed,
                old(buffer)@,
                lanes as nat,
                0,
                taken,
                taken,
                processed,
                handed,
                round,
            ),
            old(self).rest_kept(before, fed, old(buffer)@, lanes as nat),
            pending == (if taken == 0 {
                before.pending()
            } else {
                0
            }),
            index == (if taken == 0 {
                0
            } else {
                taken - before.pending()
            }),
            taken + before.block_size <= before.pending() + old(buffer).num_samples,
        ensures
            final(self).shaped(before.block_size, before.channels),
            final(self).overflow == old(self).overflow,
            final(buffer).wf(),
            final(buffer).num_samples == old(buffer).num_samples,
            final(buffer)@.len() == old(buffer)@.len(),
            final(self).rest_kept(before, fed, final(buffer)@, lanes as nat),
            match result.0 {
                ProcessStatus::Normal => final(self).progress(
                    before,
                    fed,
                    final(buffer)@,
                    lanes as nat,
                    lanes as nat,
                    taken + before.block_size as nat,
                    taken,
                    result.1@,
                    result.2@,
                    round,
                ),
                ProcessStatus::Error(message) => exists|failing: int|
                    #[trigger] before.halted(
                        *final(self),
                        lanes as nat,
                        fed,
                        final(buffer)@,
                        message,
                        failing,
                        taken,
                        result.1@,
                        result.2@,
                    ),
                _ => false,
            },
    {
        let ghost block_size = before.block_size as nat;
        let ghost mut done = processed;
        let ghost mut turns = handed;
        let mut channel: usize = 0;
        while channel < lanes
            invariant
                channel <= lanes,
                0 < lanes,
                before.wf(),
                block_size == before.block_size,
                self.shaped(before.block_size, before.channels),
                self.overflow == old(self).overflow,
                buffer.wf(),
                buffer.num_samples == old(buffer).num_samples,
                buffer@.len() == old(buffer)@.len(),
                lanes <= before.channels,
                lanes <= buffer@.len(),
                fed.len() == buffer@.len(),
                forall|c: int| 0 <= c < lanes ==> (#[trigger] fed[c]).len() == buffer.num_samples,
                self.progress(
                    before,
                    fed,
                    buffer@,
                    lanes as nat,
                    channel as nat,
                    taken + block_size,
                    taken,
                    done,
                    turns,
                    round,
                ),
                self.rest_kept(before, fed, buffer@, lanes as nat),
                pending == (if taken == 0 {
                    before.pending()
                } else {
                    0
                }),
                index == (if taken == 0 {
                    0
                } else {
                    taken - before.pending()
                }),
                taken + block_size <= before.pending() + buffer.num_samples,
            decreases lanes - channel,
        {
            let ghost now = *self;
            let ghost returned = buffer@;
            let ghost carry0 = before.buffer@[channel as int]@;
            let ghost start = before.channel_processor@[channel as int];
            let ghost carry = self.buffer@[channel as int]@;
            let ghost segment = buffer@[channel as int];
            let ghost current = self.channel_processor@[channel as int];
            let ghost mine = turns[channel as int];
            assert(lane_progress(
                carry0,
                before.pending(),
                fed[channel as int],
                block_size,
                start,
                taken,
                done[channel as int],
                carry,
                segment,
                current,
                mine,
            ));
            assert(self.params_block == handed_before(
                before.params_block,
                turns,
                channel as int,
                round as int,
            ));
            stage_block(
                self.buffer[channel].as_slice(),
                pending,
                buffer.output_slices[channel].as_mut_slice(),
                index,
                self.temp.as_mut_slice(),
            );
            let ghost segment2 = buffer@[channel as int];
            proof {
                lemma_lane_staged(
                    carry0,
                    before.pending(),
                    fed[channel as int],
                    block_size,
                    start,
                    taken,
                    done[channel as int],
                    carry,
                    segment,
                    current,
                    mine,
                    self.temp@,
                );
            }
            self.params_block.from_params();
            let ghost used = self.params_block;
            let status = self.channel_processor[channel].process(
                self.temp.as_slice(),
                self.buffer[channel].as_mut_slice(),
                &self.params_block,
            );
            let ghost out = self.buffer@[channel as int]@;
            let ghost next = self.channel_processor@[channel as int];
            let ghost earlier = done;
            let ghost sooner = turns;
            proof {
                lemma_refreshed_next(before.params_block, sooner, channel as int, used);
                turns = sooner.update(channel as int, mine.push(used));
                assert forall|c: int| lanes <= c < fed.len() implies #[trigger] buffer@[c]
                    == fed[c] by {
                    assert(buffer@[c] == returned[c]);
                }
                assert forall|c: int|
                    lanes <= c < self.buffer@.len() implies #[trigger] self.buffer@[c]
                    == before.buffer@[c] by {
                    assert(self.buffer@[c] == now.buffer@[c]);
                }
                assert forall|c: int|
                    lanes <= c
                        < self.channel_processor@.len() implies #[trigger] self.channel_processor@[c]
                    == before.channel_processor@[c] by {
                    assert(self.channel_processor@[c] == now.channel_processor@[c]);
                }
                assert forall|c: int| 0 <= c < lanes implies (#[trigger] turns[c]).len() == (if c
                    < channel + 1 {
                    round + 1
                } else {
                    round
                }) by {
                    if c != channel {
                        assert(turns[c] == sooner[c]);
                    }
                }
                assert(turns[channel as int][round as int] == used);
            }
            match status {
                ProcessStatus::Error(message) => {
                    proof {
                        lemma_lane_refused(
                            carry0,
                            before.pending(),
                            fed[channel as int],
                            block_size,
                            start,
                            taken,
                            done[channel as int],
                            carry,
                            segment,
                            current,
                            mine,
                            segment2,
                            used,
                            next,
                            out,
                            message,
                        );
                        assert(before.carry()[channel as int] == carry0);
                        assert forall|c: int| 0 <= c < lanes && c != channel implies lane_progress(
                            before.carry()[c],
                            before.pending(),
                            fed[c],
                            before.block_size(),
                            before.processors()[c],
                            if c < channel {
                                taken + before.block_size()
                            } else {
                                taken
                            },
                            #[trigger] done[c],
                            self.carry()[c],
                            buffer@[c],
                            self.processors()[c],
                            turns[c],
                        ) by {
                            assert(turns[c] == sooner[c]);
                            assert(self.buffer@[c] == now.buffer@[c]);
                            assert(buffer@[c] == returned[c]);
                            assert(self.channel_processor@[c] == now.channel_processor@[c]);
                        }
                        assert forall|c: int| 0 <= c < lanes implies (#[trigger] turns[c]).len() + (if c
                            <= channel {
                            0nat
                        } else {
                            1nat
                        }) == turns[channel as int].len() by {}
                        assert(self.params() == turns[channel as int].last());
                        assert(before.halted(
                            *self,
                            lanes as nat,
                            fed,
                            buffer@,
                            message,
                            channel as int,
                            taken,
                            done,
                            turns,
                        ));
                    }
                    let result = (ProcessStatus::Error(message), Ghost(done), Ghost(turns));
                    assert(result.1@ == done && result.2@ == turns);
                    return result;
                },
                _ => {},
            }
            proof {
                lemma_lane_advance(
                    carry0,
                    before.pending(),
                    fed[channel as int],
                    block_size,
                    start,
                    taken,
                    done[channel as int],
                    carry,
                    segment,
                    current,
                    mine,
                    segment2,
                    used,
                    next,
                    out,
                    status,
                );
                done = done.update(channel as int, done[channel as int] + out);
                assert forall|c: int| 0 <= c < lanes implies lane_progress(
                    before.buffer@[c]@,
                    before.pending(),
                    fed[c],
                    before.block_size as nat,
                    before.channel_processor@[c],
                    if c < channel + 1 {
                        taken + block_size
                    } else {
                        taken
                    },
                    #[trigger] done[c],
                    self.buffer@[c]@,
                    buffer@[c],
                    self.channel_processor@[c],
                    turns[c],
                ) by {
                    if c != channel {
                        assert(done[c] == earlier[c]);
                        assert(turns[c] == sooner[c]);
                        assert(self.buffer@[c] == now.buffer@[c]);
                        assert(buffer@[c] == returned[c]);
                        assert(self.channel_processor@[c] == now.channel_processor@[c]);
                    }
                }
            }
            channel += 1;
        }
        (ProcessStatus::Normal, Ghost(done), Ghost(turns))
    }

    /// Exchanges, in each of the first `lanes` channels, `count` samples of
    /// the buffer, from `index` on, with as many of the carry, from `at` on.
    fn swap_tail(&mut self, buffer: &mut Buffer<T>, lanes: usize, at: usize, index: usize, count: usize)
        requires
            old(self).shaped(old(self).block_size, old(self).channels),
            old(buffer).wf(),
            lanes <= old(self).channels,
            lanes <= old(buffer)@.len(),
            at + count <= old(self).block_size,
            index + count <= old(buffer).num_samples,
        ensures
            final(self).shaped(old(self).block_size, old(self).channels),
            final(self).overflow == old(self).overflow,
            final(self).channel_processor@ == old(self).channel_processor@,
            final(self).params_block == old(self).params_block,
            final(buffer).wf(),
            final(buffer).num_samples == old(buffer).num_samples,
            final(buffer)@.len() == old(buffer)@.len(),
            forall|c: int|
                0 <= c < lanes ==> (#[trigger] final(self).buffer@[c])@ == old(self).buffer@[c]@.take(
                    at as int,
                ) + old(buffer)@[c].subrange(index as int, index + count) + old(self).buffer@[c]@.skip(at + count),
            forall|c: int|
                0 <= c < lanes ==> #[trigger] final(buffer)@[c] == old(buffer)@[c].take(index as int)
                    + old(self).buffer@[c]@.subrange(at as int, at + count) + old(buffer)@[c].skip(
                    index + count,
                ),
            forall|c: int|
                lanes <= c < old(self).channels ==> #[trigger] final(self).buffer@[c] == old(self).buffer@[c],
            forall|c: int|
                lanes <= c < old(buffer)@.len() ==> #[trigger] final(buffer)@[c] == old(buffer)@[c],
    {
        let mut channel: usize = 0;
        while channel < lanes
            invariant
                channel <= lanes,
                self.shaped(old(self).block_size, old(self).channels),
                self.overflow == old(self).overflow,
                self.channel_processor@ == old(self).channel_processor@,
                self.params_block == old(self).params_block,
                buffer.wf(),
                buffer.num_samples == old(buffer).num_samples,
                buffer@.len() == old(buffer)@.len(),
                lanes <= self.channels,
                lanes <= buffer@.len(),
                at + count <= self.block_size,
                index + count <= buffer.num_samples,
                forall|c: int|
                    0 <= c < channel ==> (#[trigger] self.buffer@[c])@ == old(self).buffer@[c]@.take(
                        at as int,
                    ) + old(buffer)@[c].subrange(index as int, index + count) + old(self).buffer@[c]@.skip(at + count),
                forall|c: int|
                    0 <= c < channel ==> #[trigger] buffer@[c] == old(buffer)@[c].take(index as int)
                        + old(self).buffer@[c]@.subrange(at as int, at + count) + old(buffer)@[c].skip(index + count),
                forall|c: int|
                    channel <= c < self.channels ==> #[trigger] self.buffer@[c] == old(self).buffer@[c],
                forall|c: int|
                    channel <= c < buffer@.len() ==> #[trigger] buffer@[c] == old(buffer)@[c],
            decreases lanes - channel,
        {
            let ghost carries = self.buffer@;
            let ghost segments = buffer@;
            assert(carries[channel as int] == old(self).buffer@[channel as int]);
            assert(segments[channel as int] == old(buffer)@[channel as int]);
            swap_ranges(
                self.buffer[channel].as_mut_slice(),
                at,
                buffer.output_slices[channel].as_mut_slice(),
                index,
                count,
            );
            proof {
                assert forall|c: int|
                    0 <= c < buffer@.len() && c != channel implies #[trigger] buffer@[c]
                    == segments[c] by {}
                assert forall|c: int|
                    0 <= c < self.buffer@.len() && c != channel implies #[trigger] self.buffer@[c]
                    == carries[c] by {}
            }
            channel += 1;
        }
    }

    /// Processes a buffer in place.
    ///
    /// Each of the buffer's channels that there is a processor for accepts
    /// the channel's samples. Every block that becomes complete is handed to
    /// the processors, block by block and within a block channel by channel,
    /// after the parameter blocks have been refreshed. The buffer receives the
    /// samples that were owed, oldest first: what the carry held, then what
    /// the processors wrote.
    ///
    /// A buffer without channels is an error. An error that a processor
    /// reports ends the cycle at once and is returned; the carries and the
    /// buffer are then left as they were at that moment.
    pub fn process(&mut self, buffer: &mut Buffer<T>) -> (status: ProcessStatus)
        requires
            old(self).wf(),
            old(buffer).wf(),
        ensures
            final(self).wf(),
            final(self).block_size() == old(self).block_size(),
            final(self).channels() == old(self).channels(),
            final(buffer).wf(),
            final(buffer).spec_samples() == old(buffer).spec_samples(),
            old(self).kept(
                *final(self),
                old(self).active(old(buffer)@.len()),
                old(buffer)@,
                final(buffer)@,
            ),
            old(buffer)@.len() == 0 ==> status == ProcessStatus::Error("No channels") && final(self).pending() == old(self).pending(),
            old(buffer)@.len() > 0 ==> match status {
                ProcessStatus::Normal => {
                    &&& final(self).pending() == remaining(
                        old(self).pending(),
                        old(buffer).spec_samples(),
                        old(self).block_size(),
                    )
                    &&& exists|processed: Seq<Seq<T>>, turns: Seq<Seq<SCP::ParamsBlock>>|
                        old(self).served(
                            *final(self),
                            old(self).active(old(buffer)@.len()),
                            old(buffer)@,
                            final(buffer)@,
                            processed,
                            turns,
                        )
                },
                ProcessStatus::Error(message) => old(self).refused(
                    *final(self),
                    old(self).active(old(buffer)@.len()),
                    old(buffer)@,
                    final(buffer)@,
                    message,
                ),
                _ => false,
            },
    {
        let samples: usize = buffer.samples();
        let buffer_channels: usize = buffer.channels();
        if buffer_channels == 0 {
            return ProcessStatus::Error("No channels");
        }
        let lanes: usize = if buffer_channels < self.channels {
            buffer_channels
        } else {
            self.channels
        };
        let block_size: usize = self.block_size;
        let ghost before = *self;
        let ghost fed = buffer@;
        let ghost waiting = before.pending();
        let ghost mut processed: Seq<Seq<T>> = Seq::new(lanes as nat, |c: int| Seq::<T>::empty());
        let ghost mut turns: Seq<Seq<SCP::ParamsBlock>> = Seq::new(
            lanes as nat,
            |c: int| Seq::<SCP::ParamsBlock>::empty(),
        );
        let ghost mut taken: nat = 0;
        let ghost mut blocks: nat = 0;
        let mut index: usize = block_size - self.overflow;
        proof {
            assert forall|c: int| 0 <= c < lanes implies lane_progress(
                before.buffer@[c]@,
                before.pending(),
                fed[c],
                before.block_size as nat,
                before.channel_processor@[c],
                0,
                #[trigger] processed[c],
                self.buffer@[c]@,
                buffer@[c],
                self.channel_processor@[c],
                turns[c],
            ) by {
                let all = accepted(before.buffer@[c]@, before.pending(), fed[c]);
                assert(buffer@[c] =~= produced(before.buffer@[c]@, before.pending(), processed[c]).take(
                    0,
                ) + fed[c].skip(0));
                assert(all.take(0).len() == 0);
            }
            assert(refreshed_in_turn(before.params_block, turns));
            assert(self.progress(before, fed, buffer@, lanes as nat, 0, 0, 0, processed, turns, 0));
        }
        if index != 0 {
            if samples < index {
                let at: usize = self.overflow;
                self.swap_tail(buffer, lanes, at, 0, samples);
                self.overflow = at + samples;
                proof {
                    lemma_taken_is_completed(waiting, samples as nat, block_size as nat, 0, 0);
                    assert forall|c: int| 0 <= c < lanes implies before.lane_served(
                        *self,
                        c,
                        fed[c],
                        buffer@[c],
                        #[trigger] processed[c],
                        turns[c],
                    ) by {
                        lemma_lane_finish(
                            before.buffer@[c]@,
                            waiting,
                            fed[c],
                            block_size as nat,
                            before.channel_processor@[c],
                            0,
                            processed[c],
                            before.buffer@[c]@,
                            fed[c],
                            before.channel_processor@[c],
                            turns[c],
                            self.buffer@[c]@,
                            buffer@[c],
                        );
                    }
                    assert(before.served(*self, lanes as nat, fed, buffer@, processed, turns));
                }
                return ProcessStatus::Normal;
            }
            let at: usize = self.overflow;
            let (status, done, given) = self.run_block(
                buffer,
                lanes,
                0,
                at,
                Ghost(before),
                Ghost(fed),
                Ghost(taken),
                Ghost(blocks),
                Ghost(processed),
                Ghost(turns),
            );
            match status {
                ProcessStatus::Error(message) => {
                    return ProcessStatus::Error(message);
                },
                _ => {},
            }
            self.overflow = block_size;
            proof {
                processed = done@;
                turns = given@;
                taken = block_size as nat;
                blocks = 1;
                assert(self.progress(
                    before,
                    fed,
                    buffer@,
                    lanes as nat,
                    0,
                    taken,
                    taken,
                    processed,
                    turns,
                    blocks,
                ));
            }
        }
        while samples - index >= block_size
            invariant
                before.wf(),
                before == *old(self),
                fed == old(buffer)@,
                fed.len() > 0,
                samples == old(buffer).num_samples,
                waiting == before.pending(),
                block_size == before.block_size,
                block_size > 0,
                self.shaped(before.block_size, before.channels),
                self.overflow == (if taken == 0 {
                    before.overflow
                } else {
                    block_size
                }),
                buffer.wf(),
                buffer.num_samples == samples,
                buffer@.len() == fed.len(),
                lanes == before.active(fed.len()),
                0 < lanes <= before.channels,
                lanes <= buffer@.len(),
                forall|c: int| 0 <= c < lanes ==> (#[trigger] fed[c]).len() == samples,
                self.progress(
                    before,
                    fed,
                    buffer@,
                    lanes as nat,
                    0,
                    taken,
                    taken,
                    processed,
                    turns,
                    blocks,
                ),
                self.rest_kept(before, fed, buffer@, lanes as nat),
                taken == blocks * block_size,
                index <= samples,
                index == (if taken == 0 {
                    0
                } else {
                    taken - waiting
                }),
                taken == 0 ==> waiting == 0,
                taken <= waiting + samples,
            decreases samples - index,
        {
            let (status, done, given) = self.run_block(
                buffer,
                lanes,
                index,
                0,
                Ghost(before),
                Ghost(fed),
                Ghost(taken),
                Ghost(blocks),
                Ghost(processed),
                Ghost(turns),
            );
            match status {
                ProcessStatus::Error(message) => {
                    return ProcessStatus::Error(message);
                },
                _ => {},
            }
            index = index + block_size;
            proof {
                assert((blocks + 1) * block_size == blocks * block_size + block_size)
                    by (nonlinear_arith);
                processed = done@;
                turns = given@;
                taken = taken + block_size as nat;
                blocks = blocks + 1;
                assert(self.progress(
                    before,
                    fed,
                    buffer@,
                    lanes as nat,
                    0,
                    taken,
                    taken,
                    processed,
                    turns,
                    blocks,
                ));
            }
        }
        let ghost carries = self.buffer@;
        let ghost segments = buffer@;
        let ghost at_hand = self.params_block;
        proof {
            assert(at_hand == (if blocks > 0 {
                turns[lanes - 1][blocks - 1]
            } else {
                before.params_block
            }));
            assert(forall|c: int| 0 <= c < lanes ==> (#[trigger] turns[c]).len() == blocks);
            assert(refreshed_in_turn(before.params_block, turns));
        }
        if index != samples {
            let count: usize = samples - index;
            self.swap_tail(buffer, lanes, 0, index, count);
            self.overflow = count;
        }
        proof {
            lemma_taken_is_completed(waiting, samples as nat, block_size as nat, taken, blocks);
            assert forall|c: int| 0 <= c < lanes implies before.lane_served(
                *self,
                c,
                fed[c],
                buffer@[c],
                #[trigger] processed[c],
                turns[c],
            ) by {
                let carry = carries[c]@;
                let segment = segments[c];
                assert(lane_progress(
                    before.buffer@[c]@,
                    waiting,
                    fed[c],
                    block_size as nat,
                    before.channel_processor@[c],
                    taken,
                    processed[c],
                    carry,
                    segment,
                    self.channel_processor@[c],
                    turns[c],
                ));
                if index == samples {
                    assert(carry =~= carry.take(0) + segment.subrange(
                        index as int,
                        samples as int,
                    ) + carry.skip(0));
                    assert(segment =~= segment.take(index as int) + carry.subrange(0, 0)
                        + segment.skip(samples as int));
                }
                lemma_lane_finish(
                    before.buffer@[c]@,
                    waiting,
                    fed[c],
                    block_size as nat,
                    before.channel_processor@[c],
                    taken,
                    processed[c],
                    carry,
                    segment,
                    self.channel_processor@[c],
                    turns[c],
                    self.buffer@[c]@,
                    buffer@[c],
                );
            }
            assert(self.params() == at_hand);
            assert(before.served(*self, lanes as nat, fed, buffer@, processed, turns));
        }
        ProcessStatus::Normal
    }
}

} // verus!
