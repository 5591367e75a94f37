//! The audio handed over for one processing cycle.

use vstd::prelude::*;

verus! {

/// The audio of one processing cycle: some channels, each with the same
/// number of samples.
pub struct Buffer<T> {
    pub(crate) num_samples: usize,
    pub(crate) output_slices: Vec<Vec<T>>,
}

impl<T> Buffer<T> {
    /// The samples, channel by channel.
    pub open(crate) spec fn view(&self) -> Seq<Seq<T>> {
        Seq::new(self.output_slices@.len(), |c: int| self.output_slices@[c]@)
    }

    /// The number of samples of each channel.
    pub open(crate) spec fn spec_samples(&self) -> nat {
        self.num_samples as nat
    }

    /// Every channel has the buffer's number of samples.
    pub open(crate) spec fn wf(&self) -> bool {
        forall|c: int|
            0 <= c < self.output_slices@.len() ==> (#[trigger] self.output_slices@[c])@.len()
                == self.num_samples
    }

    /// What follows from `wf` for the view.
    pub proof fn lemma_wf(&self)
        requires
            self.wf(),
        ensures
            forall|c: int| 0 <= c < self@.len() ==> (#[trigger] self@[c]).len() == self.spec_samples(),
    {
    }

    /// A buffer over the given channels, if each of them has `num_samples`
    /// samples.
    pub fn from_channels(num_samples: usize, channels: Vec<Vec<T>>) -> (buffer: Option<Self>)
        ensures
            buffer is Some <==> forall|c: int|
                0 <= c < channels@.len() ==> (#[trigger] channels@[c])@.len() == num_samples,
            buffer matches Some(b) ==> b.wf() && b.spec_samples() == num_samples && b@
                == Seq::new(channels@.len(), |c: int| channels@[c]@),
    {
        let mut c: usize = 0;
        while c < channels.len()
            invariant
                c <= channels@.len(),
                forall|k: int| 0 <= k < c ==> (#[trigger] channels@[k])@.len() == num_samples,
            decreases channels@.len() - c,
        {
            if channels[c].len() != num_samples {
                return None;
            }
            c += 1;
        }
        Some(Buffer { num_samples, output_slices: channels })
    }

    /// The number of samples per channel.
    pub fn samples(&self) -> (samples: usize)
        ensures
            samples == self.spec_samples(),
    {
        self.num_samples
    }

    /// The number of channels.
    pub fn channels(&self) -> (channels: usize)
        ensures
            channels == self@.len(),
    {
        self.output_slices.len()
    }

    /// Whether the buffer holds no samples.
    pub fn is_empty(&self) -> (empty: bool)
        ensures
            empty <==> self.spec_samples() == 0,
    {
        self.num_samples == 0
    }

    /// The channels, for reading.
    pub fn as_slice_immutable(&self) -> (channels: &Vec<Vec<T>>)
        ensures
            channels@.len() == self@.len(),
            forall|c: int| 0 <= c < self@.len() ==> (#[trigger] channels@[c])@ == self@[c],
    {
        &self.output_slices
    }

    /// Gives the channels back.
    pub fn into_channels(self) -> (channels: Vec<Vec<T>>)
        ensures
            channels@.len() == self@.len(),
            forall|c: int| 0 <= c < self@.len() ==> (#[trigger] channels@[c])@ == self@[c],
    {
        self.output_slices
    }
}

} // verus!
