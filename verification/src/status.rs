//! The outcome of a processing cycle.

use vstd::prelude::*;

verus! {

/// The situation after a stretch of audio has been processed.
#[derive(Debug, Clone, Copy, PartialEq, Eq)]
pub enum ProcessStatus {
    /// Something went wrong; the message says what.
    Error(&'static str),
    /// The audio was processed.
    Normal,
    /// The processor has a tail of this many samples.
    Tail(u32),
    /// The processor keeps producing sound whatever the input is.
    KeepAlive,
}

} // verus!
