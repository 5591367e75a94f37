//! Block-based signal processing: a segmenter that turns buffers of any length
//! into blocks of one fixed size, an overlap-add wrapper, and a fast cosine
//! transform with its lapped variant.
//!
//! The sample type is a parameter throughout. Samples are copied, and where
//! they are computed with, they are added, subtracted and multiplied with
//! the operators of their type. A contract says what such arithmetic gives
//! only under the condition that the operators are functions of their
//! operands; what it says of the movement of samples holds of every type.
//!
//! Coefficient tables are computed once, at construction, from numbers and
//! functions that the caller supplies through [`Reals`]: a sine, a cosine and
//! the like, in the sample type. Nothing is asked of these. Of a table the
//! contracts say its shape and, for each coefficient, which of these
//! functions gave it and what it was given.
//!
//! A processor or a window of the caller's own is a type that implements the
//! trait for it. Each of these traits has a relation that says which steps
//! the type can take; a type that does not state it allows every step, and
//! the contracts of the library then hold of whatever the type does.

pub mod algorithms;
pub mod buffer;
pub mod dct;
pub mod filter;
pub mod lane;
pub mod mdct;
pub mod misc;
pub mod plotter;
pub mod processor;
pub mod sample;
pub mod segmenter;
pub mod status;
pub mod stream;
pub mod window;

pub use algorithms::{Process, WindowedProcess};
pub use buffer::Buffer;
pub use dct::DCT;
pub use mdct::MDCT;
pub use misc::rescale_normalized_value;
pub use plotter::PlotType;
pub use processor::{ParamsBlock, SingleChannelProcessor};
pub use segmenter::DspCoreProcessor;
pub use sample::{Reals, Sample};
pub use status::ProcessStatus;
pub use window::{HannWindow, SignalWindow, SineWindow};
