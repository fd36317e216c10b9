//! Sample-playback engine of a 909-style drum machine: one-shot sample
//! cursors, interleaved-audio splitting and the voice bookkeeping that turns
//! note events into the sample positions to mix for each output frame.
use vstd::prelude::*;

pub mod loaded_sample;
pub mod one_nine;
pub mod playing_sample;
pub mod wav;

verus! {

} // verus!
