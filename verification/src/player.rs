//! Generic playback of any source into the output device.
use vstd::prelude::*;

verus! {

/// Small device buffer: it keeps the standing downstream backlog low so that the
/// latency from pause to silence stays short (~11ms at 44.1 kHz).
pub const DEVICE_BUFFER_FRAMES: u32 = 512;

/// If the output queue grows beyond this many buffers, the source is feeding faster
/// than the sound card drains it, so buffered latency is accumulating. A block is
/// dropped to bring the queue back toward empty rather than let latency creep up
/// unbounded.
pub const MAX_QUEUED_BUFFERS: usize = 60;

/// Whether a block of so many samples is played: not when it is empty, nor when the
/// output queue is already too deep.
pub fn takes_block(samples: usize, queued: usize) -> (r: bool)
    ensures
        r == (samples > 0 && queued <= MAX_QUEUED_BUFFERS),
        samples == 0 || queued > 60 ==> !r,
        samples > 0 && queued <= 60 ==> r,
{
    samples > 0 && queued <= MAX_QUEUED_BUFFERS
}

} // verus!
