//! Where audio comes from: what the server captures, and what a client receives
//! from the network.
use vstd::prelude::*;

pub mod librespot;
pub mod network;
pub mod pipe;
pub mod pulse;

verus! {

/// Format of an interleaved-sample stream. Assumed stable for the lifetime of
/// a given source.
#[derive(Clone, Copy, Debug, PartialEq, Eq, Structural)]
pub struct Format {
    pub channels: u16,
    pub sample_rate: u32,
}

} // verus!
