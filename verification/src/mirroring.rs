//! The mirroring flavours.
//!
//! Each outgoing datagram is replicated over one socket per flavour, each
//! marked with a different QoS class; heartbeats name the flavour so the
//! server can route every mirrored path.  The flavour travels on the wire
//! as a single byte index.

use vstd::prelude::*;

verus! {

/// One mirrored network path, distinguished by its QoS marking.
#[derive(Clone, Copy, Debug, PartialEq, Eq, Structural)]
pub enum Mirroring {
    AudioVideo,
    Background,
    Voice,
}

/// Number of mirroring flavours.
pub const MIRRORING_COUNT: usize = 3;

impl Mirroring {
    /// The wire index of this flavour.
    pub open spec fn spec_index(self) -> int {
        match self {
            Mirroring::AudioVideo => 0,
            Mirroring::Background => 1,
            Mirroring::Voice => 2,
        }
    }

    /// The wire index of this flavour.
    pub fn into_usize(self) -> (r: usize)
        ensures
            r == self.spec_index(),
    {
        match self {
            Mirroring::AudioVideo => 0,
            Mirroring::Background => 1,
            Mirroring::Voice => 2,
        }
    }

    /// The flavour of a wire index; `None` exactly for indices out of
    /// range.
    pub fn from_usize(i: usize) -> (r: Option<Mirroring>)
        ensures
            (r is Some) <==> i < MIRRORING_COUNT,
            r is Some ==> r->0.spec_index() == i,
    {
        match i {
            0 => Some(Mirroring::AudioVideo),
            1 => Some(Mirroring::Background),
            2 => Some(Mirroring::Voice),
            _ => None,
        }
    }
}

} // verus!
