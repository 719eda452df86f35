//! Protocol parameters and the values derived from them.
//!
//! A protocol instance is parameterised by the slot size (bytes per
//! application message) and the window size (slots carried per datagram).
//! Everything else — datagram length, the cycle modulus, the receiver's
//! ring size — is derived here.

use vstd::prelude::*;

verus! {

/// Error surfaced when a component is constructed with a parameter pair
/// outside the supported set.
#[derive(Clone, Copy, Debug, PartialEq, Eq, Structural)]
pub enum ProtocolError {
    InvalidParameters,
}

/// The supported parameter pairs: slot sizes of 8, 16, 32, 64 or 128 bytes,
/// window sizes of 1 or 3 slots.  Every supported pair keeps the whole
/// datagram (4-byte header plus the slots) under 420 bytes.
pub open spec fn params_supported(size: usize, window_size: usize) -> bool {
    &&& (size == 8 || size == 16 || size == 32 || size == 64 || size == 128)
    &&& (window_size == 1 || window_size == 3)
}

/// A validated parameter pair together with spec-level views of the
/// derived constants.
#[derive(Clone, Copy, Debug, PartialEq, Eq, Structural)]
pub struct Constants {
    pub size: usize,
    pub window_size: usize,
}

impl Constants {
    /// Whether this parameter pair is one of the supported ones.
    pub open spec fn wf(self) -> bool {
        params_supported(self.size, self.window_size)
    }

    /// Bytes in one datagram: 2-byte cycle, 2-byte timestamp, then the slots.
    pub open spec fn spec_datagram_size(self) -> int {
        4 + self.size * self.window_size
    }

    /// The cycle counter wraps at this value, the largest multiple of the
    /// window size that a 16-bit cycle field can hold, so that
    /// `cycle % window_size` is preserved across the wrap.
    pub open spec fn spec_max_cycle(self) -> int {
        (65535int / self.window_size as int) * self.window_size as int
    }

    /// Length of the receiver's delivery-tracking ring.
    pub open spec fn spec_max_buffered(self) -> int {
        if self.window_size < 4 {
            8
        } else {
            2 * self.window_size as int
        }
    }

    /// Validates a parameter pair.
    pub fn new(size: usize, window_size: usize) -> (r: Result<Constants, ProtocolError>)
        ensures
            params_supported(size, window_size) <==> r is Ok,
            r is Ok ==> r->Ok_0 == (Constants { size, window_size }),
            r is Err ==> r->Err_0 == ProtocolError::InvalidParameters,
    {
        let size_ok = size == 8 || size == 16 || size == 32 || size == 64 || size == 128;
        let window_ok = window_size == 1 || window_size == 3;
        if size_ok && window_ok {
            Ok(Constants { size, window_size })
        } else {
            Err(ProtocolError::InvalidParameters)
        }
    }

    pub fn datagram_size(&self) -> (r: usize)
        requires
            self.wf(),
        ensures
            r == self.spec_datagram_size(),
    {
        4 + self.size * self.window_size
    }

    pub fn max_cycle(&self) -> (r: usize)
        requires
            self.wf(),
        ensures
            r == self.spec_max_cycle(),
    {
        (65535 / self.window_size) * self.window_size
    }

    pub fn max_buffered(&self) -> (r: usize)
        requires
            self.wf(),
        ensures
            r == self.spec_max_buffered(),
    {
        if self.window_size < 4 {
            8
        } else {
            2 * self.window_size
        }
    }
}

/// Numeric facts about the derived constants that the components lean on.
pub proof fn lemma_constants_bounds(c: Constants)
    requires
        c.wf(),
    ensures
        c.spec_datagram_size() < 420,
        c.spec_max_cycle() == 65535,
        c.spec_max_buffered() == 8,
        c.spec_datagram_size() == 4 + c.size * c.window_size,
{
}

} // verus!
