//! The producer-side callback contract.
//!
//! A `Source` is polled once per tick with the slot buffer to fill.  It
//! either populates the slot and reports `true`, or reports `false` to say
//! "no message this tick" (the sender then zero-fills the slot).

use vstd::prelude::*;
use vstd::bytes::{spec_u64_to_le_bytes, lemma_auto_spec_u64_to_from_le_bytes};
use crate::bytes::write_u64_at;

verus! {

/// Supplies outgoing application messages, one per producing tick.
pub trait Source: Sized {
    /// The messages this source has produced so far, newest last.
    spec fn produced(&self) -> Seq<Seq<u8>>;

    /// Whether the next poll, handed a buffer of `len` bytes, will produce
    /// a message.  A function of the source's abstract state alone, so a
    /// caller's contract can say which way a poll goes.
    spec fn ready(&self, len: nat) -> bool;

    /// Populates `buffer` with the next message and returns `true`, or
    /// returns `false` when there is nothing to send this tick.  Must not
    /// change the buffer's length; answers exactly as `ready` foretells,
    /// and records exactly one message in `produced` per producing poll.
    fn poll(&mut self, buffer: &mut Vec<u8>) -> (r: bool)
        ensures
            final(buffer)@.len() == old(buffer)@.len(),
            r == old(self).ready(old(buffer)@.len()),
            r ==> final(self).produced() == old(self).produced().push(final(buffer)@),
            !r ==> final(self).produced() == old(self).produced(),
    ;
}

/// A source that emits a monotonically increasing `u64` counter, starting
/// at 1, once every `period` polls, as the first eight (little-endian)
/// bytes of the slot.
pub struct CounterSource {
    counter: u64,
    accumulator: u64,
    period: u64,
    history: Ghost<Seq<Seq<u8>>>,
}

impl CounterSource {
    /// The last counter value emitted (0 before the first).
    pub closed spec fn spec_count(&self) -> u64 {
        self.counter
    }

    /// How many times this source has been polled.
    pub closed spec fn spec_polls(&self) -> u64 {
        self.accumulator
    }

    /// The emission period: one message every `period` polls.
    pub closed spec fn spec_period(&self) -> u64 {
        self.period
    }

    pub fn new(period: u64) -> (r: CounterSource)
        requires
            period >= 1,
        ensures
            r.spec_count() == 0,
            r.spec_polls() == 0,
            r.spec_period() == period,
            r.produced() == Seq::<Seq<u8>>::empty(),
    {
        CounterSource { counter: 0, accumulator: 0, period, history: Ghost(Seq::empty()) }
    }

    pub fn count(&self) -> (r: u64)
        ensures
            r == self.spec_count(),
    {
        self.counter
    }
}

impl Source for CounterSource {
    closed spec fn produced(&self) -> Seq<Seq<u8>> {
        self.history@
    }

    open spec fn ready(&self, len: nat) -> bool {
        &&& self.spec_period() >= 1
        &&& ((self.spec_polls() + 1) % 0x1_0000_0000_0000_0000) % (self.spec_period() as int) == 0
        &&& len >= 8
    }

    fn poll(&mut self, buffer: &mut Vec<u8>) -> (r: bool)
        ensures
            final(buffer)@.len() == old(buffer)@.len(),
            r == old(self).ready(old(buffer)@.len()),
            r ==> final(self).produced() == old(self).produced().push(final(buffer)@),
            !r ==> final(self).produced() == old(self).produced(),
            r ==> final(self).spec_count() == (old(self).spec_count() + 1) % 0x1_0000_0000_0000_0000,
            !r ==> final(self).spec_count() == old(self).spec_count(),
            r ==> old(buffer)@.len() >= 8,
            r ==> final(buffer)@.subrange(0, 8)
                == spec_u64_to_le_bytes(final(self).spec_count()),
            r ==> (forall|i: int| 8 <= i < old(buffer)@.len()
                ==> final(buffer)@[i] == old(buffer)@[i]),
            final(self).spec_period() == old(self).spec_period(),
            final(self).spec_polls() == (old(self).spec_polls() + 1) % 0x1_0000_0000_0000_0000,
    {
        self.accumulator = self.accumulator.wrapping_add(1);
        if self.period >= 1 && self.accumulator % self.period == 0 && buffer.len() >= 8 {
            self.counter = self.counter.wrapping_add(1);
            proof {
                lemma_auto_spec_u64_to_from_le_bytes();
            }
            write_u64_at(buffer, 0, self.counter);
            proof {
                self.history@ = self.history@.push(buffer@);
            }
            true
        } else {
            false
        }
    }
}

} // verus!
