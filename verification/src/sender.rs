//! The windowed, cycle-advancing producer.
//!
//! Each tick the sender writes its current cycle and the tick's timestamp
//! into the datagram header, encrypts the header, polls its source into the
//! slot indexed by `cycle % window_size`, and — if any slot of the window
//! still carries a real message — advances the cycle and hands out the
//! whole datagram.  Slots from the previous `window_size - 1` cycles stay
//! in the buffer, which is how each message is retransmitted for
//! redundancy.

use vstd::prelude::*;
use vstd::bytes::{spec_u32_to_le_bytes, lemma_auto_spec_u32_to_from_le_bytes,
    u32_to_le_bytes};
use crate::bytes::{all_zero, sub_vec, write_bytes_at, zero_range};
use crate::cipher::{header_block_encrypt, slot_encrypt_bytes, Cipher};
use crate::constants::{params_supported, Constants, ProtocolError};
use crate::source::Source;
use vstd::std_specs::vec::vec_index_mut;

verus! {

/// The 4 header bytes a sender emits for a given cycle and timestamp: the
/// little-endian pair (cycle, timestamp) encrypted as one block.
pub open spec fn header_cipher_bytes(key: u64, cycle: int, timestamp: u16) -> Seq<u8> {
    spec_u32_to_le_bytes(header_block_encrypt(key, (cycle + 0x10000 * timestamp) as u32))
}

/// The byte offset of the slot that carries the message of `cycle`.
pub open spec fn slot_start(c: Constants, cycle: int) -> int {
    4 + c.size * (cycle % (c.window_size as int))
}

/// The sender half of a protocol session.  It owns its `Source`.
pub struct Sender<SourceType: Source> {
    constants: Constants,
    cipher: Cipher,
    source: SourceType,
    cycle: usize,
    flags: Vec<bool>,
    buffer: Vec<u8>,
}

impl<SourceType: Source> Sender<SourceType> {
    /// The validated parameter pair.
    pub closed spec fn spec_constants(&self) -> Constants {
        self.constants
    }

    /// The shared session key.
    pub closed spec fn spec_key(&self) -> u64 {
        self.cipher.spec_key()
    }

    /// The cycle of the next slot to be produced.
    pub closed spec fn spec_cycle(&self) -> int {
        self.cycle as int
    }

    /// Which slots of the window currently hold a real message.
    pub closed spec fn spec_flags(&self) -> Seq<bool> {
        self.flags@
    }

    /// The outgoing datagram buffer.
    pub closed spec fn spec_buffer(&self) -> Seq<u8> {
        self.buffer@
    }

    /// The owned source.
    pub closed spec fn spec_source(&self) -> SourceType {
        self.source
    }

    /// Structural invariant: supported parameters, cycle in range, buffer
    /// and flag ring at their fixed sizes.  The sizes never change, however
    /// many datagrams are produced.
    pub open spec fn wf(&self) -> bool {
        &&& self.spec_constants().wf()
        &&& 0 <= self.spec_cycle() < self.spec_constants().spec_max_cycle()
        &&& self.spec_flags().len() == self.spec_constants().window_size
        &&& self.spec_buffer().len() == self.spec_constants().spec_datagram_size()
    }

    /// Constructs a sender with a zeroed buffer, all-false flags and cycle
    /// 0, or fails with `InvalidParameters` on an unsupported pair.
    pub fn new(size: usize, window_size: usize, key: u64, source: SourceType)
        -> (r: Result<Sender<SourceType>, ProtocolError>)
        ensures
            params_supported(size, window_size) <==> r is Ok,
            r is Err ==> r->Err_0 == ProtocolError::InvalidParameters,
            r is Ok ==> {
                let s = r->Ok_0;
                &&& s.wf()
                &&& s.spec_constants() == (Constants { size, window_size })
                &&& s.spec_key() == key
                &&& s.spec_cycle() == 0
                &&& s.spec_flags().len() == window_size
                &&& forall|j: int| 0 <= j < s.spec_flags().len() ==> !s.spec_flags()[j]
                &&& all_zero(s.spec_buffer())
                &&& s.spec_source() == source
            },
    {
        let constants = match Constants::new(size, window_size) {
            Ok(c) => c,
            Err(e) => {
                return Err(e);
            },
        };
        let ds = constants.datagram_size();
        let flags: Vec<bool> = vec![false; window_size];
        let buffer: Vec<u8> = vec![0u8; ds];
        Ok(Sender { constants, cipher: Cipher::new(key), source, cycle: 0, flags, buffer })
    }

    /// The current sender cycle: the cycle of the next slot to be produced.
    pub fn cycle(&self) -> (r: usize)
        ensures
            r == self.spec_cycle(),
    {
        self.cycle
    }

    /// Read access to the owned source.
    pub fn source(&self) -> (r: &SourceType)
        ensures
            *r == self.spec_source(),
    {
        &self.source
    }

    /// One tick.  Writes and encrypts the header, polls the source —
    /// exactly once, on the slot indexed by `cycle % window_size` — and
    /// either encrypts the message it produced into that slot or zeroes
    /// the slot, as the source's `ready` state dictates.  Returns a copy
    /// of the datagram, advancing the cycle, exactly when some slot of the
    /// window holds a real message.  (The buffer itself is fixed-size; the
    /// returned copy is a per-call temporary whose size the constants
    /// pin.)
    #[verifier::rlimit(60)]
    #[verifier::spinoff_prover]
    pub fn poll_datagram(&mut self, timestamp: u16) -> (r: Option<Vec<u8>>)
        requires
            old(self).wf(),
        ensures
            final(self).wf(),
            final(self).spec_constants() == old(self).spec_constants(),
            final(self).spec_key() == old(self).spec_key(),
            final(self).spec_buffer().subrange(0, 4)
                == header_cipher_bytes(old(self).spec_key(), old(self).spec_cycle(), timestamp),
            forall|i: int|
                4 <= i < old(self).spec_constants().spec_datagram_size()
                    && !(slot_start(old(self).spec_constants(), old(self).spec_cycle()) <= i
                        < slot_start(old(self).spec_constants(), old(self).spec_cycle())
                            + old(self).spec_constants().size)
                    ==> final(self).spec_buffer()[i] == old(self).spec_buffer()[i],
            forall|j: int|
                0 <= j < old(self).spec_constants().window_size
                    && j != old(self).spec_cycle() % (old(self).spec_constants().window_size as int)
                    ==> final(self).spec_flags()[j] == old(self).spec_flags()[j],
            final(self).spec_flags()[old(self).spec_cycle()
                % (old(self).spec_constants().window_size as int)]
                == old(self).spec_source().ready(old(self).spec_constants().size as nat),
            ({
                let c = old(self).spec_constants();
                let idx = old(self).spec_cycle() % (c.window_size as int);
                let start = slot_start(c, old(self).spec_cycle());
                let produced_new = final(self).spec_source().produced();
                final(self).spec_flags()[idx] ==> {
                    &&& produced_new == old(self).spec_source().produced().push(produced_new.last())
                    &&& produced_new.last().len() == c.size
                    &&& final(self).spec_buffer().subrange(start, start + c.size)
                        == slot_encrypt_bytes(old(self).spec_key(), produced_new.last())
                }
            }),
            ({
                let c = old(self).spec_constants();
                let idx = old(self).spec_cycle() % (c.window_size as int);
                let start = slot_start(c, old(self).spec_cycle());
                !final(self).spec_flags()[idx] ==> {
                    &&& final(self).spec_source().produced() == old(self).spec_source().produced()
                    &&& all_zero(final(self).spec_buffer().subrange(start, start + c.size))
                }
            }),
            (r is Some) <==> exists|j: int|
                0 <= j < old(self).spec_constants().window_size && final(self).spec_flags()[j],
            r is Some ==> r->0@ == final(self).spec_buffer(),
            r is Some ==> final(self).spec_cycle()
                == (old(self).spec_cycle() + 1) % old(self).spec_constants().spec_max_cycle(),
            r is None ==> final(self).spec_cycle() == old(self).spec_cycle(),
    {
        let w = self.constants.window_size;
        let sz = self.constants.size;
        let m = self.constants.max_cycle();

        // Header: cycle and timestamp, little-endian, encrypted as one block.
        let hv: u32 = (self.cycle as u32) + (timestamp as u32) * 0x10000;
        let mut hb = u32_to_le_bytes(hv);
        proof {
            lemma_auto_spec_u32_to_from_le_bytes();
        }
        self.cipher.encrypt_header(&mut hb);
        write_bytes_at(&mut self.buffer, 0, &hb);

        // Poll the source into this cycle's slot.
        let idx = self.cycle % w;
        let start = 4 + sz * idx;
        let end = start + sz;
        let mut slot = sub_vec(&self.buffer, start, end);
        let polled = self.source.poll(&mut slot);
        let ghost polled_msg = slot@;
        proof {
            assert(polled == old(self).spec_source().ready(sz as nat));
        }
        if polled {
            proof {
                assert(self.source.produced() =~= old(self).spec_source().produced().push(polled_msg));
                assert(self.source.produced().last() == polled_msg);
                assert(polled_msg.len() == sz as int);
            }
            self.cipher.encrypt_slot(&mut slot);
            write_bytes_at(&mut self.buffer, start, &slot);
            *vec_index_mut(&mut self.flags, idx) = true;
        } else {
            zero_range(&mut self.buffer, start, end);
            *vec_index_mut(&mut self.flags, idx) = false;
        }

        // Transmit — and advance the cycle — only if the window still
        // carries at least one real message.
        let mut any = false;
        let mut j: usize = 0;
        while j < w
            invariant
                0 <= j <= w,
                w == self.spec_flags().len(),
                any <==> exists|k: int| 0 <= k < j && self.spec_flags()[k],
            decreases w - j,
        {
            if self.flags[j] {
                any = true;
            }
            j = j + 1;
        }
        if any {
            self.cycle = (self.cycle + 1) % m;
            Some(self.buffer.clone())
        } else {
            None
        }
    }
}

} // verus!
