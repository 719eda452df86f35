//! The deduplicating, out-of-order-tolerant consumer.
//!
//! The receiver tracks the lowest still-pending cycle and a ring of
//! "already delivered" flags over the buffered window.  Each incoming
//! datagram is validated against cycle and timestamp thresholds, may
//! fast-forward the window past abandoned cycles, delivers every slot that
//! is new, within the buffered window and not a zero-fill, and finally
//! drains the delivered prefix, advancing the cycle strictly monotonically.
//!
//! The whole transition is captured by the spec function `receiver_step`;
//! `handle_datagram` is proved to implement it exactly.
//!
//! All state is fixed-size once the parameters are chosen.  The header and
//! each delivered slot are decrypted on small per-call copies rather than
//! in place, so the incoming datagram is left as it arrived; the copies'
//! sizes are pinned by the constants.

use vstd::prelude::*;
use vstd::bytes::{spec_u32_from_le_bytes, spec_u32_to_le_bytes,
    lemma_auto_spec_u32_to_from_le_bytes};
use crate::bytes::{all_zero, range_all_zero, read_u64_at, sub_vec};
use crate::bytes::read_u32_at;
use crate::cipher::{header_block_decrypt, header_block_encrypt, slot_decrypt_bytes, Cipher};
use crate::constants::{params_supported, Constants, ProtocolError};
use vstd::std_specs::vec::vec_index_mut;

verus! {

/// Consumes delivered application messages, one call per message.
pub trait Sink: Sized {
    /// The messages this sink has received so far, oldest first.
    spec fn received(&self) -> Seq<Seq<u8>>;

    /// Consumes exactly one delivered message.
    fn handle(&mut self, message: &Vec<u8>)
        ensures
            final(self).received() == old(self).received().push(message@),
    ;
}

/// A sink that keeps the largest `u64` counter seen in the first eight
/// (little-endian) bytes of any delivered message, and how many messages
/// it has been handed in all.
pub struct MaxCounterSink {
    counter: u64,
    handled: u64,
    history: Ghost<Seq<Seq<u8>>>,
}

impl MaxCounterSink {
    /// The largest counter received so far (0 before the first).
    pub closed spec fn spec_count(&self) -> u64 {
        self.counter
    }

    /// How many messages have been delivered to this sink.
    pub closed spec fn spec_handled(&self) -> u64 {
        self.handled
    }

    pub fn new() -> (r: MaxCounterSink)
        ensures
            r.spec_count() == 0,
            r.spec_handled() == 0,
            r.received() == Seq::<Seq<u8>>::empty(),
    {
        MaxCounterSink { counter: 0, handled: 0, history: Ghost(Seq::empty()) }
    }

    pub fn count(&self) -> (r: u64)
        ensures
            r == self.spec_count(),
    {
        self.counter
    }

    pub fn handled(&self) -> (r: u64)
        ensures
            r == self.spec_handled(),
    {
        self.handled
    }
}

impl Sink for MaxCounterSink {
    closed spec fn received(&self) -> Seq<Seq<u8>> {
        self.history@
    }

    fn handle(&mut self, message: &Vec<u8>)
        ensures
            final(self).received() == old(self).received().push(message@),
            final(self).spec_handled() == (old(self).spec_handled() + 1) % 0x1_0000_0000_0000_0000,
            final(self).spec_count() == ({
                let seen = vstd::bytes::spec_u64_from_le_bytes(message@.subrange(0, 8));
                if message@.len() >= 8 && seen > old(self).spec_count() {
                    seen
                } else {
                    old(self).spec_count()
                }
            }),
    {
        self.handled = self.handled.wrapping_add(1);
        if message.len() >= 8 {
            let v = read_u64_at(message, 0);
            if v > self.counter {
                self.counter = v;
            }
        }
        proof {
            self.history@ = self.history@.push(message@);
        }
    }
}

/// How many entries of `s` are `true`.
pub open spec fn count_true(s: Seq<bool>) -> nat
    decreases s.len(),
{
    if s.len() == 0 {
        0
    } else {
        (if s[0] {
            1nat
        } else {
            0nat
        }) + count_true(s.skip(1))
    }
}

pub proof fn lemma_count_true_update_false(s: Seq<bool>, i: int)
    requires
        0 <= i < s.len(),
        s[i],
    ensures
        count_true(s.update(i, false)) < count_true(s),
    decreases s.len(),
{
    if i == 0 {
        assert(s.update(0, false).skip(1) =~= s.skip(1));
    } else {
        assert(s.update(i, false).skip(1) =~= s.skip(1).update(i - 1, false));
        lemma_count_true_update_false(s.skip(1), i - 1);
    }
}

/// `k` fast-forward steps: each clears the flag of the current cycle and
/// advances the cycle by one (mod `max_cycle`).
pub open spec fn fast_forward(c: Constants, cycle: int, flags: Seq<bool>, k: nat) -> (int, Seq<bool>)
    decreases k,
{
    if k == 0 {
        (cycle, flags)
    } else {
        let prev = fast_forward(c, cycle, flags, (k - 1) as nat);
        (
            (prev.0 + 1) % c.spec_max_cycle(),
            prev.1.update(prev.0 % c.spec_max_buffered(), false),
        )
    }
}

/// The delivery pass over the datagram's slots, from slot index `i` on.
/// Slot `i` carries the message of cycle `dg_cycle - i`.  The pass stops at
/// the first slot behind the buffered window, skips slots already flagged
/// as delivered, suppresses zero-filled slots (flagging them without
/// delivery), and otherwise delivers the decrypted slot and flags it.
/// Returns the updated flags and the delivered messages in slot order.
pub open spec fn deliver_from(
    c: Constants,
    key: u64,
    d: Seq<u8>,
    dg_cycle: int,
    cycle: int,
    flags: Seq<bool>,
    i: int,
) -> (Seq<bool>, Seq<Seq<u8>>)
    decreases c.window_size - i,
{
    let m = c.spec_max_cycle();
    let mb = c.spec_max_buffered();
    let sz = c.size as int;
    if i < 0 || i >= c.window_size {
        (flags, Seq::empty())
    } else {
        let cycle_i = (dg_cycle + m - i) % m;
        if (cycle_i + m - cycle) % m > mb {
            (flags, Seq::empty())
        } else {
            let dst = cycle_i % mb;
            if flags[dst] {
                deliver_from(c, key, d, dg_cycle, cycle, flags, i + 1)
            } else {
                let start = 4 + sz * (cycle_i % (c.window_size as int));
                let ct = d.subrange(start, start + sz);
                let rest = deliver_from(c, key, d, dg_cycle, cycle, flags.update(dst, true), i + 1);
                if all_zero(ct) {
                    rest
                } else {
                    (rest.0, seq![slot_decrypt_bytes(key, ct)] + rest.1)
                }
            }
        }
    }
}

/// The drain pass: clear and advance past every flagged cycle, stopping at
/// the first cycle whose flag is still unset.
pub open spec fn drain(c: Constants, cycle: int, flags: Seq<bool>) -> (int, Seq<bool>)
    decreases count_true(flags) via drain_decreases
{
    let mb = c.spec_max_buffered();
    let m = c.spec_max_cycle();
    let idx = cycle % mb;
    if c.wf() && 0 <= idx < flags.len() && flags[idx] {
        drain(c, (cycle + 1) % m, flags.update(idx, false))
    } else {
        (cycle, flags)
    }
}

#[via_fn]
proof fn drain_decreases(c: Constants, cycle: int, flags: Seq<bool>) {
    let idx = cycle % c.spec_max_buffered();
    if c.wf() && 0 <= idx < flags.len() && flags[idx] {
        lemma_count_true_update_false(flags, idx);
    }
}

/// One whole `handle_datagram` transition on the abstract receiver state
/// `(cycle, flags)`: returns the new cycle, the new flags and the messages
/// handed to the sink, in order.
pub open spec fn receiver_step(
    c: Constants,
    key: u64,
    cycle: int,
    flags: Seq<bool>,
    timestamp: u16,
    d: Seq<u8>,
) -> (int, Seq<bool>, Seq<Seq<u8>>) {
    let m = c.spec_max_cycle();
    let mb = c.spec_max_buffered();
    let h = header_block_decrypt(key, spec_u32_from_le_bytes(d.subrange(0, 4)));
    let dg_cycle = (h as int) % 0x10000;
    let dg_ts = (h as int) / 0x10000;
    let cycle_diff = (dg_cycle + m - cycle) % m;
    let ts_diff = (dg_ts + 65535 - timestamp) % 65535;
    if cycle_diff > 256 || ts_diff > 2048 {
        (cycle, flags, Seq::empty())
    } else {
        let k = if cycle_diff > mb {
            (cycle_diff - mb) as nat
        } else {
            0nat
        };
        let ff = fast_forward(c, cycle, flags, k);
        let del = deliver_from(c, key, d, dg_cycle, ff.0, ff.1, 0);
        let dr = drain(c, ff.0, del.0);
        (dr.0, dr.1, del.1)
    }
}

/// The receiver half of a protocol session.  It owns its `Sink`.
pub struct Receiver<SinkType: Sink> {
    constants: Constants,
    cipher: Cipher,
    sink: SinkType,
    cycle: usize,
    flags: Vec<bool>,
}

impl<SinkType: Sink> Receiver<SinkType> {
    /// The validated parameter pair.
    pub closed spec fn spec_constants(&self) -> Constants {
        self.constants
    }

    /// The shared session key.
    pub closed spec fn spec_key(&self) -> u64 {
        self.cipher.spec_key()
    }

    /// The lowest still-pending cycle.
    pub closed spec fn spec_cycle(&self) -> int {
        self.cycle as int
    }

    /// The delivery-tracking ring: `flags[c % max_buffered]` says whether
    /// cycle `c` of the buffered window has already been delivered.
    pub closed spec fn spec_flags(&self) -> Seq<bool> {
        self.flags@
    }

    /// The owned sink.
    pub closed spec fn spec_sink(&self) -> SinkType {
        self.sink
    }

    /// Structural invariant: supported parameters, cycle in range, ring at
    /// its fixed size — the sizes never change, however many datagrams are
    /// handled — and the cycle rests on a pending (unset) flag: the
    /// receiver never advances past the first cycle that is still
    /// undelivered.
    pub open spec fn wf(&self) -> bool {
        &&& self.spec_constants().wf()
        &&& 0 <= self.spec_cycle() < self.spec_constants().spec_max_cycle()
        &&& self.spec_flags().len() == self.spec_constants().spec_max_buffered()
        &&& !self.spec_flags()[self.spec_cycle() % self.spec_constants().spec_max_buffered()]
    }

    /// Constructs a receiver with all-clear flags and cycle 0, or fails
    /// with `InvalidParameters` on an unsupported pair.
    pub fn new(size: usize, window_size: usize, key: u64, sink: SinkType)
        -> (r: Result<Receiver<SinkType>, ProtocolError>)
        ensures
            params_supported(size, window_size) <==> r is Ok,
            r is Err ==> r->Err_0 == ProtocolError::InvalidParameters,
            r is Ok ==> r->Ok_0.wf(),
            r is Ok ==> r->Ok_0.spec_constants() == (Constants { size, window_size }),
            r is Ok ==> r->Ok_0.spec_key() == key,
            r is Ok ==> r->Ok_0.spec_cycle() == 0,
            r is Ok ==> r->Ok_0.spec_flags().len()
                == r->Ok_0.spec_constants().spec_max_buffered(),
            r is Ok ==> forall|j: int|
                0 <= j < r->Ok_0.spec_flags().len() ==> !r->Ok_0.spec_flags()[j],
            r is Ok ==> r->Ok_0.spec_sink() == sink,
    {
        let constants = match Constants::new(size, window_size) {
            Ok(c) => c,
            Err(e) => {
                return Err(e);
            },
        };
        proof {
            crate::constants::lemma_constants_bounds(constants);
        }
        let mb = constants.max_buffered();
        let flags: Vec<bool> = vec![false; mb];
        Ok(Receiver { constants, cipher: Cipher::new(key), sink, cycle: 0, flags })
    }

    /// The lowest cycle whose delivery is still pending.
    pub fn cycle(&self) -> (r: usize)
        ensures
            r == self.spec_cycle(),
    {
        self.cycle
    }

    /// Read access to the owned sink.
    pub fn sink(&self) -> (r: &SinkType)
        ensures
            *r == self.spec_sink(),
    {
        &self.sink
    }

    /// Handles one incoming datagram: exactly the `receiver_step`
    /// transition on `(cycle, flags)`, with the delivered messages handed
    /// to the sink in order.  Stale, far-future or implausibly-timestamped
    /// datagrams are dropped without any state change; nothing is ever
    /// delivered twice.
    #[verifier::rlimit(100)]
    #[verifier::spinoff_prover]
    pub fn handle_datagram(&mut self, timestamp: u16, datagram: &Vec<u8>)
        requires
            old(self).wf(),
            datagram@.len() == old(self).spec_constants().spec_datagram_size(),
        ensures
            final(self).wf(),
            final(self).spec_constants() == old(self).spec_constants(),
            final(self).spec_key() == old(self).spec_key(),
            final(self).spec_cycle() == receiver_step(old(self).spec_constants(),
                old(self).spec_key(), old(self).spec_cycle(), old(self).spec_flags(),
                timestamp, datagram@).0,
            final(self).spec_flags() == receiver_step(old(self).spec_constants(),
                old(self).spec_key(), old(self).spec_cycle(), old(self).spec_flags(),
                timestamp, datagram@).1,
            final(self).spec_sink().received() == old(self).spec_sink().received()
                + receiver_step(old(self).spec_constants(), old(self).spec_key(),
                    old(self).spec_cycle(), old(self).spec_flags(), timestamp, datagram@).2,
            forall|hv: u32|
                datagram@.subrange(0, 4)
                    == spec_u32_to_le_bytes(#[trigger] header_block_encrypt(old(self).spec_key(), hv))
                    ==> header_block_decrypt(old(self).spec_key(),
                        spec_u32_from_le_bytes(datagram@.subrange(0, 4))) == hv,
    {
        let ghost c = self.spec_constants();
        let ghost key = self.spec_key();
        let ghost cycle0 = self.spec_cycle();
        let ghost flags0 = self.spec_flags();
        let ghost step = receiver_step(c, key, cycle0, flags0, timestamp, datagram@);
        proof {
            crate::constants::lemma_constants_bounds(c);
        }
        let m = self.constants.max_cycle();
        let mb = self.constants.max_buffered();
        let w = self.constants.window_size;
        let sz = self.constants.size;
        assert(sz % 8 == 0);

        // Decrypt the header (on a copy; the datagram itself stays as it
        // arrived) and read the cycle and timestamp fields.
        let mut hdr = sub_vec(datagram, 0, 4);
        self.cipher.decrypt_header(&mut hdr);
        proof {
            lemma_auto_spec_u32_to_from_le_bytes();
        }
        let h = read_u32_at(&hdr, 0);
        proof {
            assert(hdr@.subrange(0, 4) =~= hdr@);
            assert(h == header_block_decrypt(key, spec_u32_from_le_bytes(datagram@.subrange(0, 4))));
            // A header that is the encryption of some value decrypts back
            // to that value: lets callers that know how the datagram was
            // built read the decoded cycle and timestamp off the contract.
            assert forall|hv: u32|
                datagram@.subrange(0, 4)
                    == spec_u32_to_le_bytes(#[trigger] header_block_encrypt(key, hv))
                    implies header_block_decrypt(key,
                        spec_u32_from_le_bytes(datagram@.subrange(0, 4))) == hv by {
                assert(spec_u32_from_le_bytes(datagram@.subrange(0, 4))
                    == header_block_encrypt(key, hv));
                assert(datagram@.subrange(0, 4)
                    == crate::cipher::header_encrypt_bytes(key, spec_u32_to_le_bytes(hv)));
                assert(hdr@ == spec_u32_to_le_bytes(hv));
                assert(hdr@ == spec_u32_to_le_bytes(
                    header_block_decrypt(key, spec_u32_from_le_bytes(datagram@.subrange(0, 4)))));
            }
        }
        let dg_cycle = (h % 0x10000) as usize;
        let dg_ts = (h / 0x10000) as usize;
        let ghost dgc = dg_cycle as int;

        // Forward distance of the datagram's cycle and timestamp from ours.
        let cycle_diff = ((dg_cycle + m) - self.cycle) % m;
        let ts_diff = ((dg_ts + 65535) - (timestamp as usize)) % 65535;

        // Stale, duplicate or implausible: drop silently.
        if cycle_diff > 256 || ts_diff > 2048 {
            proof {
                assert(step.0 == cycle0 && step.1 == flags0);
                assert(self.spec_sink().received() =~= old(self).spec_sink().received() + step.2);
            }
            return;
        }

        // Fast-forward past cycles that can no longer be buffered, so the
        // datagram's cycle fits in the ring.
        if cycle_diff > mb {
            let n = cycle_diff - mb;
            let mut k: usize = 0;
            while k < n
                invariant
                    c.wf(),
                    m == c.spec_max_cycle(),
                    mb == c.spec_max_buffered(),
                    0 <= k <= n,
                    self.spec_constants() == c,
                    self.spec_key() == key,
                    self.spec_sink() == old(self).spec_sink(),
                    self.spec_flags().len() == mb,
                    0 <= self.spec_cycle() < m,
                    self.spec_cycle() == fast_forward(c, cycle0, flags0, k as nat).0,
                    self.spec_flags() == fast_forward(c, cycle0, flags0, k as nat).1,
                decreases n - k,
            {
                let idx = self.cycle % mb;
                *vec_index_mut(&mut self.flags, idx) = false;
                self.cycle = (self.cycle + 1) % m;
                k = k + 1;
            }
        }
        let ghost c1 = self.spec_cycle();
        let ghost f1 = self.spec_flags();
        proof {
            let ghost kk = if (dgc + m - cycle0) % (m as int) > mb {
                ((dgc + m - cycle0) % (m as int) - mb) as nat
            } else {
                0nat
            };
            assert(c1 == fast_forward(c, cycle0, flags0, kk).0);
            assert(f1 == fast_forward(c, cycle0, flags0, kk).1);
        }

        // Deliver every slot that is new, within the buffered window and
        // not a zero-fill.
        let ghost mut delivered: Seq<Seq<u8>> = Seq::empty();
        let mut i: usize = 0;
        while i < w
            invariant
                c.wf(),
                m == c.spec_max_cycle(),
                mb == c.spec_max_buffered(),
                w == c.window_size,
                sz == c.size,
                sz % 8 == 0,
                datagram@.len() == c.spec_datagram_size(),
                0 <= i <= w,
                0 <= dgc < 0x10000,
                dgc == dg_cycle as int,
                m == 65535,
                self.spec_constants() == c,
                self.spec_key() == key,
                self.spec_cycle() == c1,
                0 <= c1 < m,
                self.spec_flags().len() == mb,
                deliver_from(c, key, datagram@, dgc, c1, f1, 0).0
                    == deliver_from(c, key, datagram@, dgc, c1, self.spec_flags(), i as int).0,
                deliver_from(c, key, datagram@, dgc, c1, f1, 0).1
                    == delivered
                        + deliver_from(c, key, datagram@, dgc, c1, self.spec_flags(), i as int).1,
                self.spec_sink().received() == old(self).spec_sink().received() + delivered,
            ensures
                self.spec_constants() == c,
                self.spec_key() == key,
                self.spec_cycle() == c1,
                self.spec_flags().len() == mb,
                self.spec_flags() == deliver_from(c, key, datagram@, dgc, c1, f1, 0).0,
                self.spec_sink().received() == old(self).spec_sink().received()
                    + deliver_from(c, key, datagram@, dgc, c1, f1, 0).1,
            decreases w - i,
        {
            let cycle_i = ((dg_cycle + m) - i) % m;
            if ((cycle_i + m) - self.cycle) % m > mb {
                proof {
                    assert(deliver_from(c, key, datagram@, dgc, c1, self.spec_flags(), i as int)
                        == (self.spec_flags(), Seq::<Seq<u8>>::empty()));
                    assert(delivered + Seq::<Seq<u8>>::empty() =~= delivered);
                }
                break;
            }
            let dst = cycle_i % mb;
            if !self.flags[dst] {
                let start = 4 + sz * (cycle_i % w);
                let end = start + sz;
                let ghost ct = datagram@.subrange(start as int, end as int);
                let ghost fcur = self.spec_flags();
                let ghost rest = deliver_from(c, key, datagram@, dgc, c1,
                    fcur.update(dst as int, true), i + 1);
                if !range_all_zero(datagram, start, end) {
                    let mut slot = sub_vec(datagram, start, end);
                    self.cipher.decrypt_slot(&mut slot);
                    self.sink.handle(&slot);
                    proof {
                        assert(slot@ == slot_decrypt_bytes(key, ct));
                        assert(delivered + (seq![slot_decrypt_bytes(key, ct)] + rest.1)
                            =~= (delivered.push(slot_decrypt_bytes(key, ct))) + rest.1);
                        delivered = delivered.push(slot@);
                    }
                }
                *vec_index_mut(&mut self.flags, dst) = true;
                proof {
                    assert(self.spec_flags() == fcur.update(dst as int, true));
                    assert(deliver_from(c, key, datagram@, dgc, c1, fcur, i as int).0 == rest.0);
                }
            }
            i = i + 1;
        }
        let ghost f2 = self.spec_flags();
        let ghost s2 = self.spec_sink();

        // Drain the delivered prefix: advance past every flagged cycle.
        loop
            invariant
                c.wf(),
                m == c.spec_max_cycle(),
                mb == c.spec_max_buffered(),
                self.spec_constants() == c,
                self.spec_key() == key,
                self.spec_sink() == s2,
                self.spec_flags().len() == mb,
                0 <= self.spec_cycle() < m,
                drain(c, c1, f2) == drain(c, self.spec_cycle(), self.spec_flags()),
            ensures
                self.spec_constants() == c,
                self.spec_key() == key,
                self.spec_sink() == s2,
                self.spec_flags().len() == mb,
                0 <= self.spec_cycle() < m,
                self.spec_cycle() == drain(c, c1, f2).0,
                self.spec_flags() == drain(c, c1, f2).1,
                !self.spec_flags()[self.spec_cycle() % (mb as int)],
            decreases count_true(self.spec_flags()),
        {
            let idx = self.cycle % mb;
            if !self.flags[idx] {
                break;
            }
            proof {
                lemma_count_true_update_false(self.spec_flags(), idx as int);
            }
            *vec_index_mut(&mut self.flags, idx) = false;
            self.cycle = (self.cycle + 1) % m;
        }

        proof {
            assert(step.0 == drain(c, c1, f2).0);
            assert(step.1 == drain(c, c1, f2).1);
            assert(step.2 == deliver_from(c, key, datagram@, dgc, c1, f1, 0).1);
        }
    }
}

} // verus!
