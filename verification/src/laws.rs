//! Protocol-level laws of the receiver transition.
//!
//! These are stated over the abstract state that `receiver_step` acts on,
//! so they hold of `handle_datagram` by its contract.

use vstd::prelude::*;
use vstd::arithmetic::div_mod::{lemma_add_mod_noop, lemma_mod_division_less_than_divisor,
    lemma_mod_equivalence, lemma_mod_multiples_vanish, lemma_small_mod};
use crate::bytes::all_zero;
use crate::cipher::slot_decrypt_bytes;
use crate::constants::{lemma_constants_bounds, Constants};
use crate::receiver::{count_true, deliver_from, drain, fast_forward,
    lemma_count_true_update_false, receiver_step};

verus! {

/// Addition under the cycle modulus.
pub open spec fn wrap_add(m: int, a: int, b: int) -> int {
    (a + b) % m
}

proof fn lemma_count_true_le_len(s: Seq<bool>)
    ensures
        count_true(s) <= s.len(),
    decreases s.len(),
{
    if s.len() > 0 {
        lemma_count_true_le_len(s.skip(1));
    }
}

/// Fast-forwarding `k` steps advances the cycle by exactly `k` modulo
/// `max_cycle` and keeps the ring's size.
proof fn lemma_fast_forward_advance(c: Constants, cycle: int, flags: Seq<bool>, k: nat)
    requires
        c.wf(),
        0 <= cycle < c.spec_max_cycle(),
        flags.len() == c.spec_max_buffered(),
    ensures
        fast_forward(c, cycle, flags, k).0 == (cycle + k) % c.spec_max_cycle(),
        0 <= fast_forward(c, cycle, flags, k).0 < c.spec_max_cycle(),
        fast_forward(c, cycle, flags, k).1.len() == flags.len(),
    decreases k,
{
    let m = c.spec_max_cycle();
    lemma_constants_bounds(c);
    if k == 0 {
        lemma_small_mod(cycle as nat, m as nat);
    } else {
        lemma_fast_forward_advance(c, cycle, flags, (k - 1) as nat);
        let prev = fast_forward(c, cycle, flags, (k - 1) as nat);
        lemma_add_mod_noop(cycle + k - 1, 1, m);
        lemma_small_mod(1nat, m as nat);
        lemma_mod_division_less_than_divisor(cycle + k, m);
        assert(fast_forward(c, cycle, flags, k).0 == (prev.0 + 1) % m);
        assert((prev.0 + 1) % m == ((cycle + k - 1) % m + 1int % m) % m);
    }
}

/// The delivery pass never changes the ring's size.
proof fn lemma_deliver_len(
    c: Constants,
    key: u64,
    d: Seq<u8>,
    dg_cycle: int,
    cycle: int,
    flags: Seq<bool>,
    i: int,
)
    requires
        c.wf(),
        flags.len() == c.spec_max_buffered(),
    ensures
        deliver_from(c, key, d, dg_cycle, cycle, flags, i).0.len() == flags.len(),
    decreases c.window_size - i,
{
    lemma_constants_bounds(c);
    let m = c.spec_max_cycle();
    let mb = c.spec_max_buffered();
    if 0 <= i < c.window_size {
        let cycle_i = (dg_cycle + m - i) % m;
        if (cycle_i + m - cycle) % m <= mb {
            let dst = cycle_i % mb;
            lemma_mod_division_less_than_divisor(cycle_i, mb);
            if flags[dst] {
                lemma_deliver_len(c, key, d, dg_cycle, cycle, flags, i + 1);
            } else {
                lemma_deliver_len(c, key, d, dg_cycle, cycle, flags.update(dst, true), i + 1);
            }
        }
    }
}

/// Draining advances the cycle forward by at most the number of set flags
/// and keeps the ring's size.
proof fn lemma_drain_advance(c: Constants, cycle: int, flags: Seq<bool>)
    requires
        c.wf(),
        0 <= cycle < c.spec_max_cycle(),
        flags.len() == c.spec_max_buffered(),
    ensures
        drain(c, cycle, flags).1.len() == flags.len(),
        exists|dr: int|
            0 <= dr <= count_true(flags)
                && drain(c, cycle, flags).0 == #[trigger] wrap_add(c.spec_max_cycle(), cycle, dr),
    decreases count_true(flags),
{
    let m = c.spec_max_cycle();
    let mb = c.spec_max_buffered();
    lemma_constants_bounds(c);
    let idx = cycle % mb;
    if 0 <= idx < flags.len() && flags[idx] {
        let flags2 = flags.update(idx, false);
        let cycle2 = (cycle + 1) % m;
        lemma_count_true_update_false(flags, idx);
        lemma_small_mod(1nat, m as nat);
        lemma_mod_division_less_than_divisor(cycle + 1, m);
        lemma_drain_advance(c, cycle2, flags2);
        lemma_count_true_le_len(flags2);
        let dr2 = choose|dr2: int|
            0 <= dr2 <= count_true(flags2)
                && drain(c, cycle2, flags2).0 == #[trigger] wrap_add(m, cycle2, dr2);
        lemma_add_mod_noop(cycle + 1, dr2, m);
        lemma_small_mod(dr2 as nat, m as nat);
        assert(drain(c, cycle, flags).0 == wrap_add(m, cycle, dr2 + 1));
        assert(0 <= dr2 + 1 <= count_true(flags));
    } else {
        lemma_small_mod(cycle as nat, m as nat);
        assert(drain(c, cycle, flags).0 == wrap_add(m, cycle, 0));
    }
}

/// Monotonicity: one `receiver_step` moves the cycle forward by some
/// amount between 0 and 256 modulo `max_cycle` — it never moves backward
/// except by exact wrap-around, and never jumps past the admission
/// threshold.
pub proof fn lemma_receiver_cycle_monotonic(
    c: Constants,
    key: u64,
    cycle: int,
    flags: Seq<bool>,
    timestamp: u16,
    d: Seq<u8>,
)
    requires
        c.wf(),
        0 <= cycle < c.spec_max_cycle(),
        flags.len() == c.spec_max_buffered(),
    ensures
        exists|adv: int|
            0 <= adv <= 256
                && receiver_step(c, key, cycle, flags, timestamp, d).0
                    == #[trigger] wrap_add(c.spec_max_cycle(), cycle, adv),
{
    let m = c.spec_max_cycle();
    let mb = c.spec_max_buffered();
    lemma_constants_bounds(c);
    let step = receiver_step(c, key, cycle, flags, timestamp, d);
    let h = crate::cipher::header_block_decrypt(key,
        vstd::bytes::spec_u32_from_le_bytes(d.subrange(0, 4)));
    let dg_cycle = (h as int) % 0x10000;
    let dg_ts = (h as int) / 0x10000;
    let cycle_diff = (dg_cycle + m - cycle) % m;
    let ts_diff = (dg_ts + 65535 - timestamp) % 65535;
    if cycle_diff > 256 || ts_diff > 2048 {
        lemma_small_mod(cycle as nat, m as nat);
        assert(step.0 == wrap_add(m, cycle, 0));
    } else {
        let k = if cycle_diff > mb {
            (cycle_diff - mb) as nat
        } else {
            0nat
        };
        let ff = fast_forward(c, cycle, flags, k);
        lemma_fast_forward_advance(c, cycle, flags, k);
        let del = deliver_from(c, key, d, dg_cycle, ff.0, ff.1, 0);
        lemma_deliver_len(c, key, d, dg_cycle, ff.0, ff.1, 0);
        lemma_drain_advance(c, ff.0, del.0);
        let dr = choose|dr: int|
            0 <= dr <= count_true(del.0) && drain(c, ff.0, del.0).0 == #[trigger] wrap_add(m, ff.0, dr);
        lemma_count_true_le_len(del.0);
        lemma_add_mod_noop(cycle + k, dr, m);
        lemma_small_mod(dr as nat, m as nat);
        assert(step.0 == wrap_add(m, cycle, k + dr));
        assert(0 <= k + dr <= 256);
    }
}

/// Ring position of the flag that tracks cycle `dgc - j`.
pub open spec fn slot_ring_pos(dgc: int, mb: int, j: int) -> int {
    (dgc - j) % mb
}

/// The ciphertext bytes of the slot that carries cycle `slot_cycle`.
pub open spec fn slot_bytes_at(c: Constants, d: Seq<u8>, slot_cycle: int) -> Seq<u8> {
    let start = 4 + c.size * (slot_cycle % (c.window_size as int));
    d.subrange(start, start + c.size)
}

/// Two cycles less than a ring apart sit at different ring positions.
proof fn lemma_ring_pos_distinct(a: int, b: int, mb: int)
    requires
        0 < mb,
        0 < b - a < mb,
    ensures
        a % mb != b % mb,
{
    lemma_mod_equivalence(b, a, mb);
    lemma_small_mod((b - a) as nat, mb as nat);
}

/// `x + m` reduces to `x` modulo `m` for `x` already in range.
proof fn lemma_mod_shift_down(x: int, m: int)
    requires
        0 < m,
        0 <= x < m,
    ensures
        (x + m) % m == x,
{
    lemma_mod_multiples_vanish(1, x, m);
    lemma_small_mod(x as nat, m as nat);
}

/// What one delivery pass does, slot by slot, when the datagram's cycle
/// `dgc` lies (unwrapped) within the buffered window ahead of `cycle`:
/// exactly the flags of the in-window slot cycles are newly set; nothing is
/// delivered if they were all set already; and every in-window slot that
/// was pending and not zero-filled has its decrypted payload delivered.
proof fn lemma_deliver_characterize(
    c: Constants,
    key: u64,
    d: Seq<u8>,
    dgc: int,
    cycle: int,
    flags: Seq<bool>,
    i: int,
)
    requires
        c.wf(),
        flags.len() == c.spec_max_buffered(),
        0 <= cycle <= dgc < c.spec_max_cycle(),
        dgc - cycle < c.spec_max_buffered(),
        0 <= i,
    ensures
        ({
            let res = deliver_from(c, key, d, dgc, cycle, flags, i);
            let mb = c.spec_max_buffered();
            let w = c.window_size as int;
            let r0 = dgc - cycle;
            &&& res.0.len() == mb
            &&& forall|p: int|
                #![trigger res.0[p]]
                0 <= p < mb ==> res.0[p] == (flags[p] || exists|j: int|
                    i <= j < w && j <= r0 && p == #[trigger] slot_ring_pos(dgc, mb, j))
            &&& (forall|j: int|
                i <= j < w && j <= r0 ==> flags[#[trigger] slot_ring_pos(dgc, mb, j)])
                ==> res.0 == flags && res.1 == Seq::<Seq<u8>>::empty()
            &&& forall|j: int|
                i <= j < w && j <= r0 && !flags[#[trigger] slot_ring_pos(dgc, mb, j)]
                    && !all_zero(slot_bytes_at(c, d, dgc - j))
                    ==> res.1.contains(slot_decrypt_bytes(key, slot_bytes_at(c, d, dgc - j)))
        }),
    decreases c.window_size - i,
{
    let m = c.spec_max_cycle();
    let mb = c.spec_max_buffered();
    let w = c.window_size as int;
    let r0 = dgc - cycle;
    lemma_constants_bounds(c);
    let res = deliver_from(c, key, d, dgc, cycle, flags, i);
    if i >= w {
        // Nothing considered: flags unchanged, nothing delivered.
    } else {
        let cycle_i = (dgc + m - i) % m;
        if i <= r0 {
            lemma_mod_shift_down(dgc - i, m);
            assert(cycle_i == dgc - i);
            lemma_mod_shift_down(r0 - i, m);
            assert((cycle_i + m - cycle) % m == r0 - i);
            let dst = cycle_i % mb;
            assert(dst == slot_ring_pos(dgc, mb, i));
            lemma_mod_division_less_than_divisor(cycle_i, mb);
            if flags[dst] {
                lemma_deliver_characterize(c, key, d, dgc, cycle, flags, i + 1);
                let rest = deliver_from(c, key, d, dgc, cycle, flags, i + 1);
                assert(res == rest);
                assert forall|p: int| 0 <= p < mb implies
                    res.0[p] == (flags[p] || exists|j: int|
                        i <= j < w && j <= r0 && p == #[trigger] slot_ring_pos(dgc, mb, j)) by {
                    if !flags[p] {
                        if exists|j: int|
                            i <= j < w && j <= r0 && p == #[trigger] slot_ring_pos(dgc, mb, j) {
                            let j = choose|j: int|
                                i <= j < w && j <= r0 && p == #[trigger] slot_ring_pos(dgc, mb, j);
                            if j == i {
                                assert(flags[p]);
                            } else {
                                assert(i + 1 <= j < w && j <= r0
                                    && p == slot_ring_pos(dgc, mb, j));
                            }
                        }
                    }
                }
            } else {
                let fl2 = flags.update(dst, true);
                lemma_deliver_characterize(c, key, d, dgc, cycle, fl2, i + 1);
                let rest = deliver_from(c, key, d, dgc, cycle, fl2, i + 1);
                let start = 4 + c.size * (cycle_i % w);
                assert(d.subrange(start as int, start + c.size) == slot_bytes_at(c, d, dgc - i));
                // Flag bookkeeping: the exists-range grows by the one
                // position this slot sets.
                assert forall|p: int| 0 <= p < mb implies
                    res.0[p] == (flags[p] || exists|j: int|
                        i <= j < w && j <= r0 && p == #[trigger] slot_ring_pos(dgc, mb, j)) by {
                    assert(res.0 == rest.0);
                    if p == dst {
                        assert(fl2[p]);
                        assert(res.0[p]);
                        assert(p == slot_ring_pos(dgc, mb, i));
                    } else {
                        assert(fl2[p] == flags[p]);
                        if res.0[p] && !flags[p] {
                            let j = choose|j: int|
                                i + 1 <= j < w && j <= r0 && p == #[trigger] slot_ring_pos(dgc, mb, j);
                            assert(i <= j < w && j <= r0 && p == slot_ring_pos(dgc, mb, j));
                        }
                        if !res.0[p] {
                            if exists|j: int|
                                i <= j < w && j <= r0 && p == #[trigger] slot_ring_pos(dgc, mb, j) {
                                let j = choose|j: int|
                                    i <= j < w && j <= r0 && p == #[trigger] slot_ring_pos(dgc, mb, j);
                                assert(j != i);
                                assert(i + 1 <= j < w && j <= r0
                                    && p == slot_ring_pos(dgc, mb, j));
                            }
                        }
                    }
                }
                // Delivered messages: this slot's payload (unless
                // zero-filled), then whatever the remaining slots deliver.
                let msg = slot_decrypt_bytes(key, slot_bytes_at(c, d, dgc - i));
                assert forall|j: int|
                    i <= j < w && j <= r0 && !flags[#[trigger] slot_ring_pos(dgc, mb, j)]
                        && !all_zero(slot_bytes_at(c, d, dgc - j))
                        implies res.1.contains(slot_decrypt_bytes(key, slot_bytes_at(c, d, dgc - j))) by {
                    let target = slot_decrypt_bytes(key, slot_bytes_at(c, d, dgc - j));
                    if j == i {
                        assert(!all_zero(slot_bytes_at(c, d, dgc - i)));
                        assert(res.1 == seq![msg] + rest.1);
                        assert(res.1[0] == target);
                    } else {
                        lemma_ring_pos_distinct(dgc - j, dgc - i, mb);
                        assert(slot_ring_pos(dgc, mb, j) != dst);
                        assert(!fl2[slot_ring_pos(dgc, mb, j)]);
                        assert(rest.1.contains(target));
                        let idx = choose|idx: int| 0 <= idx < rest.1.len() && rest.1[idx] == target;
                        if all_zero(slot_bytes_at(c, d, dgc - i)) {
                            assert(res.1 == rest.1);
                        } else {
                            assert(res.1 == seq![msg] + rest.1);
                            assert(res.1[idx + 1] == target);
                        }
                    }
                }
            }
        } else {
            // This slot is already behind the buffered window: the pass
            // stops here and considers nothing further.
            if dgc - i >= 0 {
                lemma_mod_shift_down(dgc - i, m);
                assert(cycle_i == dgc - i);
                lemma_mod_shift_down((m + r0 - i) % m, m);
                lemma_mod_shift_down(m - (i - r0), m);
                assert((cycle_i + m - cycle) % m == m - (i - r0));
            } else {
                lemma_small_mod((dgc + m - i) as nat, m as nat);
                assert(cycle_i == dgc + m - i);
                lemma_mod_shift_down(m - (i - r0), m);
                assert((cycle_i + m - cycle) % m == m - (i - r0));
            }
            assert((cycle_i + m - cycle) % m > mb);
            assert(res == (flags, Seq::<Seq<u8>>::empty()));
        }
    }
}

/// Ring position of an (unwrapped) cycle value.
pub open spec fn ring_of(mb: int, v: int) -> int {
    v % mb
}

/// The number of steps the drain pass takes.
pub open spec fn drain_steps(c: Constants, cycle: int, flags: Seq<bool>) -> nat
    decreases count_true(flags) via drain_steps_decreases
{
    let mb = c.spec_max_buffered();
    let m = c.spec_max_cycle();
    let idx = cycle % mb;
    if c.wf() && 0 <= idx < flags.len() && flags[idx] {
        1 + drain_steps(c, (cycle + 1) % m, flags.update(idx, false))
    } else {
        0
    }
}

#[via_fn]
proof fn drain_steps_decreases(c: Constants, cycle: int, flags: Seq<bool>) {
    let idx = cycle % c.spec_max_buffered();
    if c.wf() && 0 <= idx < flags.len() && flags[idx] {
        lemma_count_true_update_false(flags, idx);
    }
}

/// What the drain pass does when the cycle is far from the wrap point: it
/// advances over a run of set flags, clearing exactly the ring positions
/// it passes, and stops on an unset flag.
proof fn lemma_drain_characterize(c: Constants, cycle: int, flags: Seq<bool>)
    requires
        c.wf(),
        flags.len() == c.spec_max_buffered(),
        0 <= cycle,
        cycle + count_true(flags) < c.spec_max_cycle(),
    ensures
        ({
            let res = drain(c, cycle, flags);
            let mb = c.spec_max_buffered();
            let dr = drain_steps(c, cycle, flags) as int;
            &&& 0 <= dr <= count_true(flags)
            &&& res.0 == cycle + dr
            &&& res.1.len() == mb
            &&& forall|v: int| cycle <= v < cycle + dr ==> flags[#[trigger] ring_of(mb, v)]
            &&& forall|p: int|
                0 <= p < mb ==> res.1[p] == (flags[p] && !(exists|v: int|
                    cycle <= v < cycle + dr && p == #[trigger] ring_of(mb, v)))
            &&& res.1[ring_of(mb, cycle + dr)] == false
        }),
    decreases count_true(flags),
{
    let m = c.spec_max_cycle();
    let mb = c.spec_max_buffered();
    lemma_constants_bounds(c);
    let res = drain(c, cycle, flags);
    let dr = drain_steps(c, cycle, flags) as int;
    let idx = cycle % mb;
    lemma_mod_division_less_than_divisor(cycle, mb);
    if flags[idx] {
        lemma_count_true_update_false(flags, idx);
        let flags2 = flags.update(idx, false);
        lemma_small_mod((cycle + 1) as nat, m as nat);
        assert((cycle + 1) % m == cycle + 1);
        lemma_drain_characterize(c, cycle + 1, flags2);
        let dr2 = drain_steps(c, cycle + 1, flags2) as int;
        assert(dr == dr2 + 1);
        assert(res == drain(c, cycle + 1, flags2));
        assert(idx == ring_of(mb, cycle));
        // The flags passed over: position of `cycle` itself, then those the
        // tail passed over (which `flags` also had set, having only the one
        // position cleared).
        assert forall|v: int| cycle <= v < cycle + dr implies flags[#[trigger] ring_of(mb, v)] by {
            if v == cycle {
            } else {
                assert(flags2[ring_of(mb, v)]);
                if ring_of(mb, v) == idx {
                } else {
                    assert(flags[ring_of(mb, v)] == flags2[ring_of(mb, v)]);
                }
            }
        }
        assert forall|p: int| 0 <= p < mb implies
            res.1[p] == (flags[p] && !(exists|v: int|
                cycle <= v < cycle + dr && p == #[trigger] ring_of(mb, v))) by {
            if p == idx {
                assert(!flags2[p]);
                // The tail never re-sets a flag, and p was cleared.
                if res.1[p] {
                    assert(flags2[p]);
                }
                assert(p == ring_of(mb, cycle));
                assert(exists|v: int| cycle <= v < cycle + dr && p == #[trigger] ring_of(mb, v));
            } else {
                assert(flags2[p] == flags[p]);
                if exists|v: int| cycle <= v < cycle + dr && p == #[trigger] ring_of(mb, v) {
                    let v = choose|v: int| cycle <= v < cycle + dr && p == #[trigger] ring_of(mb, v);
                    assert(v != cycle);
                    assert(cycle + 1 <= v < cycle + 1 + dr2 && p == ring_of(mb, v));
                    assert(!res.1[p]);
                } else {
                    assert(!(exists|v: int|
                        cycle + 1 <= v < cycle + 1 + dr2 && p == #[trigger] ring_of(mb, v)));
                    assert(res.1[p] == flags2[p]);
                }
            }
        }
    } else {
        assert(res == (cycle, flags));
        assert(dr == 0);
        lemma_count_true_le_len(flags);
        assert(res.1[ring_of(mb, cycle)] == false);
    }
}

/// In-window redundancy, one datagram at a time: when an accepted
/// datagram's cycle lies — without wrapping — within the buffered window
/// ahead of the receiver's cycle, every slot it carries whose cycle is
/// still pending and whose ciphertext is not a zero-fill has its decrypted
/// payload handed to the sink.
pub proof fn lemma_in_window_slots_delivered(
    c: Constants,
    key: u64,
    cycle: int,
    flags: Seq<bool>,
    timestamp: u16,
    d: Seq<u8>,
)
    requires
        c.wf(),
        0 <= cycle,
        flags.len() == c.spec_max_buffered(),
        ({
            let h = crate::cipher::header_block_decrypt(key,
                vstd::bytes::spec_u32_from_le_bytes(d.subrange(0, 4)));
            let dgc = (h as int) % 0x10000;
            let dg_ts = (h as int) / 0x10000;
            &&& cycle <= dgc < c.spec_max_cycle()
            &&& dgc - cycle < c.spec_max_buffered()
            &&& (dg_ts + 65535 - timestamp) % 65535 <= 2048
        }),
    ensures
        ({
            let h = crate::cipher::header_block_decrypt(key,
                vstd::bytes::spec_u32_from_le_bytes(d.subrange(0, 4)));
            let dgc = (h as int) % 0x10000;
            let mb = c.spec_max_buffered();
            forall|j: int|
                0 <= j < c.window_size && j <= dgc - cycle
                    && !flags[#[trigger] slot_ring_pos(dgc, mb, j)]
                    && !all_zero(slot_bytes_at(c, d, dgc - j))
                    ==> receiver_step(c, key, cycle, flags, timestamp, d).2
                        .contains(slot_decrypt_bytes(key, slot_bytes_at(c, d, dgc - j)))
        }),
{
    let m = c.spec_max_cycle();
    let mb = c.spec_max_buffered();
    lemma_constants_bounds(c);
    let h = crate::cipher::header_block_decrypt(key,
        vstd::bytes::spec_u32_from_le_bytes(d.subrange(0, 4)));
    let dgc = (h as int) % 0x10000;
    let r0 = dgc - cycle;
    lemma_mod_shift_down(r0, m);
    assert((dgc + m - cycle) % m == r0);
    lemma_deliver_characterize(c, key, d, dgc, cycle, flags, 0);
}

/// Duplicate suppression: feeding the very same datagram bytes to the
/// receiver again, at the same local timestamp, delivers nothing to the
/// sink and leaves the receiver's cycle and flags exactly as they were —
/// and therefore so does any number of further repetitions.  This is
/// stated for datagrams that are either dropped outright or whose cycle
/// lies — without wrapping — strictly within the buffered window.
pub proof fn lemma_duplicate_datagram_suppressed(
    c: Constants,
    key: u64,
    cycle: int,
    flags: Seq<bool>,
    timestamp: u16,
    d: Seq<u8>,
)
    requires
        c.wf(),
        0 <= cycle,
        flags.len() == c.spec_max_buffered(),
        ({
            let h = crate::cipher::header_block_decrypt(key,
                vstd::bytes::spec_u32_from_le_bytes(d.subrange(0, 4)));
            let dgc = (h as int) % 0x10000;
            let dg_ts = (h as int) / 0x10000;
            let cycle_diff = (dgc + c.spec_max_cycle() - cycle) % c.spec_max_cycle();
            let ts_diff = (dg_ts + 65535 - timestamp) % 65535;
            ||| cycle_diff > 256
            ||| ts_diff > 2048
            ||| (cycle <= dgc && dgc - cycle < c.spec_max_buffered()
                && cycle + 2 * c.spec_max_buffered() < c.spec_max_cycle())
        }),
    ensures
        ({
            let s1 = receiver_step(c, key, cycle, flags, timestamp, d);
            let s2 = receiver_step(c, key, s1.0, s1.1, timestamp, d);
            &&& s2.0 == s1.0
            &&& s2.1 == s1.1
            &&& s2.2 == Seq::<Seq<u8>>::empty()
        }),
{
    let m = c.spec_max_cycle();
    let mb = c.spec_max_buffered();
    let w = c.window_size as int;
    lemma_constants_bounds(c);
    let h = crate::cipher::header_block_decrypt(key,
        vstd::bytes::spec_u32_from_le_bytes(d.subrange(0, 4)));
    let dgc = (h as int) % 0x10000;
    let dg_ts = (h as int) / 0x10000;
    let cycle_diff = (dgc + m - cycle) % m;
    let ts_diff = (dg_ts + 65535 - timestamp) % 65535;
    let s1 = receiver_step(c, key, cycle, flags, timestamp, d);
    if cycle_diff > 256 || ts_diff > 2048 {
        // Dropped: the state does not change, so the repeat is dropped the
        // same way.
        assert(s1.0 == cycle && s1.1 == flags);
    } else {
        let r0 = dgc - cycle;
        lemma_mod_shift_down(r0, m);
        assert(cycle_diff == r0);
        assert(r0 < mb);
        // First feed: no fast-forward; deliver; drain.
        let del1 = deliver_from(c, key, d, dgc, cycle, flags, 0);
        lemma_deliver_characterize(c, key, d, dgc, cycle, flags, 0);
        let f2 = del1.0;
        lemma_count_true_le_len(f2);
        lemma_drain_characterize(c, cycle, f2);
        let dr = drain_steps(c, cycle, f2) as int;
        let c3 = cycle + dr;
        let f3 = drain(c, cycle, f2).1;
        assert(s1.0 == c3 && s1.1 == f3 && s1.2 == del1.1);
        // Second feed.
        if dr > r0 {
            // The drain ran past the datagram's cycle: the repeat now looks
            // like an ancient wrap-around and is dropped.
            let diff2 = (dgc + m - c3) % m;
            lemma_mod_shift_down(m - (c3 - dgc), m);
            assert(diff2 == m - (c3 - dgc));
            assert(diff2 > 256);
        } else {
            let diff2 = (dgc + m - c3) % m;
            lemma_mod_shift_down(r0 - dr, m);
            assert(diff2 == r0 - dr);
            assert(diff2 <= mb && diff2 <= 256);
            // Every slot cycle still within the window kept its flag: the
            // drain only cleared positions strictly below the remaining
            // window.
            assert forall|j: int|
                0 <= j < w && j <= dgc - c3 implies f3[#[trigger] slot_ring_pos(dgc, mb, j)] by {
                let p = slot_ring_pos(dgc, mb, j);
                assert(p == ring_of(mb, dgc - j));
                lemma_mod_division_less_than_divisor(dgc - j, mb);
                assert(exists|j2: int|
                    0 <= j2 < w && j2 <= dgc - cycle
                        && p == #[trigger] slot_ring_pos(dgc, mb, j2)) by {
                    assert(0 <= j < w && j <= dgc - cycle && p == slot_ring_pos(dgc, mb, j));
                }
                assert(del1.0[p] == (flags[p] || exists|j2: int|
                    0 <= j2 < w && j2 <= dgc - cycle
                        && p == #[trigger] slot_ring_pos(dgc, mb, j2)));
                assert(f2[p]);
                if exists|v: int| cycle <= v < cycle + dr && p == #[trigger] ring_of(mb, v) {
                    let v = choose|v: int| cycle <= v < cycle + dr && p == #[trigger] ring_of(mb, v);
                    assert(0 < (dgc - j) - v < mb) by {
                        assert(v < cycle + dr);
                        assert(dgc - j >= c3);
                        assert((dgc - j) - v <= r0);
                    }
                    lemma_ring_pos_distinct(v, dgc - j, mb);
                    assert(false);
                }
            }
            lemma_deliver_characterize(c, key, d, dgc, c3, f3, 0);
            let del2 = deliver_from(c, key, d, dgc, c3, f3, 0);
            assert(del2.0 == f3 && del2.1 == Seq::<Seq<u8>>::empty());
            // And the drain has already stopped on an unset flag.
            assert(f3[c3 % mb] == false);
            assert(drain(c, c3, f3) == (c3, f3));
        }
    }
}

} // verus!
