//! The heartbeat wire format.
//!
//! Senders keep NAT mappings alive — and tell the server which socket
//! belongs to which session and mirroring flavour — by sending small
//! heartbeat messages beside the data stream: the session id as eight
//! little-endian bytes, followed on the client-to-server side by one byte
//! naming the mirroring flavour.

use vstd::prelude::*;
use vstd::bytes::{spec_u64_from_le_bytes, spec_u64_to_le_bytes,
    lemma_auto_spec_u64_to_from_le_bytes};
use crate::bytes::{read_u64_at, write_u64_at};
use crate::mirroring::{Mirroring, MIRRORING_COUNT};

verus! {

/// Length of a client-to-server (mapper) heartbeat: session id plus
/// mirroring byte.
pub const MAPPER_HEARTBEAT_LEN: usize = 9;

/// Length of a server-to-client heartbeat: session id alone.
pub const SESSION_HEARTBEAT_LEN: usize = 8;

/// Builds a client-to-server heartbeat naming the session and the
/// mirroring flavour of the socket it travels on.
pub fn encode_mapper_heartbeat(session_id: u64, mirroring: Mirroring) -> (r: Vec<u8>)
    ensures
        r@.len() == MAPPER_HEARTBEAT_LEN,
        r@.subrange(0, 8) == spec_u64_to_le_bytes(session_id),
        r@[8] == mirroring.spec_index(),
{
    proof {
        lemma_auto_spec_u64_to_from_le_bytes();
    }
    let mut r: Vec<u8> = vec![0u8; MAPPER_HEARTBEAT_LEN];
    write_u64_at(&mut r, 0, session_id);
    let idx = mirroring.into_usize();
    let b: u8 = idx as u8;
    let last = r.len() - 1;
    *vstd::std_specs::vec::vec_index_mut(&mut r, last) = b;
    assert(r@.subrange(0, 8) =~= spec_u64_to_le_bytes(session_id));
    r
}

/// Reads a client-to-server heartbeat.  Succeeds exactly on messages of
/// the right length whose mirroring byte names a flavour; yields the
/// session id and the flavour.
pub fn parse_mapper_heartbeat(b: &Vec<u8>) -> (r: Option<(u64, Mirroring)>)
    ensures
        (r is Some) <==> (b@.len() == MAPPER_HEARTBEAT_LEN && b@[8] < MIRRORING_COUNT),
        r is Some ==> (r->0).0 == spec_u64_from_le_bytes(b@.subrange(0, 8)),
        r is Some ==> (r->0).1.spec_index() == b@[8],
{
    if b.len() != MAPPER_HEARTBEAT_LEN {
        return None;
    }
    let session_id = read_u64_at(b, 0);
    match Mirroring::from_usize(b[8] as usize) {
        Some(mirroring) => Some((session_id, mirroring)),
        None => None,
    }
}

/// Builds a server-to-client heartbeat naming the session.
pub fn encode_session_heartbeat(session_id: u64) -> (r: Vec<u8>)
    ensures
        r@.len() == SESSION_HEARTBEAT_LEN,
        r@ == spec_u64_to_le_bytes(session_id),
{
    proof {
        lemma_auto_spec_u64_to_from_le_bytes();
    }
    let mut r: Vec<u8> = vec![0u8; SESSION_HEARTBEAT_LEN];
    write_u64_at(&mut r, 0, session_id);
    assert(r@ =~= r@.subrange(0, 8));
    r
}

/// Reads a server-to-client heartbeat.  Succeeds exactly on messages of
/// the right length; yields the session id.
pub fn parse_session_heartbeat(b: &Vec<u8>) -> (r: Option<u64>)
    ensures
        (r is Some) <==> b@.len() == SESSION_HEARTBEAT_LEN,
        r is Some ==> r->0 == spec_u64_from_le_bytes(b@),
{
    if b.len() != SESSION_HEARTBEAT_LEN {
        return None;
    }
    let session_id = read_u64_at(b, 0);
    assert(b@ =~= b@.subrange(0, 8));
    Some(session_id)
}

/// Round trip: a mapper heartbeat parses back to what was encoded.
pub proof fn lemma_mapper_heartbeat_round_trip(session_id: u64, mirroring: Mirroring, r: Seq<u8>)
    requires
        r.len() == MAPPER_HEARTBEAT_LEN,
        r.subrange(0, 8) == spec_u64_to_le_bytes(session_id),
        r[8] == mirroring.spec_index(),
    ensures
        spec_u64_from_le_bytes(r.subrange(0, 8)) == session_id,
        r[8] < MIRRORING_COUNT,
{
    lemma_auto_spec_u64_to_from_le_bytes();
}

} // verus!
