//! Decoding of a single notify fragment.
//!
//! A notify payload opens with a big-endian header: a 64-bit service uuid, a
//! 32-bit stub id (ignored) and a 32-bit method id; the rest is the body.
//! Payloads whose service uuid is not [`SERVICE_UUID`] and method ids outside
//! the opcode enumeration are dropped silently, as are bodies that fail to
//! decompress.

use vstd::prelude::*;

use crate::compress::{zstd_decode_all, zstd_decoded};
use crate::opcodes::{pkt_from_method_id, pkt_of, Pkt};
use crate::wire;

verus! {

/// The fixed 64-bit constant gating valid notify payloads.
pub const SERVICE_UUID: u64 = 0x0000_0000_6333_5342;

/// What parsing the notify fragment at `frame[ps .. pe]` yields: the opcode
/// and the (decompressed) body, or nothing for any dropped payload.
pub open spec fn sp_notify(frame: Seq<u8>, ps: int, pe: int, compressed: bool) -> Option<
    (Pkt, Seq<u8>),
> {
    if !(0 <= ps <= pe <= frame.len()) {
        None
    } else if pe - ps < 16 {
        None
    } else if wire::be64_at(frame, ps) != SERVICE_UUID {
        None
    } else {
        let method = wire::be32_at(frame, ps + 12);
        let body = frame.subrange(ps + 16, pe);
        if compressed {
            match zstd_decoded(body) {
                None => None,
                Some(d) => match pkt_of(method as u32) {
                    None => None,
                    Some(p) => Some((p, d)),
                },
            }
        } else {
            match pkt_of(method as u32) {
                None => None,
                Some(p) => Some((p, body)),
            }
        }
    }
}

/// Parses one notify fragment and returns its opcode and body, or nothing
/// when the fragment is dropped.
pub fn parse_notify_fragment(frame: &[u8], payload_start: usize, payload_end: usize, compressed: bool) -> (r:
    Option<(Pkt, Vec<u8>)>)
    ensures
        match sp_notify(frame@, payload_start as int, payload_end as int, compressed) {
            Some((p, b)) => r matches Some(e) && e.0 == p && e.1@ == b,
            None => r is None,
        },
{
    let n = frame.len();
    if payload_start > payload_end || payload_end > n {
        return None;
    }
    if payload_end - payload_start < 16 {
        return None;
    }
    let service_uuid = wire::read_u64_be(frame, payload_start);
    if service_uuid != SERVICE_UUID {
        return None;
    }
    let method_id = wire::read_u32_be(frame, payload_start + 12);
    let body = vstd::slice::slice_subrange(frame, payload_start + 16, payload_end);
    if compressed {
        let decoded = match zstd_decode_all(body) {
            Err(_) => return None,
            Ok(d) => d,
        };
        match pkt_from_method_id(method_id) {
            None => None,
            Some(p) => Some((p, decoded)),
        }
    } else {
        match pkt_from_method_id(method_id) {
            None => None,
            Some(p) => Some((p, wire::slice_range_to_vec(frame, payload_start + 16, payload_end))),
        }
    }
}

} // verus!
