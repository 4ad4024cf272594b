//! Wrap-around ordering of 32-bit TCP sequence numbers.
//!
//! "Is `a` before `b`?" is decided by interpreting the unsigned difference
//! `a - b (mod 2^32)` as a signed 32-bit value: `a` is before `b` exactly when
//! that difference is negative, i.e. lands in the upper half of the ring.

use vstd::prelude::*;

verus! {

/// The unsigned distance from `b` up to `a` on the sequence ring.
pub open spec fn seq_distance(a: u32, b: u32) -> int {
    if a - b < 0 {
        a - b + 0x1_0000_0000
    } else {
        a - b
    }
}

/// `a` is strictly before `b` on the ring: the signed reinterpretation of
/// `a - b (mod 2^32)` is negative.
pub open spec fn seq_before(a: u32, b: u32) -> bool {
    seq_distance(a, b) >= 0x8000_0000
}

/// `a` is strictly after `b` on the ring.
pub open spec fn seq_after(a: u32, b: u32) -> bool {
    0 < seq_distance(a, b) < 0x8000_0000
}

/// Whether sequence number `a` comes strictly before `b`, modulo 2^32.
pub fn tcp_sequence_before(a: u32, b: u32) -> (r: bool)
    ensures
        r == seq_before(a, b),
{
    a.wrapping_sub(b) >= 0x8000_0000
}

/// Whether sequence number `a` comes strictly after `b`, modulo 2^32.
pub fn tcp_sequence_after(a: u32, b: u32) -> (r: bool)
    ensures
        r == seq_after(a, b),
{
    let d = a.wrapping_sub(b);
    d > 0 && d < 0x8000_0000
}

} // verus!
