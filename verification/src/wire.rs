//! Fixed-width integer fields of the wire formats.
//!
//! Frame and sub-packet headers store big-endian values; the tagged dungeon
//! blob stores 32-bit little-endian values. The readers here are plain
//! verified code over byte slices; each is proved to return exactly the value
//! its spec function denotes.

use vstd::prelude::*;

verus! {

/// The big-endian `u16` stored at `s[i .. i + 2]`.
pub open spec fn be16_at(s: Seq<u8>, i: int) -> int {
    s[i] * 0x100 + s[i + 1]
}

/// The big-endian `u32` stored at `s[i .. i + 4]`.
pub open spec fn be32_at(s: Seq<u8>, i: int) -> int {
    s[i] * 0x100_0000 + s[i + 1] * 0x1_0000 + s[i + 2] * 0x100 + s[i + 3]
}

/// The big-endian `u64` stored at `s[i .. i + 8]`.
pub open spec fn be64_at(s: Seq<u8>, i: int) -> int {
    be32_at(s, i) * 0x1_0000_0000 + be32_at(s, i + 4)
}

/// The little-endian `u32` stored at `s[i .. i + 4]`.
pub open spec fn le32_at(s: Seq<u8>, i: int) -> int {
    s[i] + s[i + 1] * 0x100 + s[i + 2] * 0x1_0000 + s[i + 3] * 0x100_0000
}

/// The little-endian `i32` stored at `s[i .. i + 4]`: the unsigned value
/// reinterpreted as two's-complement.
pub open spec fn i32_le_at(s: Seq<u8>, i: int) -> int {
    if le32_at(s, i) < 0x8000_0000 {
        le32_at(s, i)
    } else {
        le32_at(s, i) - 0x1_0000_0000
    }
}

/// Reads the big-endian `u16` at `i`.
pub fn read_u16_be(b: &[u8], i: usize) -> (r: u16)
    requires
        i + 2 <= b@.len(),
    ensures
        r == be16_at(b@, i as int),
{
    (b[i] as u16) * 0x100 + (b[i + 1] as u16)
}

/// Reads the big-endian `u32` at `i`.
pub fn read_u32_be(b: &[u8], i: usize) -> (r: u32)
    requires
        i + 4 <= b@.len(),
    ensures
        r == be32_at(b@, i as int),
{
    (b[i] as u32) * 0x100_0000 + (b[i + 1] as u32) * 0x1_0000 + (b[i + 2] as u32) * 0x100 + (b[i
        + 3] as u32)
}

/// Reads the big-endian `u64` at `i`.
pub fn read_u64_be(b: &[u8], i: usize) -> (r: u64)
    requires
        i + 8 <= b@.len(),
    ensures
        r == be64_at(b@, i as int),
{
    let n: usize = b.len();
    assert(i + 8 <= n);
    let hi = read_u32_be(b, i);
    let lo = read_u32_be(b, i + 4);
    (hi as u64) * 0x1_0000_0000 + (lo as u64)
}

/// Reads the little-endian `i32` at `i`.
pub fn read_i32_le(b: &[u8], i: usize) -> (r: i32)
    requires
        i + 4 <= b@.len(),
    ensures
        r == i32_le_at(b@, i as int),
{
    let u: u32 = (b[i] as u32) + (b[i + 1] as u32) * 0x100 + (b[i + 2] as u32) * 0x1_0000 + (b[i
        + 3] as u32) * 0x100_0000;
    if u < 0x8000_0000 {
        u as i32
    } else {
        -((0xFFFF_FFFFu32 - u) as i32) - 1
    }
}

/// Appends every byte of `s` to `v`.
pub fn append_slice(v: &mut Vec<u8>, s: &[u8])
    ensures
        final(v)@ == old(v)@ + s@,
{
    let mut j: usize = 0;
    while j < s.len()
        invariant
            j <= s@.len(),
            v@ == old(v)@ + s@.subrange(0, j as int),
        decreases s@.len() - j,
    {
        v.push(s[j]);
        proof {
            assert(v@ =~= old(v)@ + s@.subrange(0, j + 1));
        }
        j = j + 1;
    }
    proof {
        assert(v@ =~= old(v)@ + s@);
    }
}

/// Copies `s[from .. to]` into a fresh vector.
pub fn slice_range_to_vec(s: &[u8], from: usize, to: usize) -> (r: Vec<u8>)
    requires
        from <= to <= s@.len(),
    ensures
        r@ == s@.subrange(from as int, to as int),
{
    let mut out: Vec<u8> = Vec::new();
    let mut j: usize = from;
    while j < to
        invariant
            from <= j <= to <= s@.len(),
            out@ == s@.subrange(from as int, j as int),
        decreases to - j,
    {
        out.push(s[j]);
        proof {
            assert(out@ =~= s@.subrange(from as int, j + 1));
        }
        j = j + 1;
    }
    out
}

} // verus!
