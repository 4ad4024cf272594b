//! The sub-packet walker: splits a frame into sub-packets, classifies each,
//! and collects the typed emissions in depth-first wire order.
//!
//! A sub-packet is `size:u32 BE, type:u16 BE, payload`, with `size` counting
//! the whole sub-packet. The high bit of `type` flags zstd compression; the
//! low 15 bits select the fragment type. A malformed header (size below 6,
//! or a sub-packet that would run past the frame) abandons the remainder of
//! the frame without emitting. Nested frames are walked recursively;
//! recursion into decompressed nests is capped at [`MAX_NEST_DEPTH`], since
//! only decompression can grow the data.

use vstd::prelude::*;

use crate::compress::{zstd_decode_all, zstd_decoded};
use crate::opcodes::{fragment_type_from, fragment_type_of, FragmentType, Pkt};
use crate::parser::{parse_notify_fragment, sp_notify};
use crate::wire;

verus! {

/// How deep nested decompressed frames may stack.
pub const MAX_NEST_DEPTH: u32 = 8;

/// The emitted pairs as their mathematical image.
pub open spec fn emissions_view(s: Seq<(Pkt, Vec<u8>)>) -> Seq<(Pkt, Seq<u8>)> {
    s.map_values(|e: (Pkt, Vec<u8>)| (e.0, e.1@))
}

/// What walking `frame` from `off` emits, with `depth` levels of
/// decompressed nesting still allowed.
pub open spec fn sp_walk(frame: Seq<u8>, off: int, depth: nat) -> Seq<(Pkt, Seq<u8>)>
    decreases depth, frame.len() - off, 1int,
{
    if !(0 <= off && off + 6 <= frame.len()) {
        Seq::empty()
    } else {
        let size = wire::be32_at(frame, off);
        if size < 6 || off + size > frame.len() {
            Seq::empty()
        } else {
            let end = off + size;
            sp_subpacket(frame, off, end, depth) + sp_walk(frame, end, depth)
        }
    }
}

/// What the single sub-packet `frame[off .. end]` emits.
pub open spec fn sp_subpacket(frame: Seq<u8>, off: int, end: int, depth: nat) -> Seq<
    (Pkt, Seq<u8>),
>
    decreases depth, frame.len() - off, 0int,
{
    if !(0 <= off && off + 6 <= end <= frame.len()) {
        Seq::empty()
    } else {
        let ptype = wire::be16_at(frame, off + 4);
        let compressed = ptype >= 0x8000;
        let disc = if compressed {
            ptype - 0x8000
        } else {
            ptype
        };
        if fragment_type_of(disc as u16) == FragmentType::Notify {
            match sp_notify(frame, off + 6, end, compressed) {
                None => Seq::empty(),
                Some(e) => seq![e],
            }
        } else if fragment_type_of(disc as u16) == FragmentType::FrameDown {
            if end - (off + 6) < 4 {
                Seq::empty()
            } else {
                let inner = frame.subrange(off + 10, end);
                if compressed {
                    match zstd_decoded(inner) {
                        None => Seq::empty(),
                        Some(d) => if depth > 0 {
                            sp_walk(d, 0, (depth - 1) as nat)
                        } else {
                            Seq::empty()
                        },
                    }
                } else {
                    sp_walk(inner, 0, depth)
                }
            }
        } else {
            Seq::empty()
        }
    }
}

/// Walks every sub-packet of `frame` and returns the typed `(opcode, body)`
/// emissions in depth-first wire order.
pub fn process_packet(frame: &[u8]) -> (r: Vec<(Pkt, Vec<u8>)>)
    ensures
        emissions_view(r@) == sp_walk(frame@, 0, MAX_NEST_DEPTH as nat),
{
    process_frame(frame, MAX_NEST_DEPTH)
}

fn process_frame(frame: &[u8], depth: u32) -> (r: Vec<(Pkt, Vec<u8>)>)
    ensures
        emissions_view(r@) == sp_walk(frame@, 0, depth as nat),
    decreases depth, frame@.len(),
{
    let n = frame.len();
    let mut out: Vec<(Pkt, Vec<u8>)> = Vec::new();
    let mut offset: usize = 0;
    proof {
        assert(emissions_view(out@) =~= Seq::<(Pkt, Seq<u8>)>::empty());
    }
    loop
        invariant_except_break
            n == frame@.len(),
            offset <= n,
            emissions_view(out@) + sp_walk(frame@, offset as int, depth as nat) == sp_walk(
                frame@,
                0,
                depth as nat,
            ),
        ensures
            emissions_view(out@) == sp_walk(frame@, 0, depth as nat),
        decreases n - offset,
    {
        if n < 6 || offset > n - 6 {
            proof {
                assert(sp_walk(frame@, offset as int, depth as nat) =~= Seq::<(
                    Pkt,
                    Seq<u8>,
                )>::empty());
                assert(emissions_view(out@) =~= sp_walk(frame@, 0, depth as nat));
            }
            break ;
        }
        let packet_size = wire::read_u32_be(frame, offset) as usize;
        if packet_size < 6 || packet_size > n - offset {
            proof {
                assert(sp_walk(frame@, offset as int, depth as nat) =~= Seq::<(
                    Pkt,
                    Seq<u8>,
                )>::empty());
                assert(emissions_view(out@) =~= sp_walk(frame@, 0, depth as nat));
            }
            break ;
        }
        let end = offset + packet_size;
        let ghost head = sp_subpacket(frame@, offset as int, end as int, depth as nat);
        proof {
            assert(sp_walk(frame@, offset as int, depth as nat) == head + sp_walk(
                frame@,
                end as int,
                depth as nat,
            ));
        }
        let packet_type = wire::read_u16_be(frame, offset + 4);
        let compressed = packet_type >= 0x8000;
        let disc = if compressed {
            packet_type - 0x8000
        } else {
            packet_type
        };
        match fragment_type_from(disc) {
            FragmentType::Notify => {
                match parse_notify_fragment(frame, offset + 6, end, compressed) {
                    Some(e) => {
                        let ghost before = out@;
                        out.push(e);
                        proof {
                            assert(emissions_view(out@) =~= emissions_view(before) + head);
                        }
                    },
                    None => {
                        proof {
                            assert(head =~= Seq::<(Pkt, Seq<u8>)>::empty());
                        }
                    },
                }
            },
            FragmentType::FrameDown => {
                if end - (offset + 6) < 4 {
                    proof {
                        assert(head =~= Seq::<(Pkt, Seq<u8>)>::empty());
                    }
                } else {
                    let nested_start = offset + 10;
                    let inner = vstd::slice::slice_subrange(frame, nested_start, end);
                    if compressed {
                        match zstd_decode_all(inner) {
                            Ok(decoded) => {
                                if depth > 0 {
                                    let mut nested = process_frame(decoded.as_slice(), depth - 1);
                                    let ghost before = out@;
                                    let ghost nested_view = nested@;
                                    out.append(&mut nested);
                                    proof {
                                        lemma_emissions_concat(before, nested_view);
                                        assert(emissions_view(out@) == emissions_view(before)
                                            + head);
                                    }
                                } else {
                                    proof {
                                        assert(head =~= Seq::<(Pkt, Seq<u8>)>::empty());
                                    }
                                }
                            },
                            Err(_) => {
                                proof {
                                    assert(head =~= Seq::<(Pkt, Seq<u8>)>::empty());
                                }
                            },
                        }
                    } else {
                        let mut nested = process_frame(inner, depth);
                        let ghost before = out@;
                        let ghost nested_view = nested@;
                        out.append(&mut nested);
                        proof {
                            lemma_emissions_concat(before, nested_view);
                            assert(emissions_view(out@) == emissions_view(before) + head);
                        }
                    }
                }
            },
            FragmentType::Other => {
                proof {
                    assert(head =~= Seq::<(Pkt, Seq<u8>)>::empty());
                }
            },
        }
        proof {
            assert(emissions_view(out@) + sp_walk(frame@, end as int, depth as nat) =~= sp_walk(
                frame@,
                0,
                depth as nat,
            ));
        }
        offset = end;
    }
    out
}

/// The walk visits each sub-packet exactly once, in wire order: at a
/// well-formed sub-packet header the walk emits that one sub-packet's
/// emissions followed by the walk of the rest of the frame, and at a
/// malformed header (size below 6, or a sub-packet running past the frame)
/// it abandons the remainder without emitting anything.
pub proof fn lemma_walk_visits_each(frame: Seq<u8>, off: int, depth: nat)
    requires
        0 <= off,
        off + 6 <= frame.len(),
    ensures
        6 <= wire::be32_at(frame, off) && off + wire::be32_at(frame, off) <= frame.len()
            ==> sp_walk(frame, off, depth) == sp_subpacket(
            frame,
            off,
            off + wire::be32_at(frame, off),
            depth,
        ) + sp_walk(frame, off + wire::be32_at(frame, off), depth),
        wire::be32_at(frame, off) < 6 || off + wire::be32_at(frame, off) > frame.len()
            ==> sp_walk(frame, off, depth) == Seq::<(Pkt, Seq<u8>)>::empty(),
{
}

/// A byte run that is exactly one sub-packet: its announced size is its
/// whole length.
pub open spec fn is_wf_subpacket(s: Seq<u8>) -> bool {
    6 <= s.len() <= 0xFFFF_FFFF && wire::be32_at(s, 0) == s.len()
}

proof fn lemma_notify_agree(
    f1: Seq<u8>,
    ps1: int,
    pe1: int,
    f2: Seq<u8>,
    ps2: int,
    pe2: int,
    compressed: bool,
)
    requires
        0 <= ps1 <= pe1 <= f1.len(),
        0 <= ps2 <= pe2 <= f2.len(),
        pe1 - ps1 == pe2 - ps2,
        f1.subrange(ps1, pe1) == f2.subrange(ps2, pe2),
    ensures
        sp_notify(f1, ps1, pe1, compressed) == sp_notify(f2, ps2, pe2, compressed),
{
    assert forall|j: int| ps1 <= j < pe1 implies #[trigger] f1[j] == f2[j - ps1 + ps2] by {
        assert(f1.subrange(ps1, pe1)[j - ps1] == f1[j]);
        assert(f2.subrange(ps2, pe2)[j - ps1] == f2[j - ps1 + ps2]);
    }
    if pe1 - ps1 >= 16 {
        assert(wire::be64_at(f1, ps1) == wire::be64_at(f2, ps2));
        assert(wire::be32_at(f1, ps1 + 12) == wire::be32_at(f2, ps2 + 12));
        assert(f1.subrange(ps1 + 16, pe1) =~= f2.subrange(ps2 + 16, pe2));
    }
}

proof fn lemma_subpacket_agree(
    f1: Seq<u8>,
    off1: int,
    end1: int,
    f2: Seq<u8>,
    off2: int,
    end2: int,
    depth: nat,
)
    requires
        0 <= off1 && off1 + 6 <= end1 <= f1.len(),
        0 <= off2 && off2 + 6 <= end2 <= f2.len(),
        end1 - off1 == end2 - off2,
        f1.subrange(off1, end1) == f2.subrange(off2, end2),
    ensures
        sp_subpacket(f1, off1, end1, depth) == sp_subpacket(f2, off2, end2, depth),
{
    assert forall|j: int| off1 <= j < end1 implies #[trigger] f1[j] == f2[j - off1 + off2] by {
        assert(f1.subrange(off1, end1)[j - off1] == f1[j]);
        assert(f2.subrange(off2, end2)[j - off1] == f2[j - off1 + off2]);
    }
    assert(wire::be16_at(f1, off1 + 4) == wire::be16_at(f2, off2 + 4));
    let ptype = wire::be16_at(f1, off1 + 4);
    let compressed = ptype >= 0x8000;
    let disc = if compressed {
        ptype - 0x8000
    } else {
        ptype
    };
    if fragment_type_of(disc as u16) == FragmentType::Notify {
        assert(f1.subrange(off1 + 6, end1) =~= f2.subrange(off2 + 6, end2));
        lemma_notify_agree(f1, off1 + 6, end1, f2, off2 + 6, end2, compressed);
    } else if fragment_type_of(disc as u16) == FragmentType::FrameDown {
        if end1 - (off1 + 6) >= 4 {
            assert(f1.subrange(off1 + 10, end1) =~= f2.subrange(off2 + 10, end2));
        }
    }
}

proof fn lemma_walk_shift(a: Seq<u8>, b: Seq<u8>, off: int, depth: nat)
    requires
        0 <= off,
    ensures
        sp_walk(a + b, a.len() + off, depth) == sp_walk(b, off, depth),
    decreases b.len() - off,
{
    let f = a + b;
    let al = a.len() as int;
    if off + 6 > b.len() {
    } else {
        assert forall|j: int| al <= j < f.len() implies #[trigger] f[j] == b[j - al] by {}
        assert(wire::be32_at(f, al + off) == wire::be32_at(b, off));
        let size = wire::be32_at(b, off);
        if size < 6 || off + size > b.len() {
        } else {
            assert(f.subrange(al + off, al + off + size) =~= b.subrange(off, off + size));
            lemma_subpacket_agree(f, al + off, al + off + size, b, off, off + size, depth);
            lemma_walk_shift(a, b, off + size, depth);
        }
    }
}

/// Walking a frame that is well-formed sub-packets laid end to end visits
/// each sub-packet exactly once, in order: the walk emits exactly the
/// concatenation of every sub-packet's own emissions.
pub proof fn lemma_walk_visits_all(subs: Seq<Seq<u8>>, depth: nat)
    requires
        forall|i: int| 0 <= i < subs.len() ==> is_wf_subpacket(#[trigger] subs[i]),
    ensures
        sp_walk(subs.flatten(), 0, depth) == subs.map_values(
            |s: Seq<u8>| sp_subpacket(s, 0, s.len() as int, depth),
        ).flatten(),
    decreases subs.len(),
{
    let emis = |s: Seq<u8>| sp_subpacket(s, 0, s.len() as int, depth);
    if subs.len() == 0 {
        assert(subs.flatten() =~= Seq::<u8>::empty());
        assert(subs.map_values(emis).flatten() =~= Seq::<(Pkt, Seq<u8>)>::empty());
    } else {
        let head = subs[0];
        let rest = subs.drop_first();
        let buf = subs.flatten();
        assert(buf == head + rest.flatten());
        assert forall|j: int| 0 <= j < head.len() implies #[trigger] buf[j] == head[j] by {}
        assert(wire::be32_at(buf, 0) == wire::be32_at(head, 0));
        subs.lemma_flatten_length_ge_single_element_length(0);
        assert(buf.subrange(0, head.len() as int) =~= head);
        assert(head.subrange(0, head.len() as int) =~= head);
        lemma_subpacket_agree(buf, 0, head.len() as int, head, 0, head.len() as int, depth);
        lemma_walk_shift(head, rest.flatten(), 0, depth);
        assert forall|i: int| 0 <= i < rest.len() implies is_wf_subpacket(#[trigger] rest[i]) by {
            assert(rest[i] == subs[i + 1]);
        }
        lemma_walk_visits_all(rest, depth);
        assert(subs.map_values(emis).drop_first() =~= rest.map_values(emis));
        assert(subs.map_values(emis).flatten() == subs.map_values(emis)[0] + subs.map_values(
            emis,
        ).drop_first().flatten());
        assert(sp_walk(buf, 0, depth) == sp_subpacket(buf, 0, head.len() as int, depth) + sp_walk(
            buf,
            head.len() as int,
            depth,
        ));
    }
}

proof fn lemma_emissions_concat(a: Seq<(Pkt, Vec<u8>)>, b: Seq<(Pkt, Vec<u8>)>)
    ensures
        emissions_view(a + b) == emissions_view(a) + emissions_view(b),
{
    assert(emissions_view(a + b) =~= emissions_view(a) + emissions_view(b));
}

} // verus!
