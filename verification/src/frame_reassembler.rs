//! Cutting a contiguous byte stream into length-prefixed application frames.
//!
//! A frame starts with a big-endian `u32` total length that counts the 4-byte
//! header itself, so a well-formed frame is at least 5 bytes: the header and a
//! non-empty body. A header announcing fewer than 5 bytes or more than
//! [`MAX_FRAME_BUFFER`] is absurd; the buffer is dropped to resynchronize and
//! the caller simply observes "no frame".

use vstd::prelude::*;

use crate::wire;

verus! {

/// Largest tolerated frame and buffer size: 10 MiB.
pub const MAX_FRAME_BUFFER: usize = 10 * 1024 * 1024;

/// The frame length announced by the first four buffered bytes.
pub open spec fn announced_len(buf: Seq<u8>) -> int {
    wire::be32_at(buf, 0)
}

/// The announced length is one no frame can have.
pub open spec fn absurd_len(buf: Seq<u8>) -> bool {
    announced_len(buf) < 5 || announced_len(buf) > MAX_FRAME_BUFFER
}

/// A complete frame sits at the front of the buffer.
pub open spec fn frame_ready(buf: Seq<u8>) -> bool {
    buf.len() >= 4 && !absurd_len(buf) && buf.len() >= announced_len(buf)
}

/// A well-formed frame: its announced length is its actual length, at least
/// the 4-byte header plus one body byte and within the buffer cap.
pub open spec fn wf_frame(f: Seq<u8>) -> bool {
    5 <= f.len() <= MAX_FRAME_BUFFER && announced_len(f) == f.len()
}

/// Framing is a left inverse of concatenation: a buffer holding well-formed
/// frames laid end to end has the first frame ready, extracting it yields
/// exactly that frame, and what remains is exactly the remaining frames laid
/// end to end. Applied after each `try_next`, this gives back `F1, F2, ...`
/// from their concatenation, however the bytes were chunked when fed, since
/// `push` and `feed_owned` just concatenate.
pub proof fn lemma_framing_left_inverse(frames: Seq<Seq<u8>>)
    requires
        frames.len() > 0,
        forall|i: int| 0 <= i < frames.len() ==> wf_frame(#[trigger] frames[i]),
    ensures
        frame_ready(frames.flatten()),
        announced_len(frames.flatten()) == frames[0].len(),
        frames.flatten().subrange(0, announced_len(frames.flatten())) == frames[0],
        frames.flatten().skip(announced_len(frames.flatten())) == frames.skip(1).flatten(),
{
    let buf = frames.flatten();
    let head = frames[0];
    let rest = frames.drop_first();
    assert(buf == head + rest.flatten());
    assert(rest =~= frames.skip(1));
    frames.lemma_flatten_length_ge_single_element_length(0);
    assert(buf.len() >= head.len());
    assert forall|j: int| 0 <= j < head.len() implies buf[j] == head[j] by {}
    assert(announced_len(buf) == announced_len(head));
    assert(buf.subrange(0, head.len() as int) =~= head);
    assert(buf.skip(head.len() as int) =~= rest.flatten());
}

/// Accumulates contiguous stream bytes and hands out complete frames.
pub struct Reassembler {
    buffer: Vec<u8>,
}

impl View for Reassembler {
    type V = Seq<u8>;

    closed spec fn view(&self) -> Seq<u8> {
        self.buffer@
    }
}

impl Reassembler {
    /// A reassembler with an empty buffer.
    pub fn new() -> (r: Self)
        ensures
            r@ == Seq::<u8>::empty(),
    {
        Reassembler { buffer: Vec::new() }
    }

    /// Appends incoming stream bytes. A buffer grown past
    /// [`MAX_FRAME_BUFFER`] is dropped whole to recover from malformed input.
    pub fn push(&mut self, data: &[u8])
        ensures
            final(self)@ == if old(self)@.len() + data@.len() <= MAX_FRAME_BUFFER {
                old(self)@ + data@
            } else {
                Seq::<u8>::empty()
            },
    {
        wire::append_slice(&mut self.buffer, data);
        if self.buffer.len() > MAX_FRAME_BUFFER {
            self.buffer.clear();
        }
    }

    /// Appends an owned buffer, reusing its allocation when the internal
    /// buffer is empty.
    pub fn feed_owned(&mut self, bytes: Vec<u8>)
        ensures
            final(self)@ == old(self)@ + bytes@,
    {
        if self.buffer.is_empty() {
            self.buffer = bytes;
            proof {
                assert(final(self)@ =~= old(self)@ + final(self).buffer@);
            }
            return ;
        }
        wire::append_slice(&mut self.buffer, bytes.as_slice());
    }

    /// Extracts the next complete frame, header included, or returns nothing.
    ///
    /// An absurd announced length empties the buffer; a frame that is handed
    /// out is removed from the front of the buffer and is never shorter than
    /// 5 bytes.
    pub fn try_next(&mut self) -> (r: Option<Vec<u8>>)
        ensures
            old(self)@.len() < 4 ==> r is None && final(self)@ == old(self)@,
            old(self)@.len() >= 4 && absurd_len(old(self)@) ==> r is None && final(self)@
                == Seq::<u8>::empty(),
            old(self)@.len() >= 4 && !absurd_len(old(self)@) && !frame_ready(old(self)@) ==> r
                is None && final(self)@ == old(self)@,
            frame_ready(old(self)@) ==> {
                &&& r matches Some(frame)
                &&& frame@ == old(self)@.subrange(0, announced_len(old(self)@))
                &&& final(self)@ == old(self)@.skip(announced_len(old(self)@))
            },
            r matches Some(frame) ==> 5 <= frame@.len() <= MAX_FRAME_BUFFER,
    {
        if self.buffer.len() < 4 {
            return None;
        }
        let frame_len = wire::read_u32_be(self.buffer.as_slice(), 0) as usize;
        if frame_len < 5 || frame_len > MAX_FRAME_BUFFER {
            self.buffer.clear();
            return None;
        }
        if self.buffer.len() < frame_len {
            return None;
        }
        let mut frame = self.buffer.split_off(frame_len);
        core::mem::swap(&mut frame, &mut self.buffer);
        Some(frame)
    }

    /// Drains all unconsumed bytes for teardown.
    pub fn take_remaining(&mut self) -> (r: Vec<u8>)
        ensures
            r@ == old(self)@,
            final(self)@ == Seq::<u8>::empty(),
    {
        let mut out: Vec<u8> = Vec::new();
        core::mem::swap(&mut out, &mut self.buffer);
        out
    }
}

} // verus!
