//! Reassembly of out-of-order TCP segments into a contiguous byte stream.
//!
//! The reassembler caches `(sequence, payload)` segments, keyed and ordered by
//! starting sequence number, and on every insertion drains the maximal
//! contiguous run that starts at the next expected sequence. Payloads that
//! begin before the expected sequence are trimmed so already-delivered bytes
//! are never emitted again; a duplicate starting sequence is replaced only by
//! a strictly longer payload. When the cached total exceeds
//! [`MAX_TCP_CACHE`] the expectation jumps to the earliest cached sequence,
//! giving up on the gap.
//!
//! The whole insertion step is modelled by [`insert_step`] over a
//! [`TcpModel`]; `insert_segment` is proved to realize that model exactly.

use vstd::prelude::*;

use crate::sequence::{seq_before, seq_distance};

verus! {

/// Cached bytes cap: 5 MiB. Beyond it the reassembler skips the gap.
pub const MAX_TCP_CACHE: usize = 5 * 1024 * 1024;

/// Mathematical state of the reassembler: the next expected sequence (unset
/// until the first insertion) and the cached segments, strictly sorted by
/// starting sequence.
#[verifier::ext_equal]
pub struct TcpModel {
    pub next: Option<u32>,
    pub segs: Seq<(u32, Seq<u8>)>,
}

/// What one drain pass yields: the emitted bytes, the final cursor, and the
/// segments that remain cached.
#[verifier::ext_equal]
pub struct DrainResult {
    pub bytes: Seq<u8>,
    pub cursor: u32,
    pub segs: Seq<(u32, Seq<u8>)>,
}

/// What one insertion yields: the new state and the emitted run, if any.
#[verifier::ext_equal]
pub struct StepResult {
    pub model: TcpModel,
    pub out: Option<Seq<u8>>,
}

/// Total number of cached payload bytes.
pub open spec fn seg_sum(segs: Seq<(u32, Seq<u8>)>) -> int
    decreases segs.len(),
{
    if segs.len() == 0 {
        0
    } else {
        segs[0].1.len() + seg_sum(segs.skip(1))
    }
}

/// Keys strictly increase, so they are also unique.
pub open spec fn segs_sorted(segs: Seq<(u32, Seq<u8>)>) -> bool {
    forall|i: int, j: int| 0 <= i < j < segs.len() ==> (#[trigger] segs[i]).0 < (#[trigger] segs[j]).0
}

/// Every cached payload is non-empty.
pub open spec fn segs_nonempty(segs: Seq<(u32, Seq<u8>)>) -> bool {
    forall|i: int| 0 <= i < segs.len() ==> (#[trigger] segs[i]).1.len() > 0
}

/// A well-formed cache.
pub open spec fn segs_inv(segs: Seq<(u32, Seq<u8>)>) -> bool {
    segs_sorted(segs) && segs_nonempty(segs)
}

/// The cursor moved forward by `len` bytes, wrapping modulo 2^32.
pub open spec fn advance(cursor: u32, len: int) -> u32 {
    ((cursor + len % 0x1_0000_0000) % 0x1_0000_0000) as u32
}

/// Whether some cached segment starts exactly at `key`.
pub open spec fn has_key(segs: Seq<(u32, Seq<u8>)>, key: u32) -> bool {
    exists|i: int| 0 <= i < segs.len() && (#[trigger] segs[i]).0 == key
}

/// The index of the segment starting at `key`.
pub open spec fn key_index(segs: Seq<(u32, Seq<u8>)>, key: u32) -> int {
    choose|i: int| 0 <= i < segs.len() && (#[trigger] segs[i]).0 == key
}

/// Removes the maximal contiguous run starting at `cursor`: repeatedly take
/// the segment at the cursor, append its bytes, and move the cursor past it.
pub open spec fn drain(segs: Seq<(u32, Seq<u8>)>, cursor: u32) -> DrainResult
    decreases segs.len(),
{
    if has_key(segs, cursor) && 0 <= key_index(segs, cursor) < segs.len() {
        let i = key_index(segs, cursor);
        let rest = drain(segs.remove(i), advance(cursor, segs[i].1.len() as int));
        DrainResult { bytes: segs[i].1 + rest.bytes, cursor: rest.cursor, segs: rest.segs }
    } else {
        DrainResult { bytes: Seq::empty(), cursor, segs }
    }
}

/// Where a new key belongs in the sorted cache: the number of keys before it.
pub open spec fn insert_pos(segs: Seq<(u32, Seq<u8>)>, key: u32) -> int
    decreases segs.len(),
{
    if segs.len() == 0 {
        0
    } else if segs[0].0 < key {
        1 + insert_pos(segs.skip(1), key)
    } else {
        0
    }
}

/// Stores `(start, data)` in the cache: an entry with the same key is
/// replaced only by strictly longer data; otherwise the entry is inserted in
/// key order.
pub open spec fn store(segs: Seq<(u32, Seq<u8>)>, start: u32, data: Seq<u8>) -> Seq<
    (u32, Seq<u8>),
> {
    if has_key(segs, start) {
        let i = key_index(segs, start);
        if data.len() > segs[i].1.len() {
            segs.update(i, (start, data))
        } else {
            segs
        }
    } else {
        segs.insert(insert_pos(segs, start), (start, data))
    }
}

/// One full insertion: trim, store, cap-triggered gap skip, drain.
pub open spec fn insert_step(m: TcpModel, seq: u32, payload: Seq<u8>) -> StepResult {
    if payload.len() == 0 {
        StepResult { model: m, out: None }
    } else {
        let expected = match m.next {
            Some(e) => e,
            None => seq,
        };
        if seq_before(seq, expected) && seq_distance(expected, seq) >= payload.len() {
            StepResult { model: TcpModel { next: Some(expected), segs: m.segs }, out: None }
        } else {
            let start = if seq_before(seq, expected) {
                expected
            } else {
                seq
            };
            let data = if seq_before(seq, expected) {
                payload.skip(seq_distance(expected, seq))
            } else {
                payload
            };
            let segs1 = store(m.segs, start, data);
            let base = if seg_sum(segs1) > MAX_TCP_CACHE && segs1.len() > 0 {
                segs1[0].0
            } else {
                expected
            };
            let d = drain(segs1, base);
            if d.bytes.len() == 0 {
                StepResult { model: TcpModel { next: Some(base), segs: d.segs }, out: None }
            } else {
                StepResult {
                    model: TcpModel { next: Some(d.cursor), segs: d.segs },
                    out: Some(d.bytes),
                }
            }
        }
    }
}

/// The sequence the drain starts from in [`insert_step`]: the expected
/// sequence, or the earliest cached sequence when the cap was breached.
pub open spec fn step_base(m: TcpModel, seq: u32, payload: Seq<u8>) -> u32 {
    let expected = match m.next {
        Some(e) => e,
        None => seq,
    };
    let start = if seq_before(seq, expected) {
        expected
    } else {
        seq
    };
    let data = if seq_before(seq, expected) {
        payload.skip(seq_distance(expected, seq))
    } else {
        payload
    };
    let segs1 = store(m.segs, start, data);
    if seg_sum(segs1) > MAX_TCP_CACHE && segs1.len() > 0 {
        segs1[0].0
    } else {
        expected
    }
}

proof fn lemma_insert_pos_bounds(segs: Seq<(u32, Seq<u8>)>, key: u32)
    requires
        segs_sorted(segs),
    ensures
        0 <= insert_pos(segs, key) <= segs.len(),
        forall|j: int| 0 <= j < insert_pos(segs, key) ==> (#[trigger] segs[j]).0 < key,
        forall|j: int| insert_pos(segs, key) <= j < segs.len() ==> (#[trigger] segs[j]).0 >= key,
    decreases segs.len(),
{
    if segs.len() == 0 {
    } else if segs[0].0 < key {
        let t = segs.skip(1);
        assert forall|a: int, b: int| 0 <= a < b < t.len() implies (#[trigger] t[a]).0 < (
        #[trigger] t[b]).0 by {
            assert(t[a] == segs[a + 1] && t[b] == segs[b + 1]);
        }
        lemma_insert_pos_bounds(t, key);
        let p = insert_pos(segs, key);
        assert forall|j: int| 0 <= j < p implies (#[trigger] segs[j]).0 < key by {
            if j > 0 {
                assert(t[j - 1] == segs[j]);
            }
        }
        assert forall|j: int| p <= j < segs.len() implies (#[trigger] segs[j]).0 >= key by {
            assert(t[j - 1] == segs[j]);
        }
    } else {
        assert forall|j: int| 0 <= j < segs.len() implies (#[trigger] segs[j]).0 >= key by {
            if j > 0 {
                assert(segs[0].0 < segs[j].0);
            }
        }
    }
}

/// Storing a non-empty trimmed payload keeps the cache well formed.
pub proof fn lemma_store_inv(segs: Seq<(u32, Seq<u8>)>, start: u32, data: Seq<u8>)
    requires
        segs_inv(segs),
        data.len() > 0,
    ensures
        segs_inv(store(segs, start, data)),
{
    if has_key(segs, start) {
        let i = key_index(segs, start);
        if data.len() > segs[i].1.len() {
            let u = segs.update(i, (start, data));
            assert forall|a: int, b: int| 0 <= a < b < u.len() implies (#[trigger] u[a]).0 < (
            #[trigger] u[b]).0 by {
                assert(segs[a].0 < segs[b].0);
            }
            assert forall|a: int| 0 <= a < u.len() implies (#[trigger] u[a]).1.len() > 0 by {
                if a != i {
                    assert(u[a] == segs[a]);
                }
            }
        }
    } else {
        lemma_insert_pos_bounds(segs, start);
        let p = insert_pos(segs, start);
        assert forall|j: int| p <= j < segs.len() implies (#[trigger] segs[j]).0 > start by {
            assert(segs[j].0 >= start);
            assert(segs[j].0 != start);
        }
        lemma_sorted_insert(segs, start, data, p);
    }
}

/// Every emission is one contiguous run: when an insertion returns bytes,
/// the run is non-empty, it begins exactly at the sequence the drain started
/// from (the expected sequence, unless the cap forced a gap skip), and the
/// new expectation lies exactly the run's length past it, modulo 2^32. So
/// the emissions of successive insertions concatenate into the contiguous
/// stream from the first accepted expectation, and a trimmed or duplicate
/// payload never re-emits delivered bytes.
pub proof fn lemma_insert_step_emission(m: TcpModel, seq: u32, payload: Seq<u8>)
    requires
        segs_inv(m.segs),
    ensures
        ({
            let step = insert_step(m, seq, payload);
            step.out matches Some(b) ==> {
                &&& b.len() > 0
                &&& step.model.next == Some(advance(step_base(m, seq, payload), b.len() as int))
            }
        }),
{
    let step = insert_step(m, seq, payload);
    if payload.len() == 0 {
    } else {
        let expected = match m.next {
            Some(e) => e,
            None => seq,
        };
        if seq_before(seq, expected) && seq_distance(expected, seq) >= payload.len() {
        } else {
            let start = if seq_before(seq, expected) {
                expected
            } else {
                seq
            };
            let data = if seq_before(seq, expected) {
                payload.skip(seq_distance(expected, seq))
            } else {
                payload
            };
            let segs1 = store(m.segs, start, data);
            lemma_store_inv(m.segs, start, data);
            lemma_drain_emission(segs1, step_base(m, seq, payload));
        }
    }
}

proof fn lemma_seg_sum_nonneg(segs: Seq<(u32, Seq<u8>)>)
    ensures
        seg_sum(segs) >= 0,
    decreases segs.len(),
{
    if segs.len() > 0 {
        lemma_seg_sum_nonneg(segs.skip(1));
    }
}

proof fn lemma_seg_sum_remove(segs: Seq<(u32, Seq<u8>)>, i: int)
    requires
        0 <= i < segs.len(),
    ensures
        seg_sum(segs.remove(i)) == seg_sum(segs) - segs[i].1.len(),
    decreases segs.len(),
{
    if i == 0 {
        assert(segs.remove(0) =~= segs.skip(1));
    } else {
        assert(segs.remove(i).skip(1) =~= segs.skip(1).remove(i - 1));
        assert(segs.remove(i)[0] == segs[0]);
        lemma_seg_sum_remove(segs.skip(1), i - 1);
    }
}

proof fn lemma_seg_sum_update(segs: Seq<(u32, Seq<u8>)>, i: int, e: (u32, Seq<u8>))
    requires
        0 <= i < segs.len(),
    ensures
        seg_sum(segs.update(i, e)) == seg_sum(segs) - segs[i].1.len() + e.1.len(),
    decreases segs.len(),
{
    if i == 0 {
        assert(segs.update(0, e).skip(1) =~= segs.skip(1));
        assert(segs.update(0, e)[0] == e);
    } else {
        assert(segs.update(i, e).skip(1) =~= segs.skip(1).update(i - 1, e));
        assert(segs.update(i, e)[0] == segs[0]);
        lemma_seg_sum_update(segs.skip(1), i - 1, e);
    }
}

proof fn lemma_seg_sum_insert(segs: Seq<(u32, Seq<u8>)>, i: int, e: (u32, Seq<u8>))
    requires
        0 <= i <= segs.len(),
    ensures
        seg_sum(segs.insert(i, e)) == seg_sum(segs) + e.1.len(),
    decreases segs.len(),
{
    if i == 0 {
        assert(segs.insert(0, e).skip(1) =~= segs);
        assert(segs.insert(0, e)[0] == e);
    } else {
        assert(segs.insert(i, e).skip(1) =~= segs.skip(1).insert(i - 1, e));
        assert(segs.insert(i, e)[0] == segs[0]);
        lemma_seg_sum_insert(segs.skip(1), i - 1, e);
    }
}

proof fn lemma_seg_sum_entry(segs: Seq<(u32, Seq<u8>)>, i: int)
    requires
        0 <= i < segs.len(),
    ensures
        segs[i].1.len() <= seg_sum(segs),
{
    lemma_seg_sum_remove(segs, i);
    lemma_seg_sum_nonneg(segs.remove(i));
}

/// In a strictly sorted cache, the index holding `key` is unique, so
/// `key_index` returns exactly it.
proof fn lemma_key_index(segs: Seq<(u32, Seq<u8>)>, key: u32, i: int)
    requires
        segs_sorted(segs),
        0 <= i < segs.len(),
        segs[i].0 == key,
    ensures
        has_key(segs, key),
        key_index(segs, key) == i,
{
    assert(has_key(segs, key));
    let j = key_index(segs, key);
    if j < i {
        assert(segs[j].0 < segs[i].0);
    } else if j > i {
        assert(segs[i].0 < segs[j].0);
    }
}

proof fn lemma_sorted_remove(segs: Seq<(u32, Seq<u8>)>, i: int)
    requires
        segs_inv(segs),
        0 <= i < segs.len(),
    ensures
        segs_inv(segs.remove(i)),
{
    let r = segs.remove(i);
    assert forall|a: int, b: int| 0 <= a < b < r.len() implies (#[trigger] r[a]).0 < (
    #[trigger] r[b]).0 by {
        let oa = if a < i {
            a
        } else {
            a + 1
        };
        let ob = if b < i {
            b
        } else {
            b + 1
        };
        assert(r[a] == segs[oa] && r[b] == segs[ob]);
    }
    assert forall|a: int| 0 <= a < r.len() implies (#[trigger] r[a]).1.len() > 0 by {
        let oa = if a < i {
            a
        } else {
            a + 1
        };
        assert(r[a] == segs[oa]);
    }
}

/// `insert_pos` is the unique boundary: all keys before it are smaller, all
/// keys from it on are at least `key`.
proof fn lemma_insert_pos_char(segs: Seq<(u32, Seq<u8>)>, key: u32, p: int)
    requires
        segs_sorted(segs),
        0 <= p <= segs.len(),
        forall|j: int| 0 <= j < p ==> (#[trigger] segs[j]).0 < key,
        forall|j: int| p <= j < segs.len() ==> (#[trigger] segs[j]).0 >= key,
    ensures
        insert_pos(segs, key) == p,
    decreases segs.len(),
{
    if segs.len() == 0 {
    } else if segs[0].0 < key {
        assert(p >= 1);
        let t = segs.skip(1);
        assert forall|j: int| 0 <= j < p - 1 implies (#[trigger] t[j]).0 < key by {
            assert(t[j] == segs[j + 1]);
        }
        assert forall|j: int| p - 1 <= j < t.len() implies (#[trigger] t[j]).0 >= key by {
            assert(t[j] == segs[j + 1]);
        }
        assert forall|a: int, b: int| 0 <= a < b < t.len() implies (#[trigger] t[a]).0 < (
        #[trigger] t[b]).0 by {
            assert(t[a] == segs[a + 1] && t[b] == segs[b + 1]);
        }
        lemma_insert_pos_char(t, key, p - 1);
    } else {
        assert(p == 0) by {
            if p > 0 {
                assert(segs[0].0 < key);
            }
        }
    }
}

/// Inserting a fresh key at its boundary keeps the cache sorted.
proof fn lemma_sorted_insert(segs: Seq<(u32, Seq<u8>)>, key: u32, data: Seq<u8>, p: int)
    requires
        segs_inv(segs),
        data.len() > 0,
        0 <= p <= segs.len(),
        forall|j: int| 0 <= j < p ==> (#[trigger] segs[j]).0 < key,
        forall|j: int| p <= j < segs.len() ==> (#[trigger] segs[j]).0 > key,
    ensures
        segs_inv(segs.insert(p, (key, data))),
{
    let r = segs.insert(p, (key, data));
    assert forall|a: int, b: int| 0 <= a < b < r.len() implies (#[trigger] r[a]).0 < (
    #[trigger] r[b]).0 by {
        if a < p {
            assert(r[a] == segs[a]);
        } else if a == p {
            assert(r[a] == (key, data));
        } else {
            assert(r[a] == segs[a - 1]);
        }
        if b < p {
            assert(r[b] == segs[b]);
        } else if b == p {
            assert(r[b] == (key, data));
        } else {
            assert(r[b] == segs[b - 1]);
        }
    }
    assert forall|a: int| 0 <= a < r.len() implies (#[trigger] r[a]).1.len() > 0 by {
        if a < p {
            assert(r[a] == segs[a]);
        } else if a == p {
        } else {
            assert(r[a] == segs[a - 1]);
        }
    }
}

/// Unfolds one drain step at a known index.
proof fn lemma_drain_unfold(segs: Seq<(u32, Seq<u8>)>, cursor: u32, i: int)
    requires
        segs_sorted(segs),
        0 <= i < segs.len(),
        segs[i].0 == cursor,
    ensures
        drain(segs, cursor) == (DrainResult {
            bytes: segs[i].1 + drain(
                segs.remove(i),
                advance(cursor, segs[i].1.len() as int),
            ).bytes,
            cursor: drain(segs.remove(i), advance(cursor, segs[i].1.len() as int)).cursor,
            segs: drain(segs.remove(i), advance(cursor, segs[i].1.len() as int)).segs,
        }),
{
    lemma_key_index(segs, cursor, i);
}

/// The drained run is contiguous: the cursor ends exactly its length past
/// where it started (modulo 2^32), the drained bytes leave the cached total,
/// and the remaining cache is still well formed. This is the heart of the
/// reassembler's stream-continuity guarantee: every emission advances the
/// expected sequence by exactly the number of bytes emitted, so successive
/// emissions concatenate into one contiguous stream with nothing re-emitted
/// and nothing skipped.
pub proof fn lemma_drain_emission(segs: Seq<(u32, Seq<u8>)>, cursor: u32)
    requires
        segs_inv(segs),
    ensures
        drain(segs, cursor).cursor == advance(cursor, drain(segs, cursor).bytes.len() as int),
        seg_sum(drain(segs, cursor).segs) == seg_sum(segs) - drain(segs, cursor).bytes.len(),
        segs_inv(drain(segs, cursor).segs),
    decreases segs.len(),
{
    if has_key(segs, cursor) && 0 <= key_index(segs, cursor) < segs.len() {
        let i = key_index(segs, cursor);
        let len0 = segs[i].1.len() as int;
        let cur1 = advance(cursor, len0);
        lemma_sorted_remove(segs, i);
        lemma_seg_sum_remove(segs, i);
        lemma_drain_emission(segs.remove(i), cur1);
        let rest = drain(segs.remove(i), cur1);
        lemma_advance_advance(cursor, len0, rest.bytes.len() as int);
    } else {
        assert(drain(segs, cursor).bytes.len() % 0x1_0000_0000 == 0);
        assert(advance(cursor, 0) == cursor) by {
            assert((cursor as int) % 0x1_0000_0000int == cursor as int);
        }
    }
}

proof fn lemma_advance_advance(cursor: u32, a: int, b: int)
    requires
        a >= 0,
        b >= 0,
    ensures
        advance(advance(cursor, a), b) == advance(cursor, a + b),
{
    let m = 0x1_0000_0000int;
    vstd::arithmetic::div_mod::lemma_add_mod_noop(cursor + a % m, b % m, m);
    vstd::arithmetic::div_mod::lemma_mod_twice(cursor + a % m, m);
    vstd::arithmetic::div_mod::lemma_mod_twice(b, m);
    assert(((cursor + a % m) % m + b % m) % m == ((cursor + a % m) + b % m) % m);
    vstd::arithmetic::div_mod::lemma_add_mod_noop(a, b, m);
    vstd::arithmetic::div_mod::lemma_add_mod_noop_right(cursor as int, a % m + b % m, m);
    vstd::arithmetic::div_mod::lemma_add_mod_noop_right(cursor as int, (a + b) % m, m);
}

/// The cached segments as their mathematical image.
pub open spec fn segs_of(cache: Seq<(u32, Vec<u8>)>) -> Seq<(u32, Seq<u8>)> {
    cache.map_values(|e: (u32, Vec<u8>)| (e.0, e.1@))
}

/// Per-connection TCP segment reassembler.
pub struct TCPReassembler {
    cache: Vec<(u32, Vec<u8>)>,
    next_seq: Option<u32>,
    buffered_bytes: usize,
}

impl View for TCPReassembler {
    type V = TcpModel;

    closed spec fn view(&self) -> TcpModel {
        TcpModel { next: self.next_seq, segs: segs_of(self.cache@) }
    }
}

impl TCPReassembler {
    /// The cache is sorted with non-empty payloads and the byte counter is
    /// exactly the cached total.
    pub closed spec fn inv(&self) -> bool {
        segs_inv(self@.segs) && self.buffered_bytes == seg_sum(self@.segs)
    }

    /// A reassembler with no cached segments and no expectation yet.
    pub fn new() -> (r: Self)
        ensures
            r.inv(),
            r@ == (TcpModel { next: None, segs: Seq::<(u32, Seq<u8>)>::empty() }),
    {
        let r = TCPReassembler { cache: Vec::new(), next_seq: None, buffered_bytes: 0 };
        proof {
            assert(r@.segs =~= Seq::<(u32, Seq<u8>)>::empty());
        }
        r
    }

    /// Drops all cached segments and sets the expectation for a new stream.
    pub fn reset(&mut self, next_seq: Option<u32>)
        ensures
            final(self).inv(),
            final(self)@ == (TcpModel { next: next_seq, segs: Seq::<(u32, Seq<u8>)>::empty() }),
    {
        self.cache.clear();
        self.buffered_bytes = 0;
        self.next_seq = next_seq;
        proof {
            assert(self@.segs =~= Seq::<(u32, Seq<u8>)>::empty());
        }
    }

    /// The sequence number the next emitted byte will carry, once known.
    pub fn next_sequence(&self) -> (r: Option<u32>)
        ensures
            r == self@.next,
    {
        self.next_seq
    }

    /// Index of the cached segment starting at `key`, by linear scan.
    fn find_index(cache: &Vec<(u32, Vec<u8>)>, key: u32) -> (r: Option<usize>)
        ensures
            match r {
                Some(i) => i < cache@.len() && segs_of(cache@)[i as int].0 == key,
                None => !has_key(segs_of(cache@), key),
            },
    {
        let mut i: usize = 0;
        while i < cache.len()
            invariant
                i <= cache@.len(),
                forall|j: int| 0 <= j < i ==> (#[trigger] segs_of(cache@)[j]).0 != key,
            decreases cache@.len() - i,
        {
            if cache[i].0 == key {
                return Some(i);
            }
            i = i + 1;
        }
        None
    }

    /// First cache position whose key is not below `key`.
    fn find_insert_pos(cache: &Vec<(u32, Vec<u8>)>, key: u32) -> (p: usize)
        requires
            segs_sorted(segs_of(cache@)),
        ensures
            p <= cache@.len(),
            forall|j: int| 0 <= j < p ==> (#[trigger] segs_of(cache@)[j]).0 < key,
            forall|j: int| p <= j < cache@.len() ==> (#[trigger] segs_of(cache@)[j]).0 >= key,
    {
        let mut p: usize = 0;
        while p < cache.len()
            invariant
                segs_sorted(segs_of(cache@)),
                p <= cache@.len(),
                forall|j: int| 0 <= j < p ==> (#[trigger] segs_of(cache@)[j]).0 < key,
            decreases cache@.len() - p,
        {
            if cache[p].0 >= key {
                proof {
                    assert forall|j: int| p <= j < cache@.len() implies (#[trigger] segs_of(
                        cache@,
                    )[j]).0 >= key by {
                        if j > p {
                            assert(segs_of(cache@).len() == cache@.len());
                            assert(0 <= p < j < segs_of(cache@).len());
                            assert((segs_of(cache@)[p as int]).0 < (segs_of(cache@)[j]).0);
                        }
                    }
                }
                return p;
            }
            p = p + 1;
        }
        p
    }

    /// Inserts one `(sequence, payload)` segment and returns the next
    /// contiguous run of the stream when the insertion completes one.
    ///
    /// The new state and the returned run are exactly [`insert_step`] applied
    /// to the old state: the payload is trimmed of bytes already delivered,
    /// cached unless a same-keyed entry is at least as long, and the maximal
    /// contiguous run from the expected sequence is drained and returned.
    /// Caches the trimmed payload `payload[offset ..]` under `start_seq`,
    /// realizing [`store`] on the model.
    fn store_segment(&mut self, start_seq: u32, payload: &[u8], offset: usize)
        requires
            old(self).inv(),
            offset < payload@.len(),
            seg_sum(old(self)@.segs) + payload@.len() <= usize::MAX,
        ensures
            final(self).inv(),
            final(self)@.next == old(self)@.next,
            final(self)@.segs == store(old(self)@.segs, start_seq, payload@.skip(offset as int)),
    {
        let data_len = payload.len() - offset;
        let ghost data = payload@.skip(offset as int);
        let ghost segs0 = old(self)@.segs;
        proof {
            assert(data.len() == data_len);
        }
        match Self::find_index(&self.cache, start_seq) {
            Some(i) => {
                proof {
                    lemma_key_index(segs0, start_seq, i as int);
                }
                if data_len > self.cache[i].1.len() {
                    let newv = crate::wire::slice_range_to_vec(payload, offset, payload.len());
                    let old_len = self.cache[i].1.len();
                    proof {
                        lemma_seg_sum_entry(segs0, i as int);
                        lemma_seg_sum_nonneg(segs0.remove(i as int));
                        lemma_seg_sum_remove(segs0, i as int);
                    }
                    self.buffered_bytes = self.buffered_bytes - old_len;
                    self.buffered_bytes = self.buffered_bytes + newv.len();
                    self.cache.remove(i);
                    self.cache.insert(i, (start_seq, newv));
                    proof {
                        assert(newv@ =~= data);
                        assert(self@.segs =~= segs0.update(i as int, (start_seq, data)));
                        lemma_seg_sum_update(segs0, i as int, (start_seq, data));
                        let u = segs0.update(i as int, (start_seq, data));
                        assert forall|a: int, b: int| 0 <= a < b < u.len() implies (
                        #[trigger] u[a]).0 < (#[trigger] u[b]).0 by {
                            assert(segs0[a].0 < segs0[b].0);
                        }
                        assert(segs_inv(self@.segs));
                    }
                }
            },
            None => {
                let newv = crate::wire::slice_range_to_vec(payload, offset, payload.len());
                let p = Self::find_insert_pos(&self.cache, start_seq);
                proof {
                    assert forall|j: int|
                        p <= j < segs0.len() implies (#[trigger] segs0[j]).0 > start_seq by {
                        assert(segs0[j].0 >= start_seq);
                        assert(segs0[j].0 != start_seq);
                    }
                    lemma_insert_pos_char(segs0, start_seq, p as int);
                    lemma_sorted_insert(segs0, start_seq, data, p as int);
                    lemma_seg_sum_insert(segs0, p as int, (start_seq, data));
                }
                self.cache.insert(p, (start_seq, newv));
                self.buffered_bytes = self.buffered_bytes + data_len;
                proof {
                    assert(newv@ =~= data);
                    assert(self@.segs =~= segs0.insert(p as int, (start_seq, data)));
                }
            },
        }
        proof {
            assert(self@.segs == store(segs0, start_seq, data));
        }
    }

    /// Removes and returns the maximal contiguous run starting at `base`,
    /// together with the cursor it ends at, realizing [`drain`] on the model.
    fn drain_from(&mut self, base: u32) -> (r: (Vec<u8>, u32))
        requires
            old(self).inv(),
        ensures
            final(self).inv(),
            final(self)@.next == old(self)@.next,
            r.0@ == drain(old(self)@.segs, base).bytes,
            r.1 == drain(old(self)@.segs, base).cursor,
            final(self)@.segs == drain(old(self)@.segs, base).segs,
    {
        let ghost segs1 = old(self)@.segs;
        let mut cursor = base;
        let mut output: Vec<u8> = Vec::new();
        proof {
            assert(drain(segs1, base).bytes =~= output@ + drain(segs1, base).bytes);
        }
        let mut found = Self::find_index(&self.cache, cursor);
        while found.is_some()
            invariant
                segs_inv(self@.segs),
                self.buffered_bytes == seg_sum(self@.segs),
                self.next_seq == old(self).next_seq,
                drain(segs1, base).bytes == output@ + drain(self@.segs, cursor).bytes,
                drain(segs1, base).cursor == drain(self@.segs, cursor).cursor,
                drain(segs1, base).segs == drain(self@.segs, cursor).segs,
                seg_sum(segs1) == seg_sum(self@.segs) + output@.len(),
                match found {
                    Some(i) => i < self.cache@.len() && (self@.segs[i as int]).0 == cursor,
                    None => !has_key(self@.segs, cursor),
                },
            decreases self.cache@.len(),
        {
            let i = found.unwrap();
            let ghost segs_pre = self@.segs;
            let ghost cursor_pre = cursor;
            proof {
                lemma_key_index(segs_pre, cursor, i as int);
                lemma_drain_unfold(segs_pre, cursor, i as int);
                lemma_sorted_remove(segs_pre, i as int);
                lemma_seg_sum_remove(segs_pre, i as int);
                lemma_seg_sum_entry(segs_pre, i as int);
                lemma_seg_sum_nonneg(segs_pre.remove(i as int));
            }
            let entry = self.cache.remove(i);
            proof {
                assert(self@.segs =~= segs_pre.remove(i as int));
            }
            self.buffered_bytes = self.buffered_bytes - entry.1.len();
            crate::wire::append_slice(&mut output, entry.1.as_slice());
            let step_u32 = ((entry.1.len() as u64) % 0x1_0000_0000u64) as u32;
            cursor = cursor.wrapping_add(step_u32);
            proof {
                let m = 0x1_0000_0000int;
                let l = entry.1@.len() as int;
                let s = cursor_pre + (l % m);
                if s >= m {
                    vstd::arithmetic::div_mod::lemma_mod_sub_multiples_vanish(s, m);
                    vstd::arithmetic::div_mod::lemma_small_mod((s - m) as nat, m as nat);
                } else {
                    vstd::arithmetic::div_mod::lemma_small_mod(s as nat, m as nat);
                }
                assert(cursor == advance(cursor_pre, l));
                assert(drain(segs1, base).bytes == output@ + drain(self@.segs, cursor).bytes);
            }
            found = Self::find_index(&self.cache, cursor);
        }
        proof {
            assert(drain(self@.segs, cursor).bytes == Seq::<u8>::empty());
            assert(drain(segs1, base).bytes =~= output@);
            assert(drain(segs1, base).segs == self@.segs);
            assert(drain(segs1, base).cursor == cursor);
        }
        (output, cursor)
    }

    /// Inserts one `(sequence, payload)` segment and returns the next
    /// contiguous run of the stream when the insertion completes one.
    ///
    /// The new state and the returned run are exactly [`insert_step`] applied
    /// to the old state: the payload is trimmed of bytes already delivered,
    /// cached unless a same-keyed entry is at least as long, and the maximal
    /// contiguous run from the expected sequence is drained and returned.
    #[verifier::rlimit(60)]
    pub fn insert_segment(&mut self, sequence_number: u32, payload: &[u8]) -> (r: Option<Vec<u8>>)
        requires
            old(self).inv(),
            seg_sum(old(self)@.segs) + payload@.len() <= usize::MAX,
        ensures
            final(self).inv(),
            final(self)@ == insert_step(old(self)@, sequence_number, payload@).model,
            match r {
                Some(v) => insert_step(old(self)@, sequence_number, payload@).out == Some(v@),
                None => insert_step(old(self)@, sequence_number, payload@).out is None,
            },
    {
        if payload.len() == 0 {
            return None;
        }
        let expected: u32 = match self.next_seq {
            Some(s) => s,
            None => {
                self.next_seq = Some(sequence_number);
                sequence_number
            },
        };
        let mut start_seq = sequence_number;
        let mut offset: usize = 0;
        if crate::sequence::tcp_sequence_before(start_seq, expected) {
            let overlap = expected.wrapping_sub(start_seq) as usize;
            proof {
                assert(overlap == seq_distance(expected, sequence_number));
            }
            if overlap >= payload.len() {
                return None;
            }
            start_seq = expected;
            offset = overlap;
        }
        let ghost data = payload@.skip(offset as int);
        proof {
            if offset == 0 {
                assert(data =~= payload@);
            }
        }
        self.store_segment(start_seq, payload, offset);
        let ghost segs1 = self@.segs;
        let base: u32 = if self.buffered_bytes > MAX_TCP_CACHE && self.cache.len() > 0 {
            self.cache[0].0
        } else {
            expected
        };
        self.next_seq = Some(base);
        let (output, cursor) = self.drain_from(base);
        proof {
            let step = insert_step(old(self)@, sequence_number, payload@);
            assert(segs1 == store(old(self)@.segs, start_seq, data));
            assert(step.model.segs == drain(segs1, base).segs);
            assert(self@.segs == step.model.segs);
        }
        if output.len() == 0 {
            proof {
                assert(self@ =~= insert_step(old(self)@, sequence_number, payload@).model);
            }
            None
        } else {
            self.next_seq = Some(cursor);
            proof {
                assert(self@ =~= insert_step(old(self)@, sequence_number, payload@).model);
                assert(insert_step(old(self)@, sequence_number, payload@).out == Some(output@));
            }
            Some(output)
        }
    }
}

} // verus!
