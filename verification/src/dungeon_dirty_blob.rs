//! Decoder for the dungeon-state tagged binary container.
//!
//! Every primitive in the format is a 32-bit little-endian integer followed
//! by 4 pad bytes, so each read consumes 8 bytes. A container is
//! `BEGIN, size, [field, value]*, END` with the structural sentinels
//! `BEGIN = -2`, `END = -3`, `EMPTY = -4`; `size` counts the body bytes, and
//! a size equal to `END` denotes an immediately empty container. Unknown
//! positive fields make the reader jump to the end of the container body; a
//! jump that would not move the cursor forward ends the walk, so the decoder
//! terminates on every input.
//!
//! Each executable parser is proved to return exactly what its spec function
//! (`sp_*`) denotes, so decoding is a pure function of the input bytes.

use vstd::prelude::*;

use crate::wire::i32_le_at;

verus! {

/// Opens a container body.
pub const TAG_BEGIN: i32 = -2;

/// Ends a field list; as a size, marks an empty container.
pub const TAG_END: i32 = -3;

/// As the first map count, marks an empty target map.
pub const TAG_EMPTY: i32 = -4;

/// One dungeon objective: `(target_id, nums, complete)`.
#[derive(Debug, Clone, Copy, PartialEq, Eq, Structural)]
pub struct DirtyDungeonTarget {
    pub target_id: i32,
    pub nums: i32,
    pub complete: i32,
}

/// The decoded dungeon state: an optional flow state and the objectives.
#[derive(Debug, Clone, PartialEq, Eq)]
pub struct DirtyDungeonData {
    pub flow_state: Option<i32>,
    pub targets: Vec<DirtyDungeonTarget>,
}

/// Why a blob was rejected.
#[derive(Debug, Clone, Copy, PartialEq, Eq, Structural)]
pub enum BlobError {
    /// A read ran past the end of the buffer.
    Eof,
    /// A container did not open with `BEGIN`; carries the tag found.
    BadBegin(i32),
    /// A container announced a negative size; carries that size.
    NegativeSize(i32),
    /// A container body would end past the end of the buffer.
    BodyOutOfRange,
    /// A target-map section count was negative.
    NegativeCount,
}

/// Ghost image of the decoded data, over mathematical sequences.
#[verifier::ext_equal]
pub struct DungeonModel {
    pub flow_state: Option<i32>,
    pub targets: Seq<DirtyDungeonTarget>,
}

/// `x`, clamped to at most `hi`.
pub open spec fn clampi(x: int, hi: int) -> int {
    if x > hi {
        hi
    } else {
        x
    }
}

/// Reads one padded `i32` at `off`: the value and the cursor after it.
pub open spec fn sp_read(s: Seq<u8>, off: int) -> Result<(i32, int), BlobError> {
    if 0 <= off && off + 8 <= s.len() {
        Ok((i32_le_at(s, off) as i32, off + 8))
    } else {
        Err(BlobError::Eof)
    }
}

/// Reads a container opening: `BEGIN` then `size`. Yields `None` for the
/// empty-container marker, else the clamped body end; second component is
/// the cursor at the body start.
pub open spec fn sp_header(s: Seq<u8>, off: int) -> Result<(Option<int>, int), BlobError> {
    match sp_read(s, off) {
        Err(e) => Err(e),
        Ok((begin, o1)) => if begin != TAG_BEGIN {
            Err(BlobError::BadBegin(begin))
        } else {
            match sp_read(s, o1) {
                Err(e) => Err(e),
                Ok((size, o2)) => if size == TAG_END {
                    Ok((None, o2))
                } else if size < 0 {
                    Err(BlobError::NegativeSize(size))
                } else if o2 + size > s.len() {
                    Err(BlobError::BodyOutOfRange)
                } else {
                    Ok((Some(o2 + size), o2))
                },
            }
        },
    }
}

/// Field walk of a target-data container: fields `1`, `2`, `3` set the
/// three components; other positive fields jump to the body end.
pub open spec fn sp_target_fields(
    s: Seq<u8>,
    off: int,
    body_end: int,
    acc: DirtyDungeonTarget,
) -> Result<(DirtyDungeonTarget, int), BlobError>
    decreases s.len() - off,
{
    match sp_read(s, off) {
        Err(e) => Err(e),
        Ok((field, o1)) => if field == TAG_END {
            Ok((acc, o1))
        } else if field <= 0 {
            Ok((acc, clampi(body_end, s.len() as int)))
        } else if 1 <= field <= 3 {
            match sp_read(s, o1) {
                Err(e) => Err(e),
                Ok((v, o2)) => {
                    let acc2 = if field == 1 {
                        DirtyDungeonTarget { target_id: v, ..acc }
                    } else if field == 2 {
                        DirtyDungeonTarget { nums: v, ..acc }
                    } else {
                        DirtyDungeonTarget { complete: v, ..acc }
                    };
                    if o2 + 8 > s.len() {
                        Ok((acc2, clampi(body_end, s.len() as int)))
                    } else {
                        sp_target_fields(s, o2, body_end, acc2)
                    }
                },
            }
        } else {
            let o3 = clampi(body_end, s.len() as int);
            if o3 + 8 > s.len() {
                Ok((acc, o3))
            } else if o3 <= off {
                Ok((acc, o3))
            } else {
                sp_target_fields(s, o3, body_end, acc)
            }
        },
    }
}

/// One target-data container.
pub open spec fn sp_target_data(s: Seq<u8>, off: int) -> Result<
    (DirtyDungeonTarget, int),
    BlobError,
> {
    let zero = DirtyDungeonTarget { target_id: 0, nums: 0, complete: 0 };
    match sp_header(s, off) {
        Err(e) => Err(e),
        Ok((opt_end, o)) => match opt_end {
            None => Ok((zero, o)),
            Some(body_end) => sp_target_fields(s, o, body_end, zero),
        },
    }
}

/// `n` map entries of `(key, target-data)`, appended to `acc`.
pub open spec fn sp_kv_entries(
    s: Seq<u8>,
    off: int,
    n: int,
    acc: Seq<DirtyDungeonTarget>,
) -> Result<(Seq<DirtyDungeonTarget>, int), BlobError>
    decreases n,
{
    if n <= 0 {
        Ok((acc, off))
    } else {
        match sp_read(s, off) {
            Err(e) => Err(e),
            Ok((_key, o1)) => match sp_target_data(s, o1) {
                Err(e) => Err(e),
                Ok((v, o2)) => sp_kv_entries(s, o2, n - 1, acc.push(v)),
            },
        }
    }
}

/// `n` map entries of bare keys, consumed and dropped.
pub open spec fn sp_key_entries(s: Seq<u8>, off: int, n: int) -> Result<int, BlobError>
    decreases n,
{
    if n <= 0 {
        Ok(off)
    } else {
        match sp_read(s, off) {
            Err(e) => Err(e),
            Ok((_key, o1)) => sp_key_entries(s, o1, n - 1),
        }
    }
}

/// The target map: three counts `(add, remove, update)` with the `EMPTY` and
/// `-1` special forms, then the add, remove and update sections. Entries of
/// the add and update sections both land in the result, in wire order.
pub open spec fn sp_target_map(s: Seq<u8>, off: int) -> Result<
    (Seq<DirtyDungeonTarget>, int),
    BlobError,
> {
    match sp_read(s, off) {
        Err(e) => Err(e),
        Ok((first, o1)) => if first == TAG_EMPTY {
            Ok((Seq::empty(), o1))
        } else {
            let counts = if first == -1 {
                match sp_read(s, o1) {
                    Err(e) => Err(e),
                    Ok((add, o2)) => Ok((add, 0i32, 0i32, o2)),
                }
            } else {
                match sp_read(s, o1) {
                    Err(e) => Err(e),
                    Ok((remove, o2)) => match sp_read(s, o2) {
                        Err(e) => Err(e),
                        Ok((update, o3)) => Ok((first, remove, update, o3)),
                    },
                }
            };
            match counts {
                Err(e) => Err(e),
                Ok((add, remove, update, o4)) => if add < 0 || remove < 0 || update < 0 {
                    Err(BlobError::NegativeCount)
                } else {
                    match sp_kv_entries(s, o4, add as int, Seq::empty()) {
                        Err(e) => Err(e),
                        Ok((added, o5)) => match sp_key_entries(s, o5, remove as int) {
                            Err(e) => Err(e),
                            Ok(o6) => sp_kv_entries(s, o6, update as int, added),
                        },
                    }
                },
            }
        },
    }
}

/// Field walk of the flow-info container: field `1` is the flow state.
pub open spec fn sp_flow_fields(s: Seq<u8>, off: int, body_end: int, acc: Option<i32>) -> Result<
    (Option<i32>, int),
    BlobError,
>
    decreases s.len() - off,
{
    match sp_read(s, off) {
        Err(e) => Err(e),
        Ok((field, o1)) => if field == TAG_END {
            Ok((acc, o1))
        } else if field <= 0 {
            Ok((acc, clampi(body_end, s.len() as int)))
        } else if field == 1 {
            match sp_read(s, o1) {
                Err(e) => Err(e),
                Ok((v, o2)) => if o2 + 8 > s.len() {
                    Ok((Some(v), clampi(body_end, s.len() as int)))
                } else {
                    sp_flow_fields(s, o2, body_end, Some(v))
                },
            }
        } else {
            let o3 = clampi(body_end, s.len() as int);
            if o3 + 8 > s.len() {
                Ok((acc, o3))
            } else if o3 <= off {
                Ok((acc, o3))
            } else {
                sp_flow_fields(s, o3, body_end, acc)
            }
        },
    }
}

/// The flow-info container.
pub open spec fn sp_flow(s: Seq<u8>, off: int) -> Result<(Option<i32>, int), BlobError> {
    match sp_header(s, off) {
        Err(e) => Err(e),
        Ok((opt_end, o)) => match opt_end {
            None => Ok((None, o)),
            Some(body_end) => sp_flow_fields(s, o, body_end, None),
        },
    }
}

proof fn lemma_target_fields_off(s: Seq<u8>, off: int, body_end: int, acc: DirtyDungeonTarget)
    ensures
        sp_target_fields(s, off, body_end, acc) matches Ok((v, o)) ==> o >= off + 8 || o
            == clampi(body_end, s.len() as int),
    decreases s.len() - off,
{
    match sp_read(s, off) {
        Err(_) => {},
        Ok((field, o1)) => {
            if field == TAG_END || field <= 0 {
            } else if 1 <= field <= 3 {
                match sp_read(s, o1) {
                    Err(_) => {},
                    Ok((v, o2)) => {
                        let acc2 = if field == 1 {
                            DirtyDungeonTarget { target_id: v, ..acc }
                        } else if field == 2 {
                            DirtyDungeonTarget { nums: v, ..acc }
                        } else {
                            DirtyDungeonTarget { complete: v, ..acc }
                        };
                        if o2 + 8 > s.len() {
                        } else {
                            lemma_target_fields_off(s, o2, body_end, acc2);
                        }
                    },
                }
            } else {
                let o3 = clampi(body_end, s.len() as int);
                if o3 + 8 > s.len() || o3 <= off {
                } else {
                    lemma_target_fields_off(s, o3, body_end, acc);
                }
            }
        },
    }
}

proof fn lemma_target_data_off(s: Seq<u8>, off: int)
    ensures
        sp_target_data(s, off) matches Ok((v, o)) ==> o >= off + 16,
{
    match sp_header(s, off) {
        Err(_) => {},
        Ok((opt_end, o)) => match opt_end {
            None => {},
            Some(body_end) => {
                lemma_target_fields_off(s, o, body_end, DirtyDungeonTarget {
                    target_id: 0,
                    nums: 0,
                    complete: 0,
                });
            },
        },
    }
}

proof fn lemma_flow_fields_off(s: Seq<u8>, off: int, body_end: int, acc: Option<i32>)
    ensures
        sp_flow_fields(s, off, body_end, acc) matches Ok((v, o)) ==> o >= off + 8 || o == clampi(
            body_end,
            s.len() as int,
        ),
    decreases s.len() - off,
{
    match sp_read(s, off) {
        Err(_) => {},
        Ok((field, o1)) => {
            if field == TAG_END || field <= 0 {
            } else if field == 1 {
                match sp_read(s, o1) {
                    Err(_) => {},
                    Ok((v, o2)) => {
                        if o2 + 8 > s.len() {
                        } else {
                            lemma_flow_fields_off(s, o2, body_end, Some(v));
                        }
                    },
                }
            } else {
                let o3 = clampi(body_end, s.len() as int);
                if o3 + 8 > s.len() || o3 <= off {
                } else {
                    lemma_flow_fields_off(s, o3, body_end, acc);
                }
            }
        },
    }
}

proof fn lemma_flow_off(s: Seq<u8>, off: int)
    ensures
        sp_flow(s, off) matches Ok((v, o)) ==> o >= off + 16,
{
    match sp_header(s, off) {
        Err(_) => {},
        Ok((opt_end, o)) => match opt_end {
            None => {},
            Some(body_end) => {
                lemma_flow_fields_off(s, o, body_end, None);
            },
        },
    }
}

proof fn lemma_kv_entries_off(s: Seq<u8>, off: int, n: int, acc: Seq<DirtyDungeonTarget>)
    ensures
        sp_kv_entries(s, off, n, acc) matches Ok((v, o)) ==> o >= off,
    decreases n,
{
    if n > 0 {
        match sp_read(s, off) {
            Err(_) => {},
            Ok((_key, o1)) => match sp_target_data(s, o1) {
                Err(_) => {},
                Ok((v, o2)) => {
                    lemma_target_data_off(s, o1);
                    lemma_kv_entries_off(s, o2, n - 1, acc.push(v));
                },
            },
        }
    }
}

proof fn lemma_key_entries_off(s: Seq<u8>, off: int, n: int)
    ensures
        sp_key_entries(s, off, n) matches Ok(o) ==> o >= off,
    decreases n,
{
    if n > 0 {
        match sp_read(s, off) {
            Err(_) => {},
            Ok((_key, o1)) => {
                lemma_key_entries_off(s, o1, n - 1);
            },
        }
    }
}

proof fn lemma_target_map_off(s: Seq<u8>, off: int)
    ensures
        sp_target_map(s, off) matches Ok((v, o)) ==> o >= off + 8,
{
    match sp_read(s, off) {
        Err(_) => {},
        Ok((first, o1)) => {
            if first == TAG_EMPTY {
            } else {
                if first == -1 {
                    match sp_read(s, o1) {
                        Err(_) => {},
                        Ok((add, o2)) => {
                            if add >= 0 {
                                lemma_kv_entries_off(s, o2, add as int, Seq::empty());
                            }
                        },
                    }
                } else {
                    match sp_read(s, o1) {
                        Err(_) => {},
                        Ok((remove, o2)) => match sp_read(s, o2) {
                            Err(_) => {},
                            Ok((update, o3)) => {
                                if first >= 0 && remove >= 0 && update >= 0 {
                                    lemma_kv_entries_off(s, o3, first as int, Seq::empty());
                                    match sp_kv_entries(s, o3, first as int, Seq::empty()) {
                                        Err(_) => {},
                                        Ok((added, o5)) => {
                                            lemma_key_entries_off(s, o5, remove as int);
                                            match sp_key_entries(s, o5, remove as int) {
                                                Err(_) => {},
                                                Ok(o6) => {
                                                    lemma_kv_entries_off(
                                                        s,
                                                        o6,
                                                        update as int,
                                                        added,
                                                    );
                                                },
                                            }
                                        },
                                    }
                                }
                            },
                        },
                    }
                }
            }
        },
    }
}

/// Field walk of the targets container: field `1` is the target map.
pub open spec fn sp_targets_fields(
    s: Seq<u8>,
    off: int,
    body_end: int,
    acc: Seq<DirtyDungeonTarget>,
) -> Result<(Seq<DirtyDungeonTarget>, int), BlobError>
    decreases s.len() - off,
    via sp_targets_fields_dec
{
    match sp_read(s, off) {
        Err(e) => Err(e),
        Ok((field, o1)) => if field == TAG_END {
            Ok((acc, o1))
        } else if field <= 0 {
            Ok((acc, clampi(body_end, s.len() as int)))
        } else if field == 1 {
            match sp_target_map(s, o1) {
                Err(e) => Err(e),
                Ok((v, o2)) => if o2 + 8 > s.len() {
                    Ok((v, clampi(body_end, s.len() as int)))
                } else {
                    sp_targets_fields(s, o2, body_end, v)
                },
            }
        } else {
            let o3 = clampi(body_end, s.len() as int);
            if o3 + 8 > s.len() {
                Ok((acc, o3))
            } else if o3 <= off {
                Ok((acc, o3))
            } else {
                sp_targets_fields(s, o3, body_end, acc)
            }
        },
    }
}

#[via_fn]
proof fn sp_targets_fields_dec(s: Seq<u8>, off: int, body_end: int, acc: Seq<DirtyDungeonTarget>) {
    match sp_read(s, off) {
        Err(_) => {},
        Ok((field, o1)) => {
            if field == 1 {
                lemma_target_map_off(s, o1);
            }
        },
    }
}

/// The targets container.
pub open spec fn sp_targets_container(s: Seq<u8>, off: int) -> Result<
    (Seq<DirtyDungeonTarget>, int),
    BlobError,
> {
    match sp_header(s, off) {
        Err(e) => Err(e),
        Ok((opt_end, o)) => match opt_end {
            None => Ok((Seq::empty(), o)),
            Some(body_end) => sp_targets_fields(s, o, body_end, Seq::empty()),
        },
    }
}

proof fn lemma_targets_fields_off(
    s: Seq<u8>,
    off: int,
    body_end: int,
    acc: Seq<DirtyDungeonTarget>,
)
    ensures
        sp_targets_fields(s, off, body_end, acc) matches Ok((v, o)) ==> o >= off + 8 || o
            == clampi(body_end, s.len() as int),
    decreases s.len() - off,
{
    match sp_read(s, off) {
        Err(_) => {},
        Ok((field, o1)) => {
            if field == TAG_END || field <= 0 {
            } else if field == 1 {
                match sp_target_map(s, o1) {
                    Err(_) => {},
                    Ok((v, o2)) => {
                        lemma_target_map_off(s, o1);
                        if o2 + 8 > s.len() {
                        } else {
                            lemma_targets_fields_off(s, o2, body_end, v);
                        }
                    },
                }
            } else {
                let o3 = clampi(body_end, s.len() as int);
                if o3 + 8 > s.len() || o3 <= off {
                } else {
                    lemma_targets_fields_off(s, o3, body_end, acc);
                }
            }
        },
    }
}

proof fn lemma_targets_container_off(s: Seq<u8>, off: int)
    ensures
        sp_targets_container(s, off) matches Ok((v, o)) ==> o >= off + 16,
{
    match sp_header(s, off) {
        Err(_) => {},
        Ok((opt_end, o)) => match opt_end {
            None => {},
            Some(body_end) => {
                lemma_targets_fields_off(s, o, body_end, Seq::empty());
            },
        },
    }
}

/// Field walk of the outermost container: field `2` is the flow info, field
/// `4` the targets container.
pub open spec fn sp_top_fields(s: Seq<u8>, off: int, body_end: int, acc: DungeonModel) -> Result<
    (DungeonModel, int),
    BlobError,
>
    decreases s.len() - off,
    via sp_top_fields_dec
{
    match sp_read(s, off) {
        Err(e) => Err(e),
        Ok((field, o1)) => if field == TAG_END {
            Ok((acc, o1))
        } else if field <= 0 {
            Ok((acc, clampi(body_end, s.len() as int)))
        } else if field == 2 {
            match sp_flow(s, o1) {
                Err(e) => Err(e),
                Ok((fs, o2)) => {
                    let acc2 = DungeonModel { flow_state: fs, targets: acc.targets };
                    if o2 + 8 > s.len() {
                        Ok((acc2, clampi(body_end, s.len() as int)))
                    } else {
                        sp_top_fields(s, o2, body_end, acc2)
                    }
                },
            }
        } else if field == 4 {
            match sp_targets_container(s, o1) {
                Err(e) => Err(e),
                Ok((ts, o2)) => {
                    let acc2 = DungeonModel { flow_state: acc.flow_state, targets: ts };
                    if o2 + 8 > s.len() {
                        Ok((acc2, clampi(body_end, s.len() as int)))
                    } else {
                        sp_top_fields(s, o2, body_end, acc2)
                    }
                },
            }
        } else {
            let o3 = clampi(body_end, s.len() as int);
            if o3 + 8 > s.len() {
                Ok((acc, o3))
            } else if o3 <= off {
                Ok((acc, o3))
            } else {
                sp_top_fields(s, o3, body_end, acc)
            }
        },
    }
}

#[via_fn]
proof fn sp_top_fields_dec(s: Seq<u8>, off: int, body_end: int, acc: DungeonModel) {
    match sp_read(s, off) {
        Err(_) => {},
        Ok((field, o1)) => {
            if field == 2 {
                lemma_flow_off(s, o1);
            } else if field == 4 {
                lemma_targets_container_off(s, o1);
            }
        },
    }
}

/// A reading position inside a blob.
pub struct BlobCursor<'a> {
    data: &'a [u8],
    offset: usize,
}

impl<'a> BlobCursor<'a> {
    /// The bytes being decoded.
    pub closed spec fn data_view(&self) -> Seq<u8> {
        self.data@
    }

    /// The current read position.
    pub closed spec fn off(&self) -> int {
        self.offset as int
    }

    /// The position never passes the end of the data.
    pub closed spec fn wf(&self) -> bool {
        self.offset <= self.data@.len()
    }

    /// A cursor at the start of `data`.
    pub fn new(data: &'a [u8]) -> (r: Self)
        ensures
            r.wf(),
            r.data_view() == data@,
            r.off() == 0,
    {
        BlobCursor { data, offset: 0 }
    }

    /// Moves the cursor, clamped to the end of the data.
    pub fn set_offset(&mut self, offset: usize)
        ensures
            final(self).wf(),
            final(self).data_view() == old(self).data_view(),
            final(self).off() == clampi(offset as int, old(self).data_view().len() as int),
    {
        let n = self.data.len();
        self.offset = if offset < n {
            offset
        } else {
            n
        };
    }

    /// Reads one 32-bit little-endian value and consumes its 4 pad bytes.
    pub fn read_i32_padded(&mut self) -> (r: Result<i32, BlobError>)
        requires
            old(self).wf(),
        ensures
            final(self).wf(),
            final(self).data_view() == old(self).data_view(),
            match sp_read(old(self).data_view(), old(self).off()) {
                Ok((v, o)) => r == Ok::<i32, BlobError>(v) && final(self).off() == o,
                Err(e) => r == Err::<i32, BlobError>(e) && final(self).off() == old(self).off(),
            },
    {
        let n = self.data.len();
        if n < 8 || self.offset > n - 8 {
            return Err(BlobError::Eof);
        }
        let v = crate::wire::read_i32_le(self.data, self.offset);
        self.offset = self.offset + 8;
        Ok(v)
    }
}

/// Reads a container opening: checks the `BEGIN` tag and the announced size,
/// and returns the body-end position, or `None` for an empty container.
pub fn parse_container(cur: &mut BlobCursor<'_>) -> (r: Result<Option<usize>, BlobError>)
    requires
        old(cur).wf(),
    ensures
        final(cur).wf(),
        final(cur).data_view() == old(cur).data_view(),
        match sp_header(old(cur).data_view(), old(cur).off()) {
            Ok((opt_end, o)) => {
                &&& final(cur).off() == o
                &&& match opt_end {
                    Some(be) => r matches Ok(x) && x matches Some(b) && b == be && be
                        <= old(cur).data_view().len(),
                    None => r == Ok::<Option<usize>, BlobError>(None),
                }
            },
            Err(e) => r == Err::<Option<usize>, BlobError>(e),
        },
{
    let begin = match cur.read_i32_padded() {
        Err(e) => return Err(e),
        Ok(v) => v,
    };
    if begin != TAG_BEGIN {
        return Err(BlobError::BadBegin(begin));
    }
    let size = match cur.read_i32_padded() {
        Err(e) => return Err(e),
        Ok(v) => v,
    };
    if size == TAG_END {
        return Ok(None);
    }
    if size < 0 {
        return Err(BlobError::NegativeSize(size));
    }
    let n = cur.data.len();
    if size as usize > n - cur.offset {
        return Err(BlobError::BodyOutOfRange);
    }
    Ok(Some(cur.offset + size as usize))
}

/// Decodes one target-data container: fields `1`, `2`, `3` carry the
/// target id, the nums counter and the completion flag.
pub fn parse_dungeon_target_data(cur: &mut BlobCursor<'_>) -> (r: Result<
    DirtyDungeonTarget,
    BlobError,
>)
    requires
        old(cur).wf(),
    ensures
        final(cur).wf(),
        final(cur).data_view() == old(cur).data_view(),
        match sp_target_data(old(cur).data_view(), old(cur).off()) {
            Ok((v, o)) => r == Ok::<DirtyDungeonTarget, BlobError>(v) && final(cur).off() == o,
            Err(e) => r == Err::<DirtyDungeonTarget, BlobError>(e),
        },
{
    let ghost data = old(cur).data_view();
    let mut out = DirtyDungeonTarget { target_id: 0, nums: 0, complete: 0 };
    let body_end = match parse_container(cur) {
        Err(e) => return Err(e),
        Ok(None) => return Ok(out),
        Ok(Some(be)) => be,
    };
    proof {
        assert(sp_target_data(data, old(cur).off()) == sp_target_fields(
            data,
            cur.off(),
            body_end as int,
            out,
        ));
    }
    loop
        invariant
            cur.wf(),
            cur.data_view() == old(cur).data_view(),
            body_end <= old(cur).data_view().len(),
            sp_target_data(old(cur).data_view(), old(cur).off()) == sp_target_fields(
                old(cur).data_view(),
                cur.off(),
                body_end as int,
                out,
            ),
        decreases old(cur).data_view().len() - cur.off(),
    {
        let off_iter = cur.offset;
        let field = match cur.read_i32_padded() {
            Err(e) => return Err(e),
            Ok(v) => v,
        };
        if field == TAG_END {
            return Ok(out);
        }
        if field <= 0 {
            cur.set_offset(body_end);
            return Ok(out);
        }
        if field <= 3 {
            let v = match cur.read_i32_padded() {
                Err(e) => return Err(e),
                Ok(v) => v,
            };
            if field == 1 {
                out.target_id = v;
            } else if field == 2 {
                out.nums = v;
            } else {
                out.complete = v;
            }
            let n = cur.data.len();
            if n < 8 || cur.offset > n - 8 {
                cur.set_offset(body_end);
                return Ok(out);
            }
        } else {
            cur.set_offset(body_end);
            let n = cur.data.len();
            if n < 8 || cur.offset > n - 8 {
                return Ok(out);
            }
            if cur.offset <= off_iter {
                return Ok(out);
            }
        }
    }
}

/// Decodes the flow-info container: field `1` carries the flow state.
pub fn parse_flow_info_state(cur: &mut BlobCursor<'_>) -> (r: Result<Option<i32>, BlobError>)
    requires
        old(cur).wf(),
    ensures
        final(cur).wf(),
        final(cur).data_view() == old(cur).data_view(),
        match sp_flow(old(cur).data_view(), old(cur).off()) {
            Ok((v, o)) => r == Ok::<Option<i32>, BlobError>(v) && final(cur).off() == o,
            Err(e) => r == Err::<Option<i32>, BlobError>(e),
        },
{
    let ghost data = old(cur).data_view();
    let mut state: Option<i32> = None;
    let body_end = match parse_container(cur) {
        Err(e) => return Err(e),
        Ok(None) => return Ok(state),
        Ok(Some(be)) => be,
    };
    proof {
        assert(sp_flow(data, old(cur).off()) == sp_flow_fields(
            data,
            cur.off(),
            body_end as int,
            state,
        ));
    }
    loop
        invariant
            cur.wf(),
            cur.data_view() == old(cur).data_view(),
            body_end <= old(cur).data_view().len(),
            sp_flow(old(cur).data_view(), old(cur).off()) == sp_flow_fields(
                old(cur).data_view(),
                cur.off(),
                body_end as int,
                state,
            ),
        decreases old(cur).data_view().len() - cur.off(),
    {
        let off_iter = cur.offset;
        let field = match cur.read_i32_padded() {
            Err(e) => return Err(e),
            Ok(v) => v,
        };
        if field == TAG_END {
            return Ok(state);
        }
        if field <= 0 {
            cur.set_offset(body_end);
            return Ok(state);
        }
        if field == 1 {
            let v = match cur.read_i32_padded() {
                Err(e) => return Err(e),
                Ok(v) => v,
            };
            state = Some(v);
            let n = cur.data.len();
            if n < 8 || cur.offset > n - 8 {
                cur.set_offset(body_end);
                return Ok(state);
            }
        } else {
            cur.set_offset(body_end);
            let n = cur.data.len();
            if n < 8 || cur.offset > n - 8 {
                return Ok(state);
            }
            if cur.offset <= off_iter {
                return Ok(state);
            }
        }
    }
}

/// Decodes the target map: counts, then the add, remove and update
/// sections; add and update entries both land in the result in wire order.
pub fn parse_target_map(cur: &mut BlobCursor<'_>) -> (r: Result<Vec<DirtyDungeonTarget>, BlobError>)
    requires
        old(cur).wf(),
    ensures
        final(cur).wf(),
        final(cur).data_view() == old(cur).data_view(),
        match sp_target_map(old(cur).data_view(), old(cur).off()) {
            Ok((v, o)) => r matches Ok(entries) && entries@ == v && final(cur).off() == o,
            Err(e) => r matches Err(e2) && e2 == e,
        },
{
    let ghost data = old(cur).data_view();
    let mut entries: Vec<DirtyDungeonTarget> = Vec::new();
    let first = match cur.read_i32_padded() {
        Err(e) => return Err(e),
        Ok(v) => v,
    };
    if first == TAG_EMPTY {
        proof {
            assert(entries@ =~= Seq::<DirtyDungeonTarget>::empty());
        }
        return Ok(entries);
    }
    let add: i32;
    let mut remove: i32 = 0;
    let mut update: i32 = 0;
    if first == -1 {
        add = match cur.read_i32_padded() {
            Err(e) => return Err(e),
            Ok(v) => v,
        };
    } else {
        add = first;
        remove = match cur.read_i32_padded() {
            Err(e) => return Err(e),
            Ok(v) => v,
        };
        update = match cur.read_i32_padded() {
            Err(e) => return Err(e),
            Ok(v) => v,
        };
    }
    if add < 0 || remove < 0 || update < 0 {
        return Err(BlobError::NegativeCount);
    }
    let mut i: i32 = 0;
    while i < add
        invariant
            cur.wf(),
            cur.data_view() == old(cur).data_view(),
            0 <= i <= add,
            0 <= remove,
            0 <= update,
            sp_target_map(old(cur).data_view(), old(cur).off()) == (match sp_kv_entries(
                old(cur).data_view(),
                cur.off(),
                add - i,
                entries@,
            ) {
                Err(e) => Err(e),
                Ok((added, o5)) => match sp_key_entries(old(cur).data_view(), o5, remove as int) {
                    Err(e) => Err(e),
                    Ok(o6) => sp_kv_entries(old(cur).data_view(), o6, update as int, added),
                },
            }),
        decreases add - i,
    {
        match cur.read_i32_padded() {
            Err(e) => return Err(e),
            Ok(_key) => {},
        };
        let v = match parse_dungeon_target_data(cur) {
            Err(e) => return Err(e),
            Ok(v) => v,
        };
        entries.push(v);
        i = i + 1;
    }
    let mut j: i32 = 0;
    while j < remove
        invariant
            cur.wf(),
            cur.data_view() == old(cur).data_view(),
            0 <= j <= remove,
            0 <= update,
            sp_target_map(old(cur).data_view(), old(cur).off()) == (match sp_key_entries(
                old(cur).data_view(),
                cur.off(),
                remove - j,
            ) {
                Err(e) => Err(e),
                Ok(o6) => sp_kv_entries(old(cur).data_view(), o6, update as int, entries@),
            }),
        decreases remove - j,
    {
        match cur.read_i32_padded() {
            Err(e) => return Err(e),
            Ok(_key) => {},
        };
        j = j + 1;
    }
    let mut k: i32 = 0;
    while k < update
        invariant
            cur.wf(),
            cur.data_view() == old(cur).data_view(),
            0 <= k <= update,
            sp_target_map(old(cur).data_view(), old(cur).off()) == sp_kv_entries(
                old(cur).data_view(),
                cur.off(),
                update - k,
                entries@,
            ),
        decreases update - k,
    {
        match cur.read_i32_padded() {
            Err(e) => return Err(e),
            Ok(_key) => {},
        };
        let v = match parse_dungeon_target_data(cur) {
            Err(e) => return Err(e),
            Ok(v) => v,
        };
        entries.push(v);
        k = k + 1;
    }
    Ok(entries)
}

/// The full decode: the outermost container walked from offset 0.
pub open spec fn sp_dirty(s: Seq<u8>) -> Result<DungeonModel, BlobError> {
    let zero = DungeonModel { flow_state: None, targets: Seq::empty() };
    match sp_header(s, 0) {
        Err(e) => Err(e),
        Ok((opt_end, o)) => match opt_end {
            None => Ok(zero),
            Some(body_end) => match sp_top_fields(s, o, body_end, zero) {
                Err(e) => Err(e),
                Ok((m, _)) => Ok(m),
            },
        },
    }
}

/// Decodes the targets container: field `1` carries the target map.
pub fn parse_targets_container(cur: &mut BlobCursor<'_>) -> (r: Result<
    Vec<DirtyDungeonTarget>,
    BlobError,
>)
    requires
        old(cur).wf(),
    ensures
        final(cur).wf(),
        final(cur).data_view() == old(cur).data_view(),
        match sp_targets_container(old(cur).data_view(), old(cur).off()) {
            Ok((v, o)) => r matches Ok(entries) && entries@ == v && final(cur).off() == o,
            Err(e) => r matches Err(e2) && e2 == e,
        },
{
    let ghost data = old(cur).data_view();
    let mut targets: Vec<DirtyDungeonTarget> = Vec::new();
    let body_end = match parse_container(cur) {
        Err(e) => return Err(e),
        Ok(None) => {
            proof {
                assert(targets@ =~= Seq::<DirtyDungeonTarget>::empty());
            }
            return Ok(targets);
        },
        Ok(Some(be)) => be,
    };
    proof {
        assert(targets@ =~= Seq::<DirtyDungeonTarget>::empty());
        assert(sp_targets_container(data, old(cur).off()) == sp_targets_fields(
            data,
            cur.off(),
            body_end as int,
            targets@,
        ));
    }
    loop
        invariant
            cur.wf(),
            cur.data_view() == old(cur).data_view(),
            body_end <= old(cur).data_view().len(),
            sp_targets_container(old(cur).data_view(), old(cur).off()) == sp_targets_fields(
                old(cur).data_view(),
                cur.off(),
                body_end as int,
                targets@,
            ),
        decreases old(cur).data_view().len() - cur.off(),
    {
        let off_iter = cur.offset;
        let field = match cur.read_i32_padded() {
            Err(e) => return Err(e),
            Ok(v) => v,
        };
        if field == TAG_END {
            return Ok(targets);
        }
        if field <= 0 {
            cur.set_offset(body_end);
            return Ok(targets);
        }
        if field == 1 {
            proof {
                lemma_target_map_off(cur.data_view(), cur.off());
            }
            targets = match parse_target_map(cur) {
                Err(e) => return Err(e),
                Ok(v) => v,
            };
            let n = cur.data.len();
            if n < 8 || cur.offset > n - 8 {
                cur.set_offset(body_end);
                return Ok(targets);
            }
        } else {
            cur.set_offset(body_end);
            let n = cur.data.len();
            if n < 8 || cur.offset > n - 8 {
                return Ok(targets);
            }
            if cur.offset <= off_iter {
                return Ok(targets);
            }
        }
    }
}

/// Decodes a dungeon-state blob: the outermost container's field `2` holds
/// the flow info and field `4` the targets. The result is a pure function of
/// the bytes, so decoding the same blob twice yields equal structures.
pub fn parse_dirty_dungeon_data(bytes: &[u8]) -> (r: Result<DirtyDungeonData, BlobError>)
    ensures
        match sp_dirty(bytes@) {
            Ok(m) => r matches Ok(d) && d.flow_state == m.flow_state && d.targets@ == m.targets,
            Err(e) => r matches Err(e2) && e2 == e,
        },
{
    let mut cur = BlobCursor::new(bytes);
    let mut out = DirtyDungeonData { flow_state: None, targets: Vec::new() };
    let body_end = match parse_container(&mut cur) {
        Err(e) => return Err(e),
        Ok(None) => {
            proof {
                assert(out.targets@ =~= Seq::<DirtyDungeonTarget>::empty());
            }
            return Ok(out);
        },
        Ok(Some(be)) => be,
    };
    let ghost zero = DungeonModel { flow_state: None, targets: Seq::empty() };
    proof {
        assert(out.targets@ =~= Seq::<DirtyDungeonTarget>::empty());
        assert(sp_top_fields(bytes@, cur.off(), body_end as int, zero) == sp_top_fields(
            bytes@,
            cur.off(),
            body_end as int,
            DungeonModel { flow_state: out.flow_state, targets: out.targets@ },
        ));
    }
    loop
        invariant
            cur.wf(),
            cur.data_view() == bytes@,
            body_end <= bytes@.len(),
            sp_dirty(bytes@) == (match sp_top_fields(
                bytes@,
                cur.off(),
                body_end as int,
                DungeonModel { flow_state: out.flow_state, targets: out.targets@ },
            ) {
                Err(e) => Err(e),
                Ok((m, o)) => Ok(m),
            }),
        decreases bytes@.len() - cur.off(),
    {
        let off_iter = cur.offset;
        let field = match cur.read_i32_padded() {
            Err(e) => return Err(e),
            Ok(v) => v,
        };
        if field == TAG_END {
            return Ok(out);
        }
        if field <= 0 {
            cur.set_offset(body_end);
            return Ok(out);
        }
        if field == 2 {
            proof {
                lemma_flow_off(cur.data_view(), cur.off());
            }
            out.flow_state = match parse_flow_info_state(&mut cur) {
                Err(e) => return Err(e),
                Ok(v) => v,
            };
            let n = cur.data.len();
            if n < 8 || cur.offset > n - 8 {
                cur.set_offset(body_end);
                return Ok(out);
            }
        } else if field == 4 {
            proof {
                lemma_targets_container_off(cur.data_view(), cur.off());
            }
            out.targets = match parse_targets_container(&mut cur) {
                Err(e) => return Err(e),
                Ok(v) => v,
            };
            let n = cur.data.len();
            if n < 8 || cur.offset > n - 8 {
                cur.set_offset(body_end);
                return Ok(out);
            }
        } else {
            cur.set_offset(body_end);
            let n = cur.data.len();
            if n < 8 || cur.offset > n - 8 {
                return Ok(out);
            }
            if cur.offset <= off_iter {
                return Ok(out);
            }
        }
    }
}

} // verus!
