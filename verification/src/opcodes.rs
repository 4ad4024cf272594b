//! The closed enumerations of the application protocol.
//!
//! A sub-packet's 15-bit discriminator selects a fragment type; a notify
//! fragment's 32-bit method id selects the typed opcode handed downstream.
//! Ids outside either enumeration are dropped by the callers.

use vstd::prelude::*;

verus! {

/// Discriminator value of a notify fragment.
pub const FRAG_NOTIFY: u16 = 2;

/// Discriminator value of a nested-frame fragment.
pub const FRAG_FRAME_DOWN: u16 = 4;

/// What a sub-packet carries.
#[derive(Debug, Clone, Copy, PartialEq, Eq, Structural)]
pub enum FragmentType {
    /// A typed notification for downstream consumers.
    Notify,
    /// A wrapped inner frame, processed recursively.
    FrameDown,
    /// Anything else; skipped silently.
    Other,
}

/// The fragment type selected by a 15-bit discriminator.
pub open spec fn fragment_type_of(disc: u16) -> FragmentType {
    if disc == FRAG_NOTIFY {
        FragmentType::Notify
    } else if disc == FRAG_FRAME_DOWN {
        FragmentType::FrameDown
    } else {
        FragmentType::Other
    }
}

/// Maps a discriminator to its fragment type.
pub fn fragment_type_from(disc: u16) -> (r: FragmentType)
    ensures
        r == fragment_type_of(disc),
{
    if disc == FRAG_NOTIFY {
        FragmentType::Notify
    } else if disc == FRAG_FRAME_DOWN {
        FragmentType::FrameDown
    } else {
        FragmentType::Other
    }
}

/// Method id of `SyncNearEntities`.
pub const METHOD_SYNC_NEAR_ENTITIES: u32 = 0x0000_0006;

/// Method id of `SyncContainerData`.
pub const METHOD_SYNC_CONTAINER_DATA: u32 = 0x0000_0015;

/// Method id of `SyncContainerDirtyData`.
pub const METHOD_SYNC_CONTAINER_DIRTY_DATA: u32 = 0x0000_0016;

/// Method id of `SyncServerTime`.
pub const METHOD_SYNC_SERVER_TIME: u32 = 0x0000_002B;

/// Method id of `SyncNearDeltaInfo`.
pub const METHOD_SYNC_NEAR_DELTA_INFO: u32 = 0x0000_002D;

/// Method id of `SyncToMeDeltaInfo`.
pub const METHOD_SYNC_TO_ME_DELTA_INFO: u32 = 0x0000_002E;

/// The typed opcodes handed downstream with their payloads.
#[derive(Debug, Clone, Copy, PartialEq, Eq, Structural)]
pub enum Pkt {
    /// Entities entering or leaving the vicinity.
    SyncNearEntities,
    /// A full attribute container snapshot.
    SyncContainerData,
    /// An incremental attribute container change.
    SyncContainerDirtyData,
    /// The server clock.
    SyncServerTime,
    /// Combat deltas addressed to the local player.
    SyncToMeDeltaInfo,
    /// Combat deltas of nearby entities.
    SyncNearDeltaInfo,
}

/// The opcode selected by a method id, if the id belongs to the enumeration.
pub open spec fn pkt_of(method_id: u32) -> Option<Pkt> {
    if method_id == METHOD_SYNC_NEAR_ENTITIES {
        Some(Pkt::SyncNearEntities)
    } else if method_id == METHOD_SYNC_CONTAINER_DATA {
        Some(Pkt::SyncContainerData)
    } else if method_id == METHOD_SYNC_CONTAINER_DIRTY_DATA {
        Some(Pkt::SyncContainerDirtyData)
    } else if method_id == METHOD_SYNC_SERVER_TIME {
        Some(Pkt::SyncServerTime)
    } else if method_id == METHOD_SYNC_TO_ME_DELTA_INFO {
        Some(Pkt::SyncToMeDeltaInfo)
    } else if method_id == METHOD_SYNC_NEAR_DELTA_INFO {
        Some(Pkt::SyncNearDeltaInfo)
    } else {
        None
    }
}

/// Maps a method id to its opcode; unknown ids yield nothing.
pub fn pkt_from_method_id(method_id: u32) -> (r: Option<Pkt>)
    ensures
        r == pkt_of(method_id),
{
    if method_id == METHOD_SYNC_NEAR_ENTITIES {
        Some(Pkt::SyncNearEntities)
    } else if method_id == METHOD_SYNC_CONTAINER_DATA {
        Some(Pkt::SyncContainerData)
    } else if method_id == METHOD_SYNC_CONTAINER_DIRTY_DATA {
        Some(Pkt::SyncContainerDirtyData)
    } else if method_id == METHOD_SYNC_SERVER_TIME {
        Some(Pkt::SyncServerTime)
    } else if method_id == METHOD_SYNC_TO_ME_DELTA_INFO {
        Some(Pkt::SyncToMeDeltaInfo)
    } else if method_id == METHOD_SYNC_NEAR_DELTA_INFO {
        Some(Pkt::SyncNearDeltaInfo)
    } else {
        None
    }
}

} // verus!
