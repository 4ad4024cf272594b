//! Capture-side ingestion and decoding core for live game-combat telemetry.
//!
//! The crate reconstructs an ordered byte stream from out-of-order TCP
//! segments, cuts the stream into length-prefixed application frames, walks
//! the sub-packets of each frame (decompressing where flagged), decodes the
//! dungeon-state tagged binary container, and provides the deterministic
//! domain derivations (cooldown planning, damage-id composition, recount and
//! buff name resolution) that downstream consumers need.

pub mod buff_names;
pub mod cd_calc;
pub mod compress;
pub mod damage_id;
pub mod dungeon_dirty_blob;
pub mod frame_reassembler;
pub mod kvmap;
pub mod opcodes;
pub mod packet_process;
pub mod parser;
pub mod recount_names;
pub mod sequence;
pub mod server;
pub mod tcp_reassembler;
pub mod wire;
