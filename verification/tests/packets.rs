use meter_core::opcodes::{Pkt, FRAG_FRAME_DOWN, FRAG_NOTIFY, METHOD_SYNC_NEAR_DELTA_INFO, METHOD_SYNC_SERVER_TIME};
use meter_core::packet_process::process_packet;
use meter_core::parser::parse_notify_fragment;

const SERVICE_UUID: u64 = 0x0000_0000_6333_5342;

fn notify_subpacket(method_id: u32, body: &[u8], compressed: bool) -> Vec<u8> {
    let size = (6 + 16 + body.len()) as u32;
    let mut ty = FRAG_NOTIFY;
    if compressed {
        ty |= 0x8000;
    }
    let mut v = Vec::new();
    v.extend_from_slice(&size.to_be_bytes());
    v.extend_from_slice(&ty.to_be_bytes());
    v.extend_from_slice(&SERVICE_UUID.to_be_bytes());
    v.extend_from_slice(&7u32.to_be_bytes()); // stub id, ignored
    v.extend_from_slice(&method_id.to_be_bytes());
    v.extend_from_slice(body);
    v
}

fn frame_down_subpacket(inner: &[u8], compressed: bool) -> Vec<u8> {
    let size = (6 + 4 + inner.len()) as u32;
    let mut ty = FRAG_FRAME_DOWN;
    if compressed {
        ty |= 0x8000;
    }
    let mut v = Vec::new();
    v.extend_from_slice(&size.to_be_bytes());
    v.extend_from_slice(&ty.to_be_bytes());
    v.extend_from_slice(&0u32.to_be_bytes()); // skipped header bytes
    v.extend_from_slice(inner);
    v
}

#[test]
fn notify_subpacket_is_emitted() {
    let frame = notify_subpacket(METHOD_SYNC_NEAR_DELTA_INFO, b"hello", false);
    let out = process_packet(&frame);
    assert_eq!(out.len(), 1);
    assert_eq!(out[0].0, Pkt::SyncNearDeltaInfo);
    assert_eq!(out[0].1, b"hello".to_vec());
}

#[test]
fn two_subpackets_are_emitted_in_order() {
    let mut frame = notify_subpacket(METHOD_SYNC_NEAR_DELTA_INFO, b"one", false);
    frame.extend_from_slice(&notify_subpacket(METHOD_SYNC_SERVER_TIME, b"two", false));
    let out = process_packet(&frame);
    assert_eq!(out.len(), 2);
    assert_eq!(out[0].0, Pkt::SyncNearDeltaInfo);
    assert_eq!(out[0].1, b"one".to_vec());
    assert_eq!(out[1].0, Pkt::SyncServerTime);
    assert_eq!(out[1].1, b"two".to_vec());
}

#[test]
fn service_uuid_mismatch_is_dropped() {
    let mut frame = notify_subpacket(METHOD_SYNC_SERVER_TIME, b"abc", false);
    frame[13] = 0; // corrupt the service uuid
    assert!(process_packet(&frame).is_empty());
}

#[test]
fn unknown_method_id_is_dropped() {
    let frame = notify_subpacket(0xDEAD_BEEF, b"abc", false);
    assert!(process_packet(&frame).is_empty());
}

#[test]
fn malformed_subpacket_abandons_remainder() {
    // First sub-packet announces size 3 (< 6): the whole frame is abandoned,
    // including the well-formed notify that follows.
    let mut frame = Vec::new();
    frame.extend_from_slice(&3u32.to_be_bytes());
    frame.extend_from_slice(&FRAG_NOTIFY.to_be_bytes());
    frame.extend_from_slice(&notify_subpacket(METHOD_SYNC_SERVER_TIME, b"late", false));
    assert!(process_packet(&frame).is_empty());
}

#[test]
fn compressed_notify_body_is_decompressed() {
    let compressed = zstd::encode_all(&b"hello"[..], 0).unwrap();
    let frame = notify_subpacket(METHOD_SYNC_SERVER_TIME, &compressed, true);
    let out = process_packet(&frame);
    assert_eq!(out.len(), 1);
    assert_eq!(out[0].0, Pkt::SyncServerTime);
    assert_eq!(out[0].1, b"hello".to_vec());
}

#[test]
fn corrupt_compressed_body_is_dropped() {
    let frame = notify_subpacket(METHOD_SYNC_SERVER_TIME, b"not-zstd-data", true);
    assert!(process_packet(&frame).is_empty());
}

#[test]
fn nested_frame_down_is_walked() {
    let inner = notify_subpacket(METHOD_SYNC_NEAR_DELTA_INFO, b"nested", false);
    let frame = frame_down_subpacket(&inner, false);
    let out = process_packet(&frame);
    assert_eq!(out.len(), 1);
    assert_eq!(out[0].0, Pkt::SyncNearDeltaInfo);
    assert_eq!(out[0].1, b"nested".to_vec());
}

#[test]
fn compressed_frame_down_is_walked() {
    let inner = notify_subpacket(METHOD_SYNC_SERVER_TIME, b"deep", false);
    let packed = zstd::encode_all(&inner[..], 0).unwrap();
    let frame = frame_down_subpacket(&packed, true);
    let out = process_packet(&frame);
    assert_eq!(out.len(), 1);
    assert_eq!(out[0].0, Pkt::SyncServerTime);
    assert_eq!(out[0].1, b"deep".to_vec());
}

#[test]
fn parse_notify_fragment_returns_body_slice() {
    let frame = notify_subpacket(METHOD_SYNC_SERVER_TIME, b"payload", false);
    let got = parse_notify_fragment(&frame, 6, frame.len(), false);
    let (pkt, body) = got.unwrap();
    assert_eq!(pkt, Pkt::SyncServerTime);
    assert_eq!(body, b"payload".to_vec());
    // Too short a payload is dropped.
    assert!(parse_notify_fragment(&frame, 6, 10, false).is_none());
}
