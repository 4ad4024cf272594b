use meter_core::sequence::{tcp_sequence_after, tcp_sequence_before};
use meter_core::tcp_reassembler::TCPReassembler;

#[test]
fn reassembles_in_order() {
    let mut reassembler = TCPReassembler::new();
    assert_eq!(reassembler.insert_segment(10, b"abc"), Some(b"abc".to_vec()));
    assert_eq!(reassembler.insert_segment(13, b"def"), Some(b"def".to_vec()));
}

#[test]
fn reassembles_out_of_order_once_gap_filled() {
    let mut reassembler = TCPReassembler::new();
    assert_eq!(reassembler.insert_segment(100, b"abc"), Some(b"abc".to_vec()));
    assert!(reassembler.insert_segment(106, b"ghi").is_none());
    assert_eq!(reassembler.insert_segment(103, b"def"), Some(b"defghi".to_vec()));
}

#[test]
fn trims_overlapping_segments_and_ignores_duplicates() {
    let mut reassembler = TCPReassembler::new();
    assert!(reassembler.insert_segment(50, b"abc").is_some());
    // Duplicate shorter payload should be ignored
    assert!(reassembler.insert_segment(50, b"ab").is_none());
    // Overlapping payload should emit only unseen bytes
    assert_eq!(reassembler.insert_segment(51, b"bcdef"), Some(b"def".to_vec()));
}

#[test]
fn reset_drops_state_and_reinitializes() {
    let mut reassembler = TCPReassembler::new();
    assert!(reassembler.insert_segment(500, b"abc").is_some());
    reassembler.reset(None);
    assert_eq!(reassembler.next_sequence(), None);
    assert_eq!(reassembler.insert_segment(42, b"xyz"), Some(b"xyz".to_vec()));
}

#[test]
fn empty_payload_is_ignored() {
    let mut reassembler = TCPReassembler::new();
    assert!(reassembler.insert_segment(7, b"").is_none());
    assert_eq!(reassembler.next_sequence(), None);
}

#[test]
fn sequence_comparison_wraps() {
    assert!(tcp_sequence_before(0xFFFF_FFF0, 5));
    assert!(tcp_sequence_after(5, 0xFFFF_FFF0));
    assert!(!tcp_sequence_before(5, 5));
    assert!(!tcp_sequence_after(5, 5));
    assert!(tcp_sequence_before(10, 20));
    assert!(tcp_sequence_after(20, 10));
}

#[test]
fn reassembles_across_sequence_wrap() {
    let mut reassembler = TCPReassembler::new();
    assert_eq!(
        reassembler.insert_segment(0xFFFF_FFFE, b"ab"),
        Some(b"ab".to_vec())
    );
    assert_eq!(reassembler.next_sequence(), Some(0));
    assert_eq!(reassembler.insert_segment(0, b"cd"), Some(b"cd".to_vec()));
}
