use meter_core::frame_reassembler::Reassembler;

fn make_frame(payload: &[u8]) -> Vec<u8> {
    let total_len = (4 + payload.len()) as u32;
    let mut v = total_len.to_be_bytes().to_vec();
    v.extend_from_slice(payload);
    v
}

#[test]
fn single_frame_in_one_push() {
    let mut r = Reassembler::new();
    let frame = make_frame(b"hello");
    r.push(&frame);
    let got = r.try_next();
    assert!(got.is_some());
    assert_eq!(&got.unwrap()[4..], b"hello");
    assert!(r.try_next().is_none());
}

#[test]
fn two_frames_in_one_push() {
    let mut r = Reassembler::new();
    let f1 = make_frame(b"foo");
    let f2 = make_frame(b"barbaz");
    let mut combined = Vec::new();
    combined.extend_from_slice(&f1);
    combined.extend_from_slice(&f2);
    r.push(&combined);
    let g1 = r.try_next().unwrap();
    assert_eq!(&g1[4..], b"foo");
    let g2 = r.try_next().unwrap();
    assert_eq!(&g2[4..], b"barbaz");
    assert!(r.try_next().is_none());
}

#[test]
fn frame_split_across_pushes() {
    let mut r = Reassembler::new();
    let frame = make_frame(b"split-me");
    // push first half
    let split = frame.len() / 2;
    r.push(&frame[..split]);
    assert!(r.try_next().is_none());
    r.push(&frame[split..]);
    let got = r.try_next().unwrap();
    assert_eq!(&got[4..], b"split-me");
}

#[test]
fn absurd_length_resets_buffer() {
    let mut r = Reassembler::new();
    // Announced length 0: buffer is dropped, nothing comes out.
    r.push(&[0, 0, 0, 0, 1, 2, 3]);
    assert!(r.try_next().is_none());
    assert!(r.take_remaining().is_empty());
    // Announced length 4 (header only, no body): also absurd.
    let mut r2 = Reassembler::new();
    r2.push(&[0, 0, 0, 4, 9]);
    assert!(r2.try_next().is_none());
    assert!(r2.take_remaining().is_empty());
}

#[test]
fn emitted_frames_are_at_least_five_bytes() {
    let mut r = Reassembler::new();
    let frame = make_frame(b"x");
    r.push(&frame);
    let got = r.try_next().unwrap();
    assert_eq!(got.len(), 5);
    assert_eq!(&got[4..], b"x");
}

#[test]
fn feed_owned_and_take_remaining() {
    let mut r = Reassembler::new();
    r.feed_owned(make_frame(b"one"));
    let got = r.try_next().unwrap();
    assert_eq!(&got[4..], b"one");
    r.feed_owned(vec![0, 0, 0, 9]);
    assert!(r.try_next().is_none());
    assert_eq!(r.take_remaining(), vec![0, 0, 0, 9]);
    assert!(r.take_remaining().is_empty());
}
