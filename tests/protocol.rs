use sternhalma_server::protocol::{decode_frame, encode_frame, FrameError, REMOTE_MESSAGE_LENGTH};

#[test]
fn frame_layout() {
    assert_eq!(encode_frame(&[1, 2, 3]), Ok(vec![0, 0, 0, 3, 1, 2, 3]));
    let payload = vec![9u8; 300];
    let f = encode_frame(&payload).unwrap();
    assert_eq!(&f[..4], &[0, 0, 1, 44]);
    assert_eq!(f.len(), 304);
}

#[test]
fn frame_round_trip() {
    for n in [1usize, 2, 255, 256, 1000, REMOTE_MESSAGE_LENGTH] {
        let payload: Vec<u8> = (0..n).map(|i| (i % 251) as u8).collect();
        let mut buf = encode_frame(&payload).unwrap();
        buf.extend_from_slice(&[7, 7, 7]);
        assert_eq!(decode_frame(&buf), Ok(Some((payload, n + 4))));
    }
}

#[test]
fn frame_limits() {
    assert_eq!(encode_frame(&[]), Err(FrameError::Empty));
    let big = vec![0u8; REMOTE_MESSAGE_LENGTH + 1];
    assert_eq!(encode_frame(&big), Err(FrameError::TooLong(4097)));
    assert_eq!(decode_frame(&[0, 0, 0, 0, 1]), Err(FrameError::Empty));
    assert_eq!(decode_frame(&[0, 0, 0x13, 0x88]), Err(FrameError::TooLong(5000)));
    assert_eq!(decode_frame(&[0, 0, 0x10, 0x01]), Err(FrameError::TooLong(4097)));
}

#[test]
fn frame_needs_more_bytes() {
    assert_eq!(decode_frame(&[]), Ok(None));
    assert_eq!(decode_frame(&[0, 0, 0]), Ok(None));
    assert_eq!(decode_frame(&[0, 0, 0, 3, 1, 2]), Ok(None));
    assert_eq!(decode_frame(&[0, 0, 0, 3, 1, 2, 3]), Ok(Some((vec![1, 2, 3], 7))));
}

#[test]
fn every_allowed_length_frames() {
    for n in 1..=REMOTE_MESSAGE_LENGTH {
        let payload = vec![1u8; n];
        let f = encode_frame(&payload).unwrap();
        assert_eq!(f.len(), n + 4);
        assert_eq!(decode_frame(&f), Ok(Some((payload, n + 4))));
    }
}
