use channel_bank::channel::Channel;
use channel_bank::types::{Frame, FrameError, FRAME_OVERHEAD};

fn frame(id: u128, number: u16, data: &[u8], is_last: bool) -> Frame {
    Frame { id, number, data: data.to_vec(), is_last }
}

#[test]
fn test_add_frame_tracks_size_and_readiness() {
    let mut ch = Channel::new(42, 7);
    assert!(!ch.is_ready());
    ch.add_frame(frame(42, 1, b"second", true)).unwrap();
    assert_eq!(ch.estimated_size, FRAME_OVERHEAD + 6);
    assert!(!ch.is_ready());
    ch.add_frame(frame(42, 0, b"first ", false)).unwrap();
    assert_eq!(ch.estimated_size, 2 * FRAME_OVERHEAD + 12);
    assert!(ch.is_ready());
    assert_eq!(ch.frame_data(), b"first second".to_vec());
}

#[test]
fn test_add_frame_rejects_wrong_channel() {
    let mut ch = Channel::new(1, 0);
    let err = ch.add_frame(frame(2, 0, b"x", false)).unwrap_err();
    assert_eq!(err, FrameError::WrongChannel);
}

#[test]
fn test_add_frame_rejects_colliding_payload() {
    let mut ch = Channel::new(1, 0);
    ch.add_frame(frame(1, 0, b"x", false)).unwrap();
    let before = ch.estimated_size;
    // identical re-send is a no-op
    ch.add_frame(frame(1, 0, b"x", false)).unwrap();
    assert_eq!(ch.estimated_size, before);
    // different bytes under the same number are refused
    let err = ch.add_frame(frame(1, 0, b"y", false)).unwrap_err();
    assert_eq!(err, FrameError::FrameMismatch);
    // so is the same payload with a changed terminal flag
    let err = ch.add_frame(frame(1, 0, b"x", true)).unwrap_err();
    assert_eq!(err, FrameError::FrameMismatch);
    assert_eq!(ch.estimated_size, before);
}

#[test]
fn test_add_frame_rejects_past_fixed_length() {
    let mut ch = Channel::new(1, 0);
    ch.add_frame(frame(1, 2, b"end", true)).unwrap();
    // a frame beyond the terminal number is refused
    let err = ch.add_frame(frame(1, 3, b"late", false)).unwrap_err();
    assert_eq!(err, FrameError::BeyondEnd);
    // a second terminal frame at a new position is refused
    let err = ch.add_frame(frame(1, 1, b"again", true)).unwrap_err();
    assert_eq!(err, FrameError::AlreadyClosed);
    // gaps below the terminal may still be filled
    ch.add_frame(frame(1, 0, b"a", false)).unwrap();
    ch.add_frame(frame(1, 1, b"b", false)).unwrap();
    assert!(ch.is_ready());
    assert_eq!(ch.frame_data(), b"abend".to_vec());
}
