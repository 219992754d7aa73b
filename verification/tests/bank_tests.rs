use channel_bank::bank::{ChannelBank, NextData};
use channel_bank::types::{
    BlockInfo, Frame, RollupConfig, StageError, MAX_CHANNEL_BANK_SIZE,
};

fn new_test_frames(count: usize) -> Vec<Frame> {
    let mut frames = Vec::new();
    let mut i: usize = 0;
    while i < count {
        frames.push(Frame {
            id: u128::MAX,
            number: i as u16,
            data: vec![0xDD; 50],
            is_last: i == count - 1,
        });
        i += 1;
    }
    frames
}

fn frame(id: u128, number: u16, data: &[u8], is_last: bool) -> Frame {
    Frame { id, number, data: data.to_vec(), is_last }
}

#[test]
fn test_ingest_empty_origin() {
    let mut channel_bank = ChannelBank::new(RollupConfig::default());
    let frame = Frame::default();
    let err = channel_bank.ingest_frame(frame).unwrap_err();
    assert_eq!(err, StageError::NoOrigin);
}

#[test]
fn test_ingest_and_prune_channel_bank() {
    let mut channel_bank = ChannelBank::new(RollupConfig::default());
    channel_bank.set_origin(BlockInfo::default());
    let mut frames = new_test_frames(100000);
    // Ingest frames until the channel bank is full and it stops increasing in size
    let mut current_size = 0;
    let next_frame = frames.pop().unwrap();
    channel_bank.ingest_frame(next_frame).unwrap();
    while channel_bank.size() > current_size {
        current_size = channel_bank.size();
        let next_frame = frames.pop().unwrap();
        channel_bank.ingest_frame(next_frame).unwrap();
        assert!(channel_bank.size() <= MAX_CHANNEL_BANK_SIZE);
    }
    // There should be a bunch of frames leftover
    assert!(!frames.is_empty());
    // If we ingest one more frame, the channel bank should prune
    // and the size should be the same
    let next_frame = frames.pop().unwrap();
    channel_bank.ingest_frame(next_frame).unwrap();
    assert_eq!(channel_bank.size(), current_size);
}

#[test]
fn test_read_empty_channel_bank() {
    let mut channel_bank = ChannelBank::new(RollupConfig::default());
    channel_bank.set_origin(BlockInfo::default());
    let err = channel_bank.read().unwrap_err();
    assert_eq!(err, StageError::Eof);
    let step = channel_bank.next_data();
    assert!(matches!(step, NextData::NeedFrame));
    let err = channel_bank.next_data_resume(Ok(Frame::default())).unwrap_err();
    assert_eq!(err, StageError::NotEnoughData);
}

#[test]
fn test_complete_channel_round_trip() {
    let mut bank = ChannelBank::new(RollupConfig {
        channel_timeout: 100,
        canyon_time: None,
        max_channel_bank_size: MAX_CHANNEL_BANK_SIZE,
    });
    bank.set_origin(BlockInfo { number: 1, timestamp: 1 });
    bank.ingest_frame(frame(0xAA, 0, b"ab", false)).unwrap();
    bank.ingest_frame(frame(0xAA, 1, b"cd", true)).unwrap();
    // the pull loop serves the buffered data without asking for a frame
    match bank.next_data() {
        NextData::Done(out) => assert_eq!(out.unwrap().unwrap(), b"abcd".to_vec()),
        NextData::NeedFrame => panic!("expected buffered data"),
    }
    // channel A is gone from the bank
    assert_eq!(bank.size(), 0);
    assert_eq!(bank.read().unwrap_err(), StageError::Eof);
}

#[test]
fn test_out_of_order_reconstruction() {
    let mut bank = ChannelBank::new(RollupConfig {
        channel_timeout: 100,
        canyon_time: None,
        max_channel_bank_size: MAX_CHANNEL_BANK_SIZE,
    });
    bank.set_origin(BlockInfo { number: 1, timestamp: 1 });
    bank.ingest_frame(frame(7, 2, b"c", true)).unwrap();
    bank.ingest_frame(frame(7, 0, b"a", false)).unwrap();
    bank.ingest_frame(frame(7, 1, b"b", false)).unwrap();
    let data = bank.read().unwrap().unwrap();
    assert_eq!(data, b"abc".to_vec());
}

#[test]
fn test_duplicate_frame_is_tolerated() {
    let mut bank = ChannelBank::new(RollupConfig {
        channel_timeout: 100,
        canyon_time: None,
        max_channel_bank_size: MAX_CHANNEL_BANK_SIZE,
    });
    bank.set_origin(BlockInfo { number: 1, timestamp: 1 });
    bank.ingest_frame(frame(9, 0, b"hello", false)).unwrap();
    let size_once = bank.size();
    // same id, same number, identical bytes: absorbed without growth
    bank.ingest_frame(frame(9, 0, b"hello", false)).unwrap();
    assert_eq!(bank.size(), size_once);
    // a colliding payload for the same number is dropped, not stored
    bank.ingest_frame(frame(9, 0, b"world", false)).unwrap();
    assert_eq!(bank.size(), size_once);
    bank.ingest_frame(frame(9, 1, b"!", true)).unwrap();
    let data = bank.read().unwrap().unwrap();
    assert_eq!(data, b"hello!".to_vec());
}

#[test]
fn test_timeout_eviction_is_lazy_on_read() {
    let mut bank = ChannelBank::new(RollupConfig {
        channel_timeout: 10,
        canyon_time: None,
        max_channel_bank_size: MAX_CHANNEL_BANK_SIZE,
    });
    bank.set_origin(BlockInfo { number: 0, timestamp: 0 });
    // a complete channel, opened at height 0
    bank.ingest_frame(frame(1, 0, b"stale", true)).unwrap();
    let buffered = bank.size();
    assert!(buffered > 0);
    // the window elapses: 0 + 10 < 11
    bank.set_origin(BlockInfo { number: 11, timestamp: 11 });
    // new data for the stale channel is refused, but ingestion still succeeds
    bank.ingest_frame(frame(1, 1, b"more", false)).unwrap();
    assert_eq!(bank.size(), buffered);
    // the stale channel is never returned as data: the first read evicts it
    let evicted = bank.read().unwrap();
    assert!(evicted.is_none());
    assert_eq!(bank.size(), 0);
    assert_eq!(bank.read().unwrap_err(), StageError::Eof);
}

#[test]
fn test_head_of_line_blocking_pre_upgrade() {
    let mut bank = ChannelBank::new(RollupConfig {
        channel_timeout: 100,
        canyon_time: None,
        max_channel_bank_size: MAX_CHANNEL_BANK_SIZE,
    });
    bank.set_origin(BlockInfo { number: 1, timestamp: 1 });
    // channel 1 arrives first and stays incomplete
    bank.ingest_frame(frame(1, 0, b"aa", false)).unwrap();
    // channel 2 arrives second and is complete
    bank.ingest_frame(frame(2, 0, b"bb", true)).unwrap();
    // before the upgrade only position 0 may be served
    assert_eq!(bank.read().unwrap_err(), StageError::Eof);
}

#[test]
fn test_first_ready_scan_post_upgrade() {
    let mut bank = ChannelBank::new(RollupConfig {
        channel_timeout: 100,
        canyon_time: Some(0),
        max_channel_bank_size: MAX_CHANNEL_BANK_SIZE,
    });
    bank.set_origin(BlockInfo { number: 1, timestamp: 1 });
    bank.ingest_frame(frame(1, 0, b"aa", false)).unwrap();
    bank.ingest_frame(frame(2, 0, b"bb", true)).unwrap();
    // after the upgrade the first ready channel is served past the blocked head
    let data = bank.read().unwrap().unwrap();
    assert_eq!(data, b"bb".to_vec());
    // the incomplete head is still buffered; completing it serves it too
    bank.ingest_frame(frame(1, 1, b"a!", true)).unwrap();
    let data = bank.read().unwrap().unwrap();
    assert_eq!(data, b"aaa!".to_vec());
}

#[test]
fn test_fifo_pruning_evicts_oldest_first() {
    // each one-frame channel weighs its payload plus the per-frame overhead
    let mut bank = ChannelBank::new(RollupConfig {
        channel_timeout: 100,
        canyon_time: None,
        max_channel_bank_size: 600,
    });
    bank.set_origin(BlockInfo { number: 1, timestamp: 1 });
    let payload = vec![0x55u8; 100];
    bank.ingest_frame(frame(1, 0, &payload, true)).unwrap();
    let one = bank.size();
    assert_eq!(one, 300);
    bank.ingest_frame(frame(2, 0, &payload, true)).unwrap();
    assert_eq!(bank.size(), 2 * one);
    // a third channel crosses the bound: the earliest channel is evicted
    bank.ingest_frame(frame(3, 0, &payload, true)).unwrap();
    assert_eq!(bank.size(), 2 * one);
    // channel 1 is gone: the front of the queue is now channel 2, then 3
    assert_eq!(bank.read().unwrap().unwrap(), payload);
    assert_eq!(bank.read().unwrap().unwrap(), payload);
    assert_eq!(bank.read().unwrap_err(), StageError::Eof);
}

#[test]
fn test_read_on_empty_bank_is_idempotent() {
    let mut bank = ChannelBank::new(RollupConfig::default());
    bank.set_origin(BlockInfo { number: 5, timestamp: 5 });
    assert_eq!(bank.read().unwrap_err(), StageError::Eof);
    assert_eq!(bank.read().unwrap_err(), StageError::Eof);
    assert_eq!(bank.size(), 0);
    assert!(bank.origin().is_some());
}

#[test]
fn test_reset_clears_and_reports_eof() {
    let mut bank = ChannelBank::new(RollupConfig {
        channel_timeout: 100,
        canyon_time: None,
        max_channel_bank_size: MAX_CHANNEL_BANK_SIZE,
    });
    bank.set_origin(BlockInfo { number: 1, timestamp: 1 });
    bank.ingest_frame(frame(4, 0, b"data", true)).unwrap();
    assert!(bank.size() > 0);
    let err = bank.reset().unwrap_err();
    assert_eq!(err, StageError::Eof);
    assert_eq!(bank.size(), 0);
    assert_eq!(bank.read().unwrap_err(), StageError::Eof);
}

#[test]
fn test_upstream_error_propagates_through_resume() {
    let mut bank = ChannelBank::new(RollupConfig::default());
    bank.set_origin(BlockInfo::default());
    let err = bank.next_data_resume(Err(StageError::Eof)).unwrap_err();
    assert_eq!(err, StageError::Eof);
}
