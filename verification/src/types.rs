//! Plain data carried through the pipeline stage: block references, the
//! rollup configuration, frames, and the stage's error taxonomy.

use vstd::prelude::*;

verus! {

/// Identifier of a channel, chosen by the data producer. Only equality
/// matters; the bank never orders ids.
pub type ChannelId = u128;

/// Fixed bookkeeping overhead charged per buffered frame, on top of its
/// payload length, when estimating a channel's memory footprint.
pub const FRAME_OVERHEAD: usize = 200;

/// Default byte budget for all buffered channel data together.
pub const MAX_CHANNEL_BANK_SIZE: usize = 100_000_000;

/// The base-layer block the derivation pipeline has most recently traversed.
#[derive(Clone, Copy, Debug, PartialEq, Eq, Structural)]
pub struct BlockInfo {
    /// Height of the block.
    pub number: u64,
    /// Timestamp of the block, used to gate protocol upgrades.
    pub timestamp: u64,
}

impl Default for BlockInfo {
    /// The zero block reference.
    fn default() -> (r: Self)
        ensures
            r.number == 0,
            r.timestamp == 0,
    {
        BlockInfo { number: 0, timestamp: 0 }
    }
}

/// Immutable protocol configuration, shared read-only by every stage.
#[derive(Clone, Copy, Debug, PartialEq, Eq, Structural)]
pub struct RollupConfig {
    /// Number of base-layer blocks a channel may stay open before it is stale.
    pub channel_timeout: u64,
    /// Activation timestamp of the upgrade that relaxes the read scan policy;
    /// `None` means the upgrade never activates.
    pub canyon_time: Option<u64>,
    /// Byte budget for buffered channel data.
    pub max_channel_bank_size: usize,
}

impl RollupConfig {
    /// Whether the scan-relaxing upgrade is active at a base-layer timestamp.
    pub open spec fn spec_is_canyon_active(self, timestamp: u64) -> bool {
        match self.canyon_time {
            Some(t) => timestamp >= t,
            None => false,
        }
    }

    /// Executable form of [`Self::spec_is_canyon_active`].
    pub fn is_canyon_active(&self, timestamp: u64) -> (r: bool)
        ensures
            r == self.spec_is_canyon_active(timestamp),
    {
        match self.canyon_time {
            Some(t) => timestamp >= t,
            None => false,
        }
    }
}

impl Default for RollupConfig {
    /// Timeout and upgrade are off; the byte budget is the protocol default.
    fn default() -> (r: Self)
        ensures
            r.channel_timeout == 0,
            r.canyon_time is None,
            r.max_channel_bank_size == MAX_CHANNEL_BANK_SIZE,
    {
        RollupConfig {
            channel_timeout: 0,
            canyon_time: None,
            max_channel_bank_size: MAX_CHANNEL_BANK_SIZE,
        }
    }
}

/// One unit of input: a slice of a channel's byte-stream, carrying its
/// position and whether it terminates the channel.
#[derive(Clone, Debug)]
pub struct Frame {
    /// The channel this frame belongs to.
    pub id: ChannelId,
    /// Position of this frame within its channel.
    pub number: u16,
    /// Payload bytes.
    pub data: Vec<u8>,
    /// Whether this frame fixes the channel's length at `number`.
    pub is_last: bool,
}

impl Default for Frame {
    /// The empty first frame of channel zero.
    fn default() -> (r: Self)
        ensures
            r.id == 0,
            r.number == 0,
            r.data@ == Seq::<u8>::empty(),
            !r.is_last,
    {
        Frame { id: 0, number: 0, data: Vec::new(), is_last: false }
    }
}

/// Why a channel refused a frame. Rejections are per-frame and terminal; the
/// bank absorbs them rather than halting derivation.
#[derive(Clone, Copy, Debug, PartialEq, Eq, Structural)]
pub enum FrameError {
    /// The frame names a different channel than the one it was offered to.
    WrongChannel,
    /// A frame with this number was already accepted, with a different
    /// payload or a different terminal flag.
    FrameMismatch,
    /// The channel's length is already fixed and this frame lies beyond it.
    BeyondEnd,
    /// The channel's length is already fixed and this frame claims to fix it
    /// again at a new position.
    AlreadyClosed,
}

/// Errors that cross the stage boundary.
#[derive(Clone, Copy, Debug, PartialEq, Eq, Structural)]
pub enum StageError {
    /// No progress is possible without more upstream input; retry later.
    Eof,
    /// A step made progress but produced no output yet; drive the stage again.
    NotEnoughData,
    /// Ingestion or reading was attempted before any base-layer origin was
    /// known: a broken caller contract, not an expected runtime condition.
    NoOrigin,
    /// The channel map and the channel queue disagree: an internal invariant
    /// violation.
    MissingChannel,
}

} // verus!
