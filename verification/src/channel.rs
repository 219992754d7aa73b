//! A channel: the accumulator that reassembles one ordered byte-stream out of
//! the frames received for a single channel id.

use vstd::prelude::*;

use crate::types::{ChannelId, Frame, FrameError, FRAME_OVERHEAD};

verus! {

/// Weight a stored payload contributes to a channel's estimated size: its
/// length plus the fixed per-frame overhead; an empty slot weighs nothing.
pub open spec fn slot_weight(s: Option<Vec<u8>>) -> int {
    match s {
        Some(d) => FRAME_OVERHEAD + d@.len(),
        None => 0,
    }
}

/// Total weight of a sequence of payload slots.
pub open spec fn slots_size(s: Seq<Option<Vec<u8>>>) -> int
    decreases s.len(),
{
    if s.len() == 0 {
        0
    } else {
        slots_size(s.drop_last()) + slot_weight(s.last())
    }
}

/// Concatenation of the payloads in slots `0 .. n`, in slot order.
pub open spec fn concat_payloads(s: Seq<Option<Vec<u8>>>, n: int) -> Seq<u8>
    decreases n,
{
    if n <= 0 {
        Seq::empty()
    } else {
        concat_payloads(s, n - 1) + (s[n - 1])->0@
    }
}

pub proof fn lemma_slots_size_update(s: Seq<Option<Vec<u8>>>, i: int, v: Option<Vec<u8>>)
    requires
        0 <= i < s.len(),
    ensures
        slots_size(s.update(i, v)) == slots_size(s) - slot_weight(s[i]) + slot_weight(v),
    decreases s.len(),
{
    let t = s.update(i, v);
    if i == s.len() - 1 {
        assert(t.drop_last() =~= s.drop_last());
    } else {
        assert(t.drop_last() =~= s.drop_last().update(i, v));
        lemma_slots_size_update(s.drop_last(), i, v);
    }
}

/// One in-progress channel: the payloads received so far (indexed by frame
/// number), the position of the terminal frame once one was accepted, and an
/// incrementally maintained size estimate.
#[derive(Clone, Debug)]
pub struct Channel {
    /// The id every frame of this channel must carry.
    pub id: ChannelId,
    /// Height of the base-layer origin current when the channel was created.
    pub open_block_number: u64,
    /// Slot `k` holds the payload of frame number `k`, once received.
    pub slots: Vec<Option<Vec<u8>>>,
    /// Number of the terminal frame, once a frame with `is_last` was accepted.
    pub last_frame_number: Option<u16>,
    /// Sum of stored payload sizes, each plus [`FRAME_OVERHEAD`].
    pub estimated_size: usize,
}

impl Channel {
    /// Whether a frame with number `k` has been accepted.
    pub open spec fn has_frame(self, k: int) -> bool {
        0 <= k < self.slots@.len() && self.slots@[k] is Some
    }

    /// The payload stored for frame number `k`.
    pub open spec fn frame_bytes(self, k: int) -> Seq<u8> {
        (self.slots@[k])->0@
    }

    /// Internal consistency: slot indices stay within frame-number range, the
    /// size estimate matches the stored payloads, and the terminal position,
    /// once fixed, points at a received frame.
    pub open spec fn wf(self) -> bool {
        &&& self.slots@.len() <= 0x1_0000
        &&& self.estimated_size == slots_size(self.slots@)
        &&& match self.last_frame_number {
            Some(n) => self.has_frame(n as int),
            None => true,
        }
    }

    /// A terminal frame was accepted and no frame number below it is missing.
    pub open spec fn spec_is_ready(self) -> bool {
        &&& self.last_frame_number is Some
        &&& forall|k: int|
            0 <= k <= self.last_frame_number->0 as int ==> self.has_frame(k)
    }

    /// The reconstructed byte-stream: payloads of frames `0 ..= N`,
    /// concatenated in frame-number order.
    pub open spec fn spec_data(self) -> Seq<u8>
        recommends
            self.spec_is_ready(),
    {
        concat_payloads(self.slots@, self.last_frame_number->0 as int + 1)
    }

    /// The exact outcome [`Self::add_frame`] has on a given frame.
    pub open spec fn spec_add_outcome(self, frame: Frame) -> Result<(), FrameError> {
        if frame.id != self.id {
            Err(FrameError::WrongChannel)
        } else if self.has_frame(frame.number as int) {
            if self.frame_bytes(frame.number as int) == frame.data@ && (frame.is_last
                <==> self.last_frame_number == Some(frame.number)) {
                Ok(())
            } else {
                Err(FrameError::FrameMismatch)
            }
        } else if self.last_frame_number matches Some(n) && frame.number > n {
            Err(FrameError::BeyondEnd)
        } else if self.last_frame_number is Some && frame.is_last {
            Err(FrameError::AlreadyClosed)
        } else {
            Ok(())
        }
    }

    /// Open a fresh channel for `id` at the current origin height.
    pub fn new(id: ChannelId, open_block_number: u64) -> (r: Channel)
        ensures
            r.wf(),
            r.id == id,
            r.open_block_number == open_block_number,
            r.last_frame_number is None,
            r.estimated_size == 0,
            forall|k: int| !r.has_frame(k),
    {
        Channel {
            id,
            open_block_number,
            slots: Vec::new(),
            last_frame_number: None,
            estimated_size: 0,
        }
    }

    /// Record one frame, or reject it without touching any state.
    ///
    /// A frame is rejected when it names another channel, collides with an
    /// already stored frame number under different bytes or a different
    /// terminal flag, or arrives after a terminal frame fixed the channel's
    /// length and falls outside that length. Re-offering an already accepted
    /// frame unchanged succeeds and changes nothing.
    pub fn add_frame(&mut self, frame: Frame) -> (r: Result<(), FrameError>)
        requires
            old(self).wf(),
            old(self).estimated_size + FRAME_OVERHEAD + frame.data@.len() <= usize::MAX,
        ensures
            final(self).wf(),
            r == old(self).spec_add_outcome(frame),
            r is Err ==> *final(self) == *old(self),
            r is Ok && old(self).has_frame(frame.number as int) ==> *final(self) == *old(self),
            r is Ok && !old(self).has_frame(frame.number as int) ==> {
                &&& final(self).id == old(self).id
                &&& final(self).open_block_number == old(self).open_block_number
                &&& forall|k: int|
                    #[trigger] final(self).has_frame(k) <==> (old(self).has_frame(k) || k
                        == frame.number as int)
                &&& final(self).frame_bytes(frame.number as int) == frame.data@
                &&& forall|k: int|
                    #[trigger] old(self).has_frame(k) ==> final(self).frame_bytes(k) == old(
                        self,
                    ).frame_bytes(k)
                &&& final(self).last_frame_number == (if frame.is_last {
                    Some(frame.number)
                } else {
                    old(self).last_frame_number
                })
                &&& final(self).estimated_size == old(self).estimated_size + FRAME_OVERHEAD
                    + frame.data@.len()
            },
    {
        if frame.id != self.id {
            return Err(FrameError::WrongChannel);
        }
        let n = frame.number as usize;
        if n < self.slots.len() && self.slots[n].is_some() {
            let stored_is_last = match self.last_frame_number {
                Some(m) => m == frame.number,
                None => false,
            };
            if bytes_eq(self.slots[n].as_ref().unwrap(), &frame.data) && frame.is_last
                == stored_is_last {
                Ok(())
            } else {
                Err(FrameError::FrameMismatch)
            }
        } else {
            match self.last_frame_number {
                Some(m) => {
                    if frame.number > m {
                        return Err(FrameError::BeyondEnd);
                    }
                    if frame.is_last {
                        return Err(FrameError::AlreadyClosed);
                    }
                },
                None => {},
            }
            let ghost pre = *self;
            while self.slots.len() <= n
                invariant
                    n < 0x1_0000,
                    self.id == pre.id,
                    self.open_block_number == pre.open_block_number,
                    self.last_frame_number == pre.last_frame_number,
                    self.estimated_size == pre.estimated_size,
                    self.slots@.len() >= pre.slots@.len(),
                    self.slots@.len() <= n + 1 || self.slots@.len() == pre.slots@.len(),
                    pre.slots@ =~= self.slots@.subrange(0, pre.slots@.len() as int),
                    forall|k: int|
                        pre.slots@.len() <= k < self.slots@.len() ==> self.slots@[k] is None,
                    slots_size(self.slots@) == slots_size(pre.slots@),
                decreases n + 1 - self.slots@.len(),
            {
                let ghost before = self.slots@;
                self.slots.push(None);
                assert(self.slots@.drop_last() =~= before);
            }
            assert(n < self.slots@.len());
            assert(forall|k: int|
                0 <= k < pre.slots@.len() ==> self.slots@[k] == pre.slots@[k]);
            let dlen = frame.data.len();
            proof {
                lemma_slots_size_update(self.slots@, n as int, Some(frame.data));
            }
            self.slots[n] = Some(frame.data);
            if frame.is_last {
                self.last_frame_number = Some(frame.number);
            }
            self.estimated_size = self.estimated_size + FRAME_OVERHEAD + dlen;
            assert forall|k: int| #[trigger] self.has_frame(k) implies (pre.has_frame(k) || k
                == frame.number as int) by {
                if k != frame.number as int && 0 <= k < pre.slots@.len() {
                    assert(self.slots@[k] == pre.slots@[k]);
                }
            }
            assert forall|k: int| #[trigger] pre.has_frame(k) implies self.has_frame(k)
                && self.frame_bytes(k) == pre.frame_bytes(k) by {
                assert(self.slots@[k] == pre.slots@[k]);
            }
            Ok(())
        }
    }

    /// Executable form of [`Self::spec_is_ready`].
    pub fn is_ready(&self) -> (r: bool)
        requires
            self.wf(),
        ensures
            r == self.spec_is_ready(),
    {
        match self.last_frame_number {
            None => false,
            Some(n) => {
                let mut k: usize = 0;
                let bound = n as usize;
                while k <= bound
                    invariant
                        bound < self.slots@.len(),
                        k <= bound + 1,
                        forall|j: int| 0 <= j < k ==> self.has_frame(j),
                        self.wf(),
                        self.last_frame_number == Some(n),
                        bound == n as usize,
                    decreases bound + 1 - k,
                {
                    if self.slots[k].is_none() {
                        assert(!self.has_frame(k as int));
                        return false;
                    }
                    assert(self.has_frame(k as int));
                    k += 1;
                }
                true
            },
        }
    }

    /// Reconstruct the channel's byte-stream. Only a ready channel has one.
    pub fn frame_data(&self) -> (r: Vec<u8>)
        requires
            self.wf(),
            self.spec_is_ready(),
        ensures
            r@ == self.spec_data(),
    {
        let mut out: Vec<u8> = Vec::new();
        let bound = match self.last_frame_number {
            Some(n) => n as usize,
            None => 0,
        };
        let mut k: usize = 0;
        while k <= bound
            invariant
                self.wf(),
                self.spec_is_ready(),
                bound == self.last_frame_number->0 as usize,
                bound < self.slots@.len(),
                k <= bound + 1,
                out@ == concat_payloads(self.slots@, k as int),
            decreases bound + 1 - k,
        {
            assert(self.has_frame(k as int));
            let payload = self.slots[k].as_ref().unwrap();
            let mut j: usize = 0;
            let ghost pre_out = out@;
            while j < payload.len()
                invariant
                    j <= payload@.len(),
                    out@ == pre_out + payload@.subrange(0, j as int),
                decreases payload@.len() - j,
            {
                out.push(payload[j]);
                assert(out@ =~= pre_out + payload@.subrange(0, j as int + 1));
                j += 1;
            }
            assert(payload@.subrange(0, payload@.len() as int) =~= payload@);
            assert(out@ == concat_payloads(self.slots@, k as int + 1));
            k += 1;
        }
        out
    }
}

proof fn lemma_concat_matches_flatten_alt(
    s: Seq<Option<Vec<u8>>>,
    payloads: Seq<Seq<u8>>,
    m: int,
)
    requires
        0 <= m <= payloads.len(),
        forall|k: int|
            0 <= k < payloads.len() ==> 0 <= k < s.len() && s[k] is Some && (#[trigger] s[k])->0@
                == payloads[k],
    ensures
        concat_payloads(s, m) == payloads.subrange(0, m).flatten_alt(),
    decreases m,
{
    if m == 0 {
        assert(payloads.subrange(0, 0) =~= Seq::<Seq<u8>>::empty());
    } else {
        lemma_concat_matches_flatten_alt(s, payloads, m - 1);
        let pm = payloads.subrange(0, m);
        assert(pm.drop_last() =~= payloads.subrange(0, m - 1));
        assert(pm.last() == payloads[m - 1]);
    }
}

/// Completeness: a channel that holds exactly the payloads of frames
/// `0 ..= N`, with `N` its terminal frame, is ready, and the byte-stream it
/// reconstructs is the concatenation of those payloads in frame-number
/// order.
pub proof fn lemma_complete_reconstruction(ch: Channel, payloads: Seq<Seq<u8>>)
    requires
        ch.wf(),
        ch.last_frame_number is Some,
        payloads.len() == ch.last_frame_number->0 as int + 1,
        forall|k: int| 0 <= k < payloads.len() ==> #[trigger] ch.has_frame(k),
        forall|k: int|
            0 <= k < payloads.len() ==> (#[trigger] ch.frame_bytes(k)) == payloads[k],
    ensures
        ch.spec_is_ready(),
        ch.spec_data() == payloads.flatten(),
{
    let n = ch.last_frame_number->0 as int;
    assert forall|k: int| 0 <= k <= n implies ch.has_frame(k) by {
        assert(0 <= k < payloads.len());
        assert(ch.has_frame(k) && ch.frame_bytes(k) == payloads[k]);
    }
    assert forall|k: int|
        0 <= k < payloads.len() implies 0 <= k < ch.slots@.len() && ch.slots@[k] is Some && (
    #[trigger] ch.slots@[k])->0@ == payloads[k] by {
        assert(ch.has_frame(k) && ch.frame_bytes(k) == payloads[k]);
    }
    lemma_concat_matches_flatten_alt(ch.slots@, payloads, n + 1);
    assert(payloads.subrange(0, n + 1) =~= payloads);
    payloads.lemma_flatten_and_flatten_alt_are_equivalent();
}

/// Byte-for-byte comparison of two payloads.
pub fn bytes_eq(a: &Vec<u8>, b: &Vec<u8>) -> (r: bool)
    ensures
        r == (a@ == b@),
{
    if a.len() != b.len() {
        return false;
    }
    let mut i: usize = 0;
    while i < a.len()
        invariant
            a@.len() == b@.len(),
            i <= a@.len(),
            forall|j: int| 0 <= j < i ==> a@[j] == b@[j],
        decreases a@.len() - i,
    {
        if a[i] != b[i] {
            return false;
        }
        i += 1;
    }
    proof {
        assert(a@ =~= b@);
    }
    true
}

} // verus!
