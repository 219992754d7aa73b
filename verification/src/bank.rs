//! The channel bank: a bounded buffer of in-progress channels, ordered by
//! arrival, pruned oldest-first on overflow, and read under a fork-gated
//! scan policy.

use vstd::prelude::*;

use crate::channel::Channel;
use crate::index_map::{
    index_clear, index_get, index_insert, index_new, index_remove, index_view, ChannelIndex,
};
use crate::types::{BlockInfo, ChannelId, Frame, RollupConfig, StageError, FRAME_OVERHEAD};

verus! {

/// Total estimated size of a sequence of channels.
pub open spec fn channels_size(cs: Seq<Channel>) -> int
    decreases cs.len(),
{
    if cs.len() == 0 {
        0
    } else {
        cs[0].estimated_size + channels_size(cs.skip(1))
    }
}

pub proof fn lemma_channels_size_nonneg(cs: Seq<Channel>)
    ensures
        channels_size(cs) >= 0,
    decreases cs.len(),
{
    if cs.len() > 0 {
        lemma_channels_size_nonneg(cs.skip(1));
    }
}

pub proof fn lemma_channels_size_concat(a: Seq<Channel>, b: Seq<Channel>)
    ensures
        channels_size(a + b) == channels_size(a) + channels_size(b),
    decreases a.len(),
{
    if a.len() == 0 {
        assert(a + b =~= b);
    } else {
        assert((a + b).skip(1) =~= a.skip(1) + b);
        assert((a + b)[0] == a[0]);
        lemma_channels_size_concat(a.skip(1), b);
    }
}

/// The total splits at any cut point.
pub proof fn lemma_channels_size_split(cs: Seq<Channel>, k: int)
    requires
        0 <= k <= cs.len(),
    ensures
        channels_size(cs) == channels_size(cs.subrange(0, k)) + channels_size(cs.skip(k)),
{
    assert(cs =~= cs.subrange(0, k) + cs.skip(k));
    lemma_channels_size_concat(cs.subrange(0, k), cs.skip(k));
}

pub proof fn lemma_channels_size_singleton(c: Channel)
    ensures
        channels_size(seq![c]) == c.estimated_size,
{
    let s = seq![c];
    assert(s.len() == 1);
    assert(s[0] == c);
    assert(s.skip(1) =~= Seq::<Channel>::empty());
    assert(channels_size(s.skip(1)) == 0);
    assert(channels_size(s) == s[0].estimated_size + channels_size(s.skip(1)));
}

pub proof fn lemma_channels_size_push(cs: Seq<Channel>, c: Channel)
    ensures
        channels_size(cs.push(c)) == channels_size(cs) + c.estimated_size,
{
    lemma_channels_size_singleton(c);
    assert(cs.push(c) =~= cs + seq![c]);
    lemma_channels_size_concat(cs, seq![c]);
}

pub proof fn lemma_channels_size_update(cs: Seq<Channel>, i: int, c: Channel)
    requires
        0 <= i < cs.len(),
    ensures
        channels_size(cs.update(i, c)) == channels_size(cs) - cs[i].estimated_size
            + c.estimated_size,
{
    let pre_mid = cs.subrange(0, i) + seq![cs[i]];
    let post_mid = cs.subrange(0, i) + seq![c];
    assert(cs =~= pre_mid + cs.skip(i + 1));
    assert(cs.update(i, c) =~= post_mid + cs.skip(i + 1));
    lemma_channels_size_concat(pre_mid, cs.skip(i + 1));
    lemma_channels_size_concat(post_mid, cs.skip(i + 1));
    lemma_channels_size_concat(cs.subrange(0, i), seq![cs[i]]);
    lemma_channels_size_concat(cs.subrange(0, i), seq![c]);
    lemma_channels_size_singleton(cs[i]);
    lemma_channels_size_singleton(c);
}

pub proof fn lemma_channels_size_remove(cs: Seq<Channel>, i: int)
    requires
        0 <= i < cs.len(),
    ensures
        channels_size(cs.remove(i)) == channels_size(cs) - cs[i].estimated_size,
{
    assert(cs.remove(i) =~= cs.subrange(0, i) + cs.skip(i + 1));
    lemma_channels_size_concat(cs.subrange(0, i), cs.skip(i + 1));
    lemma_channels_size_split(cs, i);
    assert(cs.skip(i) =~= seq![cs[i]] + cs.skip(i + 1));
    lemma_channels_size_concat(seq![cs[i]], cs.skip(i + 1));
    lemma_channels_size_singleton(cs[i]);
}

/// An element's weight never exceeds the total.
pub proof fn lemma_channels_size_element(cs: Seq<Channel>, i: int)
    requires
        0 <= i < cs.len(),
    ensures
        cs[i].estimated_size <= channels_size(cs),
{
    lemma_channels_size_remove(cs, i);
    lemma_channels_size_nonneg(cs.remove(i));
}

/// A channel is stale once its open window of base-layer blocks has elapsed.
pub open spec fn spec_timed_out(ch: Channel, origin: BlockInfo, cfg: RollupConfig) -> bool {
    ch.open_block_number + cfg.channel_timeout < origin.number
}

/// A channel that `read` may return: ready and not stale.
pub open spec fn spec_eligible(ch: Channel, origin: BlockInfo, cfg: RollupConfig) -> bool {
    !spec_timed_out(ch, origin, cfg) && ch.spec_is_ready()
}

/// `post` is `pre` with the least prefix evicted, oldest first, that brings
/// the total size within `max`.
pub open spec fn pruned_rel(pre: Seq<Channel>, post: Seq<Channel>, max: int) -> bool {
    exists|k: int|
        {
            &&& 0 <= k <= pre.len()
            &&& post == pre.skip(k)
            &&& channels_size(pre.skip(k)) <= max
            &&& forall|j: int| 0 <= j < k ==> channels_size(#[trigger] pre.skip(j)) > max
        }
}

/// `nc` is a freshly opened channel at height `open_block` holding exactly
/// `frame`.
pub open spec fn opened_with(nc: Channel, frame: Frame, open_block: u64) -> bool {
    &&& nc.id == frame.id
    &&& nc.open_block_number == open_block
    &&& nc.last_frame_number == (if frame.is_last {
        Some(frame.number)
    } else {
        None::<u16>
    })
    &&& nc.estimated_size == FRAME_OVERHEAD + frame.data@.len()
    &&& forall|t: int| #[trigger] nc.has_frame(t) <==> t == frame.number as int
    &&& nc.frame_bytes(frame.number as int) == frame.data@
}

/// `nc` is `ch` with the newly stored `frame` and nothing else changed.
pub open spec fn extended_with(nc: Channel, ch: Channel, frame: Frame) -> bool {
    &&& nc.id == ch.id
    &&& nc.open_block_number == ch.open_block_number
    &&& nc.last_frame_number == (if frame.is_last {
        Some(frame.number)
    } else {
        ch.last_frame_number
    })
    &&& nc.estimated_size == ch.estimated_size + FRAME_OVERHEAD + frame.data@.len()
    &&& forall|t: int|
        #[trigger] nc.has_frame(t) <==> (ch.has_frame(t) || t == frame.number as int)
    &&& nc.frame_bytes(frame.number as int) == frame.data@
    &&& forall|t: int| #[trigger] ch.has_frame(t) ==> nc.frame_bytes(t) == ch.frame_bytes(t)
}

/// Exact relation between a bank before and after [`ChannelBank::ingest_frame`]
/// of `frame`, and the result `r` the call returns.
pub open spec fn ingest_rel(
    pre: ChannelBank,
    post: ChannelBank,
    frame: Frame,
    r: Result<(), StageError>,
) -> bool {
    if pre.origin is None {
        r == Err::<(), StageError>(StageError::NoOrigin) && post == pre
    } else {
        let o = pre.origin->0;
        let cs = pre.channels@;
        let max = pre.cfg.max_channel_bank_size as int;
        &&& r is Ok
        &&& if !pre.spec_has_channel(frame.id) {
            exists|nc: Channel|
                #[trigger] opened_with(nc, frame, o.number) && pruned_rel(
                    cs.push(nc),
                    post.channels@,
                    max,
                )
        } else {
            let i = pre.chan_pos(frame.id);
            let ch = cs[i];
            if spec_timed_out(ch, o, pre.cfg) {
                post == pre
            } else if ch.spec_add_outcome(frame) is Err {
                post.channels@ == cs && post.index == pre.index
            } else if ch.has_frame(frame.number as int) {
                post.channels@ == cs && post.index == pre.index
            } else {
                exists|nc: Channel|
                    #[trigger] extended_with(nc, ch, frame) && pruned_rel(
                        cs.update(i, nc),
                        post.channels@,
                        max,
                    )
            }
        }
    }
}

/// Exact relation between a bank before and after [`ChannelBank::read`], and
/// the result `r` the call returns.
pub open spec fn read_rel(
    pre: ChannelBank,
    post: ChannelBank,
    r: Result<Option<Vec<u8>>, StageError>,
) -> bool {
    let cs = pre.channels@;
    if cs.len() == 0 {
        r == Err::<Option<Vec<u8>>, StageError>(StageError::Eof) && post == pre
    } else if pre.origin is None {
        r == Err::<Option<Vec<u8>>, StageError>(StageError::NoOrigin) && post == pre
    } else {
        let o = pre.origin->0;
        if spec_timed_out(cs[0], o, pre.cfg) {
            &&& r == Ok::<Option<Vec<u8>>, StageError>(None)
            &&& post.channels@ == cs.skip(1)
        } else if !pre.cfg.spec_is_canyon_active(o.timestamp) {
            if cs[0].spec_is_ready() {
                &&& r matches Ok(d) && d matches Some(b) && b@ == cs[0].spec_data()
                &&& post.channels@ == cs.skip(1)
            } else {
                r == Err::<Option<Vec<u8>>, StageError>(StageError::Eof) && post == pre
            }
        } else {
            if exists|p: int| #[trigger] first_eligible_at(cs, o, pre.cfg, p) {
                exists|p: int|
                    {
                        &&& #[trigger] first_eligible_at(cs, o, pre.cfg, p)
                        &&& r matches Ok(d) && d matches Some(b) && b@ == cs[p].spec_data()
                        &&& post.channels@ == cs.remove(p)
                    }
            } else {
                r == Err::<Option<Vec<u8>>, StageError>(StageError::Eof) && post == pre
            }
        }
    }
}

/// `p` is the position of the earliest channel in `cs` that `read` may serve.
pub open spec fn first_eligible_at(cs: Seq<Channel>, o: BlockInfo, cfg: RollupConfig, p: int) -> bool {
    &&& 0 <= p < cs.len()
    &&& spec_eligible(cs[p], o, cfg)
    &&& forall|q: int| 0 <= q < p ==> !spec_eligible(#[trigger] cs[q], o, cfg)
}

/// What one pull-loop step asks of the driver: either a finished outcome to
/// hand downstream, or a demand to pull one frame from upstream first.
pub enum NextData {
    /// The step's outcome: data, the transient retry signal, or an error.
    Done(Result<Option<Vec<u8>>, StageError>),
    /// Nothing buffered is ready: pull one frame and resume.
    NeedFrame,
}

/// The bounded buffer of in-flight channels.
pub struct ChannelBank {
    /// The immutable rollup configuration.
    pub cfg: RollupConfig,
    /// The base-layer origin currently associated with the pipeline, if any
    /// is known yet.
    pub origin: Option<BlockInfo>,
    /// The buffered channels in strict FIFO insertion order: index 0 is the
    /// channel whose id arrived earliest.
    pub channels: Vec<Channel>,
    /// Lookup table from channel id to its position in `channels`.
    pub index: ChannelIndex,
}

impl ChannelBank {
    /// Structural consistency: ids are unique, the lookup table and the FIFO
    /// storage mirror each other exactly, every channel is internally
    /// consistent, and the total size is machine-representable.
    pub open spec fn wf_core(self) -> bool {
        let mv = index_view(self.index);
        let cs = self.channels@;
        &&& forall|i: int, j: int|
            0 <= i < j < cs.len() ==> (#[trigger] cs[i].id) != (#[trigger] cs[j].id)
        &&& forall|i: int|
            0 <= i < cs.len() ==> mv.contains_key(#[trigger] cs[i].id) && mv[cs[i].id] == i
        &&& forall|id: ChannelId|
            #[trigger] mv.contains_key(id) ==> exists|i: int|
                0 <= i < cs.len() && (#[trigger] cs[i].id) == id
        &&& forall|i: int| 0 <= i < cs.len() ==> (#[trigger] cs[i]).wf()
        &&& channels_size(cs) <= usize::MAX
    }

    /// Total buffered size: the sum of every channel's estimated size.
    pub open spec fn total_size(self) -> int {
        channels_size(self.channels@)
    }

    /// The bank's invariant between stage operations: structurally
    /// consistent and within the configured byte budget.
    pub open spec fn wf(self) -> bool {
        self.wf_core() && self.total_size() <= self.cfg.max_channel_bank_size
    }

    /// Whether a channel with this id is currently buffered.
    pub open spec fn spec_has_channel(self, id: ChannelId) -> bool {
        index_view(self.index).contains_key(id)
    }

    /// Position of the channel with this id in FIFO order.
    pub open spec fn chan_pos(self, id: ChannelId) -> int {
        index_view(self.index)[id] as int
    }

    /// Create an empty bank for a configuration. No origin is known yet.
    pub fn new(cfg: RollupConfig) -> (r: ChannelBank)
        ensures
            r.wf(),
            r.cfg == cfg,
            r.origin is None,
            r.channels@.len() == 0,
            r.total_size() == 0,
    {
        let r = ChannelBank { cfg, origin: None, channels: Vec::new(), index: index_new() };
        proof {
            assert(r.channels@.len() == 0);
        }
        r
    }

    /// The base-layer origin this bank currently works against.
    pub fn origin(&self) -> (r: Option<BlockInfo>)
        ensures
            r == self.origin,
    {
        self.origin
    }

    /// Record the base-layer origin the pipeline has traversed to. All
    /// timeout and upgrade decisions are made against this block.
    pub fn set_origin(&mut self, origin: BlockInfo)
        ensures
            final(self).origin == Some(origin),
            final(self).cfg == old(self).cfg,
            final(self).channels == old(self).channels,
            final(self).index == old(self).index,
            old(self).wf() ==> final(self).wf(),
            old(self).wf_core() ==> final(self).wf_core(),
    {
        self.origin = Some(origin);
    }

    /// Size of the bank: the byte estimate accumulated over all channels.
    pub fn size(&self) -> (r: usize)
        requires
            self.wf_core(),
        ensures
            r as int == self.total_size(),
    {
        let cs_len = self.channels.len();
        let mut acc: usize = 0;
        let mut i: usize = 0;
        while i < cs_len
            invariant
                self.wf_core(),
                cs_len == self.channels@.len(),
                i <= cs_len,
                acc as int == channels_size(self.channels@.subrange(0, i as int)),
            decreases cs_len - i,
        {
            proof {
                let cs = self.channels@;
                lemma_channels_size_push(cs.subrange(0, i as int), cs[i as int]);
                assert(cs.subrange(0, i as int + 1) =~= cs.subrange(0, i as int).push(
                    cs[i as int],
                ));
                lemma_channels_size_split(cs, i as int + 1);
                lemma_channels_size_nonneg(cs.skip(i as int + 1));
            }
            acc = acc + self.channels[i].estimated_size;
            i += 1;
        }
        proof {
            assert(self.channels@.subrange(0, cs_len as int) =~= self.channels@);
        }
        acc
    }

    /// Look an id up in the lookup table.
    fn find_channel(&self, id: ChannelId) -> (r: Option<usize>)
        requires
            self.wf_core(),
        ensures
            match r {
                Some(i) => self.spec_has_channel(id) && i as int == self.chan_pos(id) && i
                    < self.channels@.len() && self.channels@[i as int].id == id,
                None => !self.spec_has_channel(id) && forall|p: int|
                    0 <= p < self.channels@.len() ==> (#[trigger] self.channels@[p].id) != id,
            },
    {
        let r = index_get(&self.index, id);
        proof {
            let mv = index_view(self.index);
            let cs = self.channels@;
            if mv.contains_key(id) {
                let w = choose|i: int| 0 <= i < cs.len() && cs[i].id == id;
                assert(mv[cs[w].id] == w);
            } else {
                assert forall|p: int| 0 <= p < cs.len() implies (#[trigger] cs[p].id) != id by {
                    assert(mv.contains_key(cs[p].id));
                }
            }
        }
        r
    }

    /// Remove the channel at FIFO position `i` from both the storage and the
    /// lookup table, re-pointing the table entries of the channels behind it.
    fn remove_channel_at(&mut self, i: usize) -> (r: Channel)
        requires
            old(self).wf_core(),
            i < old(self).channels@.len(),
        ensures
            final(self).wf_core(),
            r == old(self).channels@[i as int],
            final(self).channels@ == old(self).channels@.remove(i as int),
            final(self).cfg == old(self).cfg,
            final(self).origin == old(self).origin,
            final(self).total_size() == old(self).total_size() - r.estimated_size,
    {
        proof {
            lemma_channels_size_remove(old(self).channels@, i as int);
            lemma_channels_size_nonneg(old(self).channels@.remove(i as int));
        }
        let ch = self.channels.remove(i);
        index_remove(&mut self.index, ch.id);
        let ghost cs = self.channels@;
        let ghost cfg0 = self.cfg;
        let ghost origin0 = self.origin;
        proof {
            assert forall|p: int|
                0 <= p < cs.len() implies index_view(self.index).contains_key(
                (#[trigger] cs[p]).id,
            ) by {
                if p < i as int {
                    assert(cs[p] == old(self).channels@[p]);
                    assert(old(self).channels@[p].id != old(self).channels@[i as int].id);
                } else {
                    assert(cs[p] == old(self).channels@[p + 1]);
                    assert(old(self).channels@[p + 1].id != old(self).channels@[i as int].id);
                }
            }
            assert forall|id: ChannelId|
                #[trigger] index_view(self.index).contains_key(id) implies exists|p: int|
                0 <= p < cs.len() && (#[trigger] cs[p].id) == id by {
                let q = choose|q: int|
                    0 <= q < old(self).channels@.len() && old(self).channels@[q].id == id;
                assert(index_view(old(self).index)[old(self).channels@[q].id] == q);
                assert(q != i as int);
                if q < i as int {
                    assert(cs[q].id == id);
                } else {
                    assert(cs[q - 1].id == id);
                }
            }
        }
        let mut j: usize = i;
        while j < self.channels.len()
            invariant
                i <= j <= self.channels@.len(),
                self.channels@ == cs,
                self.cfg == cfg0,
                self.origin == origin0,
                forall|p: int, q: int| 0 <= p < q < cs.len() ==> cs[p].id != cs[q].id,
                forall|p: int| 0 <= p < cs.len() ==> (#[trigger] cs[p]).wf(),
                channels_size(cs) <= usize::MAX,
                forall|p: int|
                    0 <= p < cs.len() ==> index_view(self.index).contains_key(
                        #[trigger] cs[p].id,
                    ),
                forall|p: int|
                    0 <= p < cs.len() ==> index_view(self.index)[#[trigger] cs[p].id] == (
                    if p < j as int {
                        p
                    } else {
                        p + 1
                    }),
                forall|id: ChannelId|
                    #[trigger] index_view(self.index).contains_key(id) ==> exists|p: int|
                        0 <= p < cs.len() && (#[trigger] cs[p].id) == id,
            decreases self.channels@.len() - j,
        {
            let id_j = self.channels[j].id;
            index_insert(&mut self.index, id_j, j);
            proof {
                assert forall|p: int|
                    0 <= p < cs.len() && p != j as int implies index_view(self.index)[(
                #[trigger] cs[p]).id] == (
                if p < j as int + 1 {
                    p
                } else {
                    p + 1
                }) by {
                    if p < j as int {
                        assert(cs[p].id != cs[j as int].id);
                    } else {
                        assert(cs[j as int].id != cs[p].id);
                    }
                }
            }
            j += 1;
        }
        ch
    }

    /// Evict channels from the front of the FIFO order, oldest first, until
    /// the total buffered size is within the configured byte budget.
    ///
    /// The error branch guards against a desynchronized queue and map; under
    /// the bank's invariant it is unreachable, so pruning always succeeds.
    pub fn prune(&mut self) -> (r: Result<(), StageError>)
        requires
            old(self).wf_core(),
        ensures
            final(self).wf_core(),
            final(self).cfg == old(self).cfg,
            final(self).origin == old(self).origin,
            r is Ok,
            pruned_rel(
                old(self).channels@,
                final(self).channels@,
                old(self).cfg.max_channel_bank_size as int,
            ),
            final(self).total_size() <= old(self).cfg.max_channel_bank_size,
            old(self).total_size() <= old(self).cfg.max_channel_bank_size ==> *final(self)
                == *old(self),
    {
        let max = self.cfg.max_channel_bank_size;
        let mut total = self.size();
        let ghost mut k: int = 0;
        while total > max
            invariant
                self.wf_core(),
                self.cfg == old(self).cfg,
                self.origin == old(self).origin,
                0 <= k <= old(self).channels@.len(),
                self.channels@ == old(self).channels@.skip(k),
                forall|j: int|
                    0 <= j < k ==> channels_size(#[trigger] old(self).channels@.skip(j)) > max,
                total as int == self.total_size(),
                max == old(self).cfg.max_channel_bank_size,
                k == 0 ==> *self == *old(self),
            decreases self.channels@.len(),
        {
            if self.channels.is_empty() {
                return Err(StageError::MissingChannel);
            }
            let ghost pre_cs = self.channels@;
            let ch = self.remove_channel_at(0);
            proof {
                assert(pre_cs.remove(0) =~= pre_cs.skip(1));
                assert(old(self).channels@.skip(k).skip(1) =~= old(self).channels@.skip(k + 1));
                lemma_channels_size_nonneg(self.channels@);
                k = k + 1;
            }
            total = total - ch.estimated_size;
        }
        proof {
            assert(channels_size(old(self).channels@.skip(k)) <= max);
        }
        Ok(())
    }

    /// Buffer one frame pulled from upstream.
    ///
    /// Requires a known origin; failing that is a broken caller contract and
    /// reported as fatal. An untrusted-input fault — a frame for a stale
    /// channel, or one its channel rejects — is absorbed: the frame is
    /// dropped and ingestion still succeeds. After a frame is recorded the
    /// bank is pruned back within its byte budget.
    pub fn ingest_frame(&mut self, frame: Frame) -> (r: Result<(), StageError>)
        requires
            old(self).wf(),
            old(self).total_size() + FRAME_OVERHEAD + frame.data@.len() <= usize::MAX,
        ensures
            final(self).wf(),
            final(self).cfg == old(self).cfg,
            final(self).origin == old(self).origin,
            ingest_rel(*old(self), *final(self), frame, r),
            final(self).total_size() <= final(self).cfg.max_channel_bank_size,
    {
        let o = match self.origin {
            Some(o) => o,
            None => {
                return Err(StageError::NoOrigin);
            },
        };
        let i: usize = match self.find_channel(frame.id) {
            Some(i) => i,
            None => {
                let nc = Channel::new(frame.id, o.number);
                let pos = self.channels.len();
                proof {
                    lemma_channels_size_push(self.channels@, nc);
                }
                self.channels.push(nc);
                index_insert(&mut self.index, frame.id, pos);
                proof {
                    let cs = self.channels@;
                    assert forall|p: int|
                        0 <= p < cs.len() implies index_view(self.index).contains_key(
                        (#[trigger] cs[p]).id,
                    ) && index_view(self.index)[cs[p].id] == p by {
                        if p < pos as int {
                            assert(cs[p] == old(self).channels@[p]);
                            assert(cs[p].id != frame.id);
                        }
                    }
                    assert forall|id: ChannelId|
                        #[trigger] index_view(self.index).contains_key(id) implies exists|p: int|
                        0 <= p < cs.len() && (#[trigger] cs[p].id) == id by {
                        if id == frame.id {
                            assert(cs[pos as int].id == id);
                        } else {
                            let q = choose|q: int|
                                0 <= q < old(self).channels@.len() && old(self).channels@[q].id
                                    == id;
                            assert(cs[q].id == id);
                        }
                    }
                    assert forall|p: int, q: int|
                        0 <= p < q < cs.len() implies (#[trigger] cs[p]).id != (
                    #[trigger] cs[q]).id by {
                        if q == pos as int {
                            assert(cs[p] == old(self).channels@[p]);
                        }
                    }
                    assert(self.wf_core());
                }
                pos
            },
        };
        let timed = is_timed_out(&self.channels[i], &o, &self.cfg);
        if timed {
            return Ok(());
        }
        let ghost mid_pre = *self;
        proof {
            lemma_channels_size_element(self.channels@, i as int);
        }
        let res = self.channels[i].add_frame(frame);
        proof {
            lemma_channels_size_update(mid_pre.channels@, i as int, self.channels@[i as int]);
        }
        if res.is_err() {
            proof {
                assert(self.channels@ =~= mid_pre.channels@);
            }
            return Ok(());
        }
        proof {
            let csm = mid_pre.channels@;
            let csn = self.channels@;
            assert forall|p: int|
                0 <= p < csn.len() implies (#[trigger] csn[p]).id == csm[p].id && csn[p].wf() by {
                if p != i as int {
                    assert(csn[p] == csm[p]);
                }
            }
            assert forall|p: int, q: int|
                0 <= p < q < csn.len() implies (#[trigger] csn[p]).id != (#[trigger] csn[q]).id by {
                assert(csm[p].id != csm[q].id);
            }
            assert forall|p: int|
                0 <= p < csn.len() implies index_view(self.index).contains_key(
                (#[trigger] csn[p]).id,
            ) && index_view(self.index)[csn[p].id] == p by {
                assert(csn[p].id == csm[p].id);
            }
            assert forall|id: ChannelId|
                #[trigger] index_view(self.index).contains_key(id) implies exists|p: int|
                0 <= p < csn.len() && (#[trigger] csn[p].id) == id by {
                let q = choose|q: int| 0 <= q < csm.len() && csm[q].id == id;
                assert(csn[q].id == id);
            }
            assert(self.wf_core());
        }
        let ghost mid = *self;
        let r = self.prune();
        proof {
            let nc = mid.channels@[i as int];
            let max = old(self).cfg.max_channel_bank_size as int;
            if !old(self).spec_has_channel(frame.id) {
                assert(mid.channels@ =~= old(self).channels@.push(nc));
                assert(opened_with(nc, frame, o.number));
                assert(pruned_rel(old(self).channels@.push(nc), self.channels@, max));
            } else {
                let ch = old(self).channels@[i as int];
                if ch.has_frame(frame.number as int) {
                    assert(mid.channels@ =~= old(self).channels@);
                    assert(mid.total_size() == old(self).total_size());
                } else {
                    assert(mid.channels@ =~= old(self).channels@.update(i as int, nc));
                    assert(extended_with(nc, ch, frame));
                    assert(pruned_rel(
                        old(self).channels@.update(i as int, nc),
                        self.channels@,
                        max,
                    ));
                }
            }
        }
        r
    }

    /// Try to hand out the channel at FIFO position `i`: succeeds only when
    /// that channel is ready and not stale, in which case it is removed from
    /// the bank and its reconstructed bytes are returned.
    fn try_read_channel_at_index(&mut self, i: usize) -> (r: Result<Vec<u8>, StageError>)
        requires
            old(self).wf_core(),
            i < old(self).channels@.len(),
            old(self).origin is Some,
        ensures
            final(self).wf_core(),
            final(self).cfg == old(self).cfg,
            final(self).origin == old(self).origin,
            spec_eligible(
                old(self).channels@[i as int],
                old(self).origin->0,
                old(self).cfg,
            ) ==> {
                &&& r matches Ok(d) && d@ == old(self).channels@[i as int].spec_data()
                &&& final(self).channels@ == old(self).channels@.remove(i as int)
                &&& final(self).total_size() == old(self).total_size() - old(
                    self,
                ).channels@[i as int].estimated_size
            },
            !spec_eligible(old(self).channels@[i as int], old(self).origin->0, old(self).cfg)
                ==> r == Err::<Vec<u8>, StageError>(StageError::Eof) && *final(self) == *old(self),
    {
        let o = match self.origin {
            Some(o) => o,
            None => {
                return Err(StageError::NoOrigin);
            },
        };
        let timed = is_timed_out(&self.channels[i], &o, &self.cfg);
        let ready = self.channels[i].is_ready();
        if timed || !ready {
            return Err(StageError::Eof);
        }
        let data = self.channels[i].frame_data();
        let _ = self.remove_channel_at(i);
        Ok(data)
    }

    /// Serve the next ready channel out of the buffer, if any.
    ///
    /// An empty bank fails with `Eof`. A stale channel at the front of the
    /// queue is evicted and the call reports progress without data. Before
    /// the upgrade only the front channel may be served; after it, the
    /// earliest ready channel anywhere in the queue is served. Reading never
    /// prunes: the byte budget is enforced by ingestion alone.
    pub fn read(&mut self) -> (r: Result<Option<Vec<u8>>, StageError>)
        requires
            old(self).wf(),
        ensures
            final(self).wf(),
            final(self).cfg == old(self).cfg,
            final(self).origin == old(self).origin,
            read_rel(*old(self), *final(self), r),
    {
        if self.channels.len() == 0 {
            return Err(StageError::Eof);
        }
        let o = match self.origin {
            Some(o) => o,
            None => {
                return Err(StageError::NoOrigin);
            },
        };
        if is_timed_out(&self.channels[0], &o, &self.cfg) {
            proof {
                lemma_channels_size_remove(self.channels@, 0);
                lemma_channels_size_nonneg(self.channels@.remove(0));
                assert(self.channels@.remove(0) =~= self.channels@.skip(1));
            }
            let _ = self.remove_channel_at(0);
            return Ok(None);
        }
        if !self.cfg.is_canyon_active(o.timestamp) {
            proof {
                assert(old(self).channels@.remove(0) =~= old(self).channels@.skip(1));
            }
            match self.try_read_channel_at_index(0) {
                Ok(d) => Ok(Some(d)),
                Err(e) => Err(e),
            }
        } else {
            let ghost pre = *self;
            let mut p: usize = 0;
            while p < self.channels.len()
                invariant
                    *self == pre,
                    pre == *old(self),
                    pre.wf(),
                    pre.origin == Some(o),
                    pre.channels@.len() > 0,
                    !spec_timed_out(pre.channels@[0], o, pre.cfg),
                    pre.cfg.spec_is_canyon_active(o.timestamp),
                    p <= pre.channels@.len(),
                    forall|q: int|
                        0 <= q < p ==> !spec_eligible(#[trigger] pre.channels@[q], o, pre.cfg),
                decreases pre.channels@.len() - p,
            {
                match self.try_read_channel_at_index(p) {
                    Ok(d) => {
                        proof {
                            let cs = pre.channels@;
                            let pi = p as int;
                            assert(first_eligible_at(cs, o, pre.cfg, pi));
                            let rr = Ok::<Option<Vec<u8>>, StageError>(Some(d));
                            let target = cs[pi].spec_data();
                            assert(rr matches Ok(dd) && dd matches Some(b) && b@ == target);
                            assert(read_rel(pre, *self, rr));
                        }
                        return Ok(Some(d));
                    },
                    Err(_) => {},
                }
                p += 1;
            }
            proof {
                assert forall|q: int| !first_eligible_at(
                    pre.channels@,
                    o,
                    pre.cfg,
                    q,
                ) by {
                    if 0 <= q < pre.channels@.len() {
                        assert(!spec_eligible(pre.channels@[q], o, pre.cfg));
                    }
                }
            }
            Err(StageError::Eof)
        }
    }

    /// One step of the pull loop: serve buffered data when possible, or ask
    /// the driver to pull exactly one frame from upstream and resume.
    pub fn next_data(&mut self) -> (r: NextData)
        requires
            old(self).wf(),
        ensures
            final(self).wf(),
            final(self).cfg == old(self).cfg,
            final(self).origin == old(self).origin,
            exists|rr: Result<Option<Vec<u8>>, StageError>|
                {
                    &&& #[trigger] read_rel(*old(self), *final(self), rr)
                    &&& r == (if rr == Err::<Option<Vec<u8>>, StageError>(StageError::Eof) {
                        NextData::NeedFrame
                    } else {
                        NextData::Done(rr)
                    })
                },
    {
        let r = self.read();
        match r {
            Err(StageError::Eof) => NextData::NeedFrame,
            other => NextData::Done(other),
        }
    }

    /// Resume a pull-loop step with what the upstream pull produced. An
    /// upstream error propagates unchanged; a frame is ingested, after which
    /// the step always reports the transient not-enough-data signal so that
    /// each tick does at most one ingest.
    pub fn next_data_resume(&mut self, pulled: Result<Frame, StageError>) -> (r: Result<
        Option<Vec<u8>>,
        StageError,
    >)
        requires
            old(self).wf(),
            pulled matches Ok(f) ==> old(self).total_size() + FRAME_OVERHEAD + f.data@.len()
                <= usize::MAX,
        ensures
            final(self).wf(),
            final(self).cfg == old(self).cfg,
            final(self).origin == old(self).origin,
            pulled matches Err(e) ==> r == Err::<Option<Vec<u8>>, StageError>(e) && *final(self)
                == *old(self),
            pulled matches Ok(f) ==> {
                exists|rr: Result<(), StageError>|
                    {
                        &&& #[trigger] ingest_rel(*old(self), *final(self), f, rr)
                        &&& r == (match rr {
                            Ok(_) => Err::<Option<Vec<u8>>, StageError>(StageError::NotEnoughData),
                            Err(e) => Err::<Option<Vec<u8>>, StageError>(e),
                        })
                    }
            },
    {
        let frame = match pulled {
            Ok(frame) => frame,
            Err(e) => {
                return Err(e);
            },
        };
        match self.ingest_frame(frame) {
            Ok(_) => Err(StageError::NotEnoughData),
            Err(e) => Err(e),
        }
    }

    /// Drop every buffered channel and report `Eof`, the pipeline convention
    /// for "re-derive from scratch".
    pub fn reset(&mut self) -> (r: Result<(), StageError>)
        ensures
            final(self).wf(),
            final(self).cfg == old(self).cfg,
            final(self).origin == old(self).origin,
            final(self).channels@.len() == 0,
            final(self).total_size() == 0,
            r == Err::<(), StageError>(StageError::Eof),
    {
        self.channels.clear();
        index_clear(&mut self.index);
        Err(StageError::Eof)
    }
}

/// Executable staleness check against the current origin. The saturating
/// comparison mirrors the mathematical one: a window end past the largest
/// block height can never lie below the origin.
fn is_timed_out(ch: &Channel, origin: &BlockInfo, cfg: &RollupConfig) -> (r: bool)
    ensures
        r == spec_timed_out(*ch, *origin, *cfg),
{
    match ch.open_block_number.checked_add(cfg.channel_timeout) {
        Some(s) => s < origin.number,
        None => false,
    }
}

} // verus!
