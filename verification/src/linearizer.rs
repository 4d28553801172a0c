//! The bounded K-way ordered merge between the encoder lanes and the
//! writer. Each producer lane has a bounded buffer of encoded slots; the
//! consumer takes the globally smallest sequence number when order is
//! maintained, waiting on any open lane that is momentarily empty so that a
//! slow lane cannot be skipped.

use vstd::prelude::*;

verus! {

/// A sequence of sequence numbers that only grows.
pub open spec fn strictly_ascending(s: Seq<u64>) -> bool {
    forall|i: int, j: int| 0 <= i < j < s.len() ==> s[i] < s[j]
}

/// Mathematical image of a [`Slot`].
pub ghost struct SlotV {
    pub seq: u64,
    pub bytes: Seq<u8>,
}

/// One encoded buffer waiting in a lane: its global sequence number and its
/// bytes.
pub struct Slot {
    pub seq: u64,
    pub bytes: Vec<u8>,
}

impl View for Slot {
    type V = SlotV;

    open spec fn view(&self) -> SlotV {
        SlotV { seq: self.seq, bytes: self.bytes@ }
    }
}

/// Mathematical image of a [`Lane`].
pub ghost struct LaneV {
    pub slots: Seq<SlotV>,
    pub closed: bool,
    pub started: bool,
    pub hi: u64,
}

/// The per-producer buffer.
pub struct Lane {
    /// Waiting slots, oldest first.
    pub slots: Vec<Slot>,
    /// The producer has dropped its handle; no more inserts arrive.
    pub closed: bool,
    /// At least one slot has ever been inserted; `hi` is meaningful.
    pub started: bool,
    /// The largest sequence number this lane has carried.
    pub hi: u64,
}

impl View for Lane {
    type V = LaneV;

    open spec fn view(&self) -> LaneV {
        LaneV { slots: self.slots@.map(|i: int, s: Slot| s@), closed: self.closed, started: self.started, hi: self.hi }
    }
}

/// Image of a list of lanes.
pub open spec fn lanes_view(lanes: Seq<Lane>) -> Seq<LaneV> {
    lanes.map(|i: int, l: Lane| l@)
}

/// A lane's slots are strictly ascending, all bounded by its high-water
/// mark, and absent until the lane has started.
pub open spec fn lane_sorted(lane: LaneV) -> bool {
    &&& forall|i: int, j: int|
        0 <= i < j < lane.slots.len() ==> lane.slots[i].seq < lane.slots[j].seq
    &&& lane.started ==> forall|i: int| 0 <= i < lane.slots.len() ==> lane.slots[i].seq <= lane.hi
    &&& !lane.started ==> lane.slots.len() == 0
}

/// How many slots a list of lanes is buffering in all.
pub open spec fn buffered_in(lanes: Seq<LaneV>) -> nat
    decreases lanes.len(),
{
    if lanes.len() == 0 {
        0
    } else {
        lanes[0].slots.len() + buffered_in(lanes.drop_first())
    }
}

/// What the encoder lanes hand to the writer, ordered on demand.
pub struct Linearizer {
    /// One bounded buffer per producer.
    pub lanes: Vec<Lane>,
    /// Bound on every lane's buffer; the backpressure knob.
    pub capacity: usize,
    /// Emit in ascending sequence order; otherwise arrival order.
    pub maintain_order: bool,
    /// The consumer still exists; inserts are accepted.
    pub consumer_open: bool,
    /// The sequence numbers handed out so far, in the order they left.
    pub emitted: Ghost<Seq<u64>>,
}

impl Linearizer {
    /// Image of the lanes.
    pub open spec fn lv(self) -> Seq<LaneV> {
        lanes_view(self.lanes@)
    }

    /// Number of producer lanes.
    pub open spec fn num_lanes(self) -> nat {
        self.lanes@.len()
    }

    /// Slots buffered over all lanes: encoded but not yet written.
    pub open spec fn total_buffered(self) -> nat {
        buffered_in(self.lv())
    }

    /// Some in-flight slot carries this sequence number.
    pub open spec fn has_seq(self, s: u64) -> bool {
        exists|l: int, k: int|
            0 <= l < self.lv().len() && 0 <= k < self.lv()[l].slots.len() && self.lv()[l].slots[k].seq
                == s
    }

    /// Every producer is done and every buffer drained: the consumer is owed
    /// nothing more.
    pub open spec fn all_done(self) -> bool {
        forall|l: int|
            0 <= l < self.lv().len() ==> (#[trigger] self.lv()[l]).closed && self.lv()[l].slots.len()
                == 0
    }

    /// The consumer must wait: with order maintained, some open lane is
    /// empty and could still deliver the smallest sequence number; without,
    /// there is simply nothing buffered.
    pub open spec fn blocked(self) -> bool {
        if self.maintain_order {
            exists|l: int|
                0 <= l < self.lv().len() && !(#[trigger] self.lv()[l]).closed
                    && self.lv()[l].slots.len() == 0
        } else {
            forall|l: int| 0 <= l < self.lv().len() ==> (#[trigger] self.lv()[l]).slots.len() == 0
        }
    }

    /// The structure's invariant.
    pub open spec fn wf(self) -> bool {
        &&& self.capacity >= 1
        &&& forall|l: int|
            0 <= l < self.lv().len() ==> (#[trigger] self.lv()[l]).slots.len() <= self.capacity
        &&& forall|l: int| 0 <= l < self.lv().len() ==> lane_sorted(#[trigger] self.lv()[l])
        &&& forall|l1: int, k1: int, l2: int, k2: int|
            0 <= l1 < self.lv().len() && 0 <= k1 < self.lv()[l1].slots.len() && 0 <= l2
                < self.lv().len() && 0 <= k2 < self.lv()[l2].slots.len() && (l1 != l2 || k1 != k2)
                ==> (#[trigger] self.lv()[l1].slots[k1]).seq != (#[trigger] self.lv()[l2].slots[k2]).seq
        &&& self.maintain_order ==> strictly_ascending(self.emitted@)
        &&& self.maintain_order && self.emitted@.len() > 0 ==> {
            &&& forall|l: int, k: int|
                0 <= l < self.lv().len() && 0 <= k < self.lv()[l].slots.len() ==> (
                #[trigger] self.lv()[l].slots[k]).seq > self.emitted@.last()
            &&& forall|l: int|
                0 <= l < self.lv().len() && !(#[trigger] self.lv()[l]).closed ==> self.lv()[l].started
                    && self.lv()[l].hi >= self.emitted@.last()
        }
    }

    /// A fresh merge: `num_lanes` open empty lanes, each buffering at most
    /// `buffer_size` slots, emitting in sequence order iff `maintain_order`.
    pub fn new_with_maintain_order(num_lanes: usize, buffer_size: usize, maintain_order: bool) -> (r:
        Linearizer)
        requires
            buffer_size >= 1,
        ensures
            r.wf(),
            r.num_lanes() == num_lanes,
            r.capacity == buffer_size,
            r.maintain_order == maintain_order,
            r.consumer_open,
            r.emitted@ =~= Seq::<u64>::empty(),
            forall|l: int|
                0 <= l < num_lanes ==> !(#[trigger] r.lv()[l]).closed && r.lv()[l].slots.len() == 0
                    && !r.lv()[l].started,
            r.total_buffered() == 0,
    {
        let mut lanes: Vec<Lane> = Vec::new();
        let mut i: usize = 0;
        while i < num_lanes
            invariant
                i <= num_lanes,
                lanes@.len() == i,
                forall|l: int|
                    0 <= l < i ==> !(#[trigger] lanes_view(lanes@)[l]).closed
                        && lanes_view(lanes@)[l].slots.len() == 0 && !lanes_view(lanes@)[l].started,
            decreases num_lanes - i,
        {
            let ghost lanes0 = lanes@;
            lanes.push(Lane { slots: Vec::new(), closed: false, started: false, hi: 0 });
            i = i + 1;
            proof {
                assert forall|l: int|
                    0 <= l < i implies !(#[trigger] lanes_view(lanes@)[l]).closed && lanes_view(
                    lanes@,
                )[l].slots.len() == 0 && !lanes_view(lanes@)[l].started by {
                    assert(lanes_view(lanes@)[l] == lanes@[l]@);
                    if l < i - 1 {
                        assert(lanes@[l] == lanes0[l]);
                        assert(lanes_view(lanes0)[l] == lanes0[l]@);
                    } else {
                        assert(lanes@[l]@.slots =~= Seq::<SlotV>::empty());
                    }
                }
            }
        }
        let r = Linearizer {
            lanes,
            capacity: buffer_size,
            maintain_order,
            consumer_open: true,
            emitted: Ghost(Seq::empty()),
        };
        proof {
            lemma_buffered_all_empty(r.lv());
        }
        r
    }
}

/// What an insert attempt came to.
pub enum InsertResult {
    /// The slot is buffered.
    Inserted,
    /// The lane is at capacity; the bytes come back so the producer can
    /// wait and retry.
    Full(Vec<u8>),
    /// The consumer is gone; the slot was discarded and the producer should
    /// finish without error.
    Closed,
}

impl Linearizer {
    /// A producer hands in the next encoded slot of its lane. Blocks never:
    /// a full lane answers `Full` and the caller retries once the consumer
    /// has drained; a dropped consumer answers `Closed`.
    pub fn insert(&mut self, lane: usize, seq: u64, bytes: Vec<u8>) -> (r: InsertResult)
        requires
            old(self).wf(),
            lane < old(self).num_lanes(),
            !old(self).lv()[lane as int].closed,
            old(self).lv()[lane as int].started ==> seq > old(self).lv()[lane as int].hi,
            !old(self).has_seq(seq),
        ensures
            final(self).wf(),
            final(self).capacity == old(self).capacity,
            final(self).maintain_order == old(self).maintain_order,
            final(self).consumer_open == old(self).consumer_open,
            final(self).num_lanes() == old(self).num_lanes(),
            final(self).emitted == old(self).emitted,
            !old(self).consumer_open ==> r is Closed && final(self).lv() =~= old(self).lv(),
            old(self).consumer_open && old(self).lv()[lane as int].slots.len() >= old(
                self,
            ).capacity ==> (r matches InsertResult::Full(b) && b@ == bytes@) && final(self).lv() =~= old(
                self,
            ).lv(),
            old(self).consumer_open && old(self).lv()[lane as int].slots.len() < old(self).capacity
                ==> r is Inserted && final(self).lv() =~= old(self).lv().update(
                lane as int,
                LaneV {
                    slots: old(self).lv()[lane as int].slots.push(SlotV { seq, bytes: bytes@ }),
                    closed: false,
                    started: true,
                    hi: seq,
                },
            ) && final(self).total_buffered() == old(self).total_buffered() + 1,
    {
        if !self.consumer_open {
            return InsertResult::Closed;
        }
        if self.lanes[lane].slots.len() >= self.capacity {
            return InsertResult::Full(bytes);
        }
        let ghost pre = *self;
        let ghost bv = bytes@;
        let mut l = self.lanes.remove(lane);
        let ghost lane0 = l@;
        l.slots.push(Slot { seq, bytes });
        l.started = true;
        l.hi = seq;
        self.lanes.insert(lane, l);
        proof {
            assert(lane0 == pre.lv()[lane as int]);
            assert(self.lanes@ =~= pre.lanes@.update(lane as int, self.lanes@[lane as int]));
            assert(self.lv() =~= pre.lv().update(lane as int, self.lv()[lane as int]));
            assert(self.lv()[lane as int].slots =~= lane0.slots.push(SlotV { seq, bytes: bv }));
            assert(self.lv() =~= pre.lv().update(
                lane as int,
                LaneV {
                    slots: pre.lv()[lane as int].slots.push(SlotV { seq, bytes: bv }),
                    closed: false,
                    started: true,
                    hi: seq,
                },
            ));
            lemma_buffered_update(pre.lv(), lane as int, self.lv()[lane as int]);
        }
        InsertResult::Inserted
    }

    /// How many slots this lane is buffering.
    pub fn lane_len(&self, lane: usize) -> (n: usize)
        requires
            lane < self.num_lanes(),
        ensures
            n == self.lv()[lane as int].slots.len(),
    {
        proof {
            assert(self.lv()[lane as int] == self.lanes@[lane as int]@);
        }
        self.lanes[lane].slots.len()
    }

    /// Whether this lane's producer has dropped its handle.
    pub fn lane_closed(&self, lane: usize) -> (c: bool)
        requires
            lane < self.num_lanes(),
        ensures
            c == self.lv()[lane as int].closed,
    {
        proof {
            assert(self.lv()[lane as int] == self.lanes@[lane as int]@);
        }
        self.lanes[lane].closed
    }

    /// Whether some buffered slot carries this sequence number: the
    /// executable form of what `insert` requires of a fresh number, so an
    /// unverified caller can test its input's uniqueness before inserting.
    pub fn contains_seq(&self, s: u64) -> (r: bool)
        ensures
            r == self.has_seq(s),
    {
        let mut l: usize = 0;
        while l < self.lanes.len()
            invariant
                l <= self.lv().len(),
                forall|l2: int, k: int|
                    0 <= l2 < l && 0 <= k < self.lv()[l2].slots.len() ==> (
                    #[trigger] self.lv()[l2].slots[k]).seq != s,
            decreases self.lv().len() - l,
        {
            proof {
                assert(self.lv()[l as int] == self.lanes@[l as int]@);
            }
            let mut k: usize = 0;
            while k < self.lanes[l].slots.len()
                invariant
                    l < self.lv().len(),
                    k <= self.lv()[l as int].slots.len(),
                    self.lv()[l as int] == self.lanes@[l as int]@,
                    forall|k2: int|
                        0 <= k2 < k ==> (#[trigger] self.lv()[l as int].slots[k2]).seq != s,
                decreases self.lv()[l as int].slots.len() - k,
            {
                proof {
                    assert(self.lv()[l as int].slots[k as int] == self.lanes@[l as int].slots@[k as int]@);
                }
                if self.lanes[l].slots[k].seq == s {
                    proof {
                        assert(0 <= (l as int) < self.lv().len() && 0 <= (k as int)
                            < self.lv()[l as int].slots.len() && self.lv()[l as int].slots[k as int].seq
                            == s);
                    }
                    return true;
                }
                k = k + 1;
            }
            l = l + 1;
        }
        proof {
            if self.has_seq(s) {
                let (l2, k2): (int, int) = choose|l2: int, k2: int|
                    0 <= l2 < self.lv().len() && 0 <= k2 < self.lv()[l2].slots.len()
                        && self.lv()[l2].slots[k2].seq == s;
                assert(false);
            }
        }
        false
    }

    /// A producer drops its handle: its lane stops accepting and, once
    /// drained, stops counting.
    pub fn close_lane(&mut self, lane: usize)
        requires
            old(self).wf(),
            lane < old(self).num_lanes(),
        ensures
            final(self).wf(),
            final(self).capacity == old(self).capacity,
            final(self).maintain_order == old(self).maintain_order,
            final(self).consumer_open == old(self).consumer_open,
            final(self).num_lanes() == old(self).num_lanes(),
            final(self).emitted == old(self).emitted,
            final(self).lv() =~= old(self).lv().update(
                lane as int,
                LaneV {
                    slots: old(self).lv()[lane as int].slots,
                    closed: true,
                    started: old(self).lv()[lane as int].started,
                    hi: old(self).lv()[lane as int].hi,
                },
            ),
            final(self).total_buffered() == old(self).total_buffered(),
    {
        let ghost pre = *self;
        let mut l = self.lanes.remove(lane);
        l.closed = true;
        self.lanes.insert(lane, l);
        proof {
            assert(self.lanes@ =~= pre.lanes@.update(lane as int, self.lanes@[lane as int]));
            assert(self.lv() =~= pre.lv().update(lane as int, self.lv()[lane as int]));
            lemma_buffered_update(pre.lv(), lane as int, self.lv()[lane as int]);
        }
    }

    /// The consumer drops its handle: later inserts answer `Closed`.
    pub fn close_consumer(&mut self)
        requires
            old(self).wf(),
        ensures
            final(self).wf(),
            !final(self).consumer_open,
            final(self).lv() =~= old(self).lv(),
            final(self).capacity == old(self).capacity,
            final(self).maintain_order == old(self).maintain_order,
            final(self).num_lanes() == old(self).num_lanes(),
            final(self).emitted == old(self).emitted,
    {
        let ghost pre = *self;
        self.consumer_open = false;
        proof {
            assert(self.lv() == pre.lv());
            assert(self.emitted@ == pre.emitted@);
        }
    }
}

/// What the consumer got.
pub enum GetResult {
    /// The next slot, in policy order: its sequence number and its bytes.
    Item(u64, Vec<u8>),
    /// Nothing may leave yet; a producer must run first.
    Pending,
    /// Every producer is dropped and every lane drained.
    Finished,
}

impl Linearizer {
    /// The consumer takes the next slot. With order maintained this is the
    /// globally smallest sequence number over all lane heads, and only once
    /// no open lane is empty — a momentarily idle lane is waited for, never
    /// skipped. Without, it is the head of the first non-empty lane.
    pub fn get(&mut self) -> (r: GetResult)
        requires
            old(self).wf(),
        ensures
            final(self).wf(),
            final(self).capacity == old(self).capacity,
            final(self).maintain_order == old(self).maintain_order,
            final(self).consumer_open == old(self).consumer_open,
            final(self).num_lanes() == old(self).num_lanes(),
            (r is Finished) <==> old(self).all_done(),
            r is Finished ==> final(self).lv() =~= old(self).lv() && final(self).emitted == old(
                self,
            ).emitted,
            (r is Pending) <==> (!old(self).all_done() && old(self).blocked()),
            r is Pending ==> final(self).lv() =~= old(self).lv() && final(self).emitted == old(
                self,
            ).emitted,
            r matches GetResult::Item(s, b) ==> {
                &&& exists|l: int|
                    0 <= l < old(self).lv().len() && old(self).lv()[l].slots.len() > 0 && old(
                        self,
                    ).lv()[l].slots[0] == (SlotV { seq: s, bytes: b@ }) && final(self).lv() =~= old(
                        self,
                    ).lv().update(
                        l,
                        LaneV {
                            slots: old(self).lv()[l].slots.drop_first(),
                            closed: old(self).lv()[l].closed,
                            started: old(self).lv()[l].started,
                            hi: old(self).lv()[l].hi,
                        },
                    )
                &&& final(self).emitted@ =~= old(self).emitted@.push(s)
                &&& old(self).maintain_order ==> forall|l2: int|
                    0 <= l2 < old(self).lv().len() && (#[trigger] old(self).lv()[l2]).slots.len()
                        > 0 ==> old(self).lv()[l2].slots[0].seq >= s
                &&& old(self).maintain_order && old(self).emitted@.len() > 0 ==> s > old(
                    self,
                ).emitted@.last()
                &&& final(self).total_buffered() + 1 == old(self).total_buffered()
            },
    {
        let ghost pre = *self;
        let mut all_done_so_far: bool = true;
        let mut open_empty: bool = false;
        let mut have_best: bool = false;
        let mut best: usize = 0;
        let mut best_seq: u64 = 0;
        let mut i: usize = 0;
        while i < self.lanes.len()
            invariant
                *self == pre,
                pre.wf(),
                i <= pre.lv().len(),
                all_done_so_far <==> (forall|l: int|
                    0 <= l < i ==> (#[trigger] pre.lv()[l]).closed && pre.lv()[l].slots.len() == 0),
                open_empty <==> (exists|l: int|
                    0 <= l < i && !(#[trigger] pre.lv()[l]).closed && pre.lv()[l].slots.len() == 0),
                have_best <==> (exists|l: int|
                    0 <= l < i && (#[trigger] pre.lv()[l]).slots.len() > 0),
                have_best ==> best < i && pre.lv()[best as int].slots.len() > 0 && best_seq == pre.lv()[best as int].slots[0].seq,
                pre.maintain_order && have_best ==> forall|l: int|
                    0 <= l < i && (#[trigger] pre.lv()[l]).slots.len() > 0 ==> pre.lv()[l].slots[0].seq >= best_seq,
            decreases pre.lv().len() - i,
        {
            let ln = &self.lanes[i];
            proof {
                assert(pre.lv()[i as int] == pre.lanes@[i as int]@);
            }
            if ln.slots.len() == 0 {
                if !ln.closed {
                    open_empty = true;
                    all_done_so_far = false;
                }
            } else {
                all_done_so_far = false;
                let h = ln.slots[0].seq;
                proof {
                    assert(pre.lv()[i as int].slots[0] == ln.slots@[0]@);
                }
                if !have_best {
                    have_best = true;
                    best = i;
                    best_seq = h;
                } else if self.maintain_order && h < best_seq {
                    best = i;
                    best_seq = h;
                }
            }
            i = i + 1;
        }
        if all_done_so_far {
            return GetResult::Finished;
        }
        if self.maintain_order {
            if open_empty {
                return GetResult::Pending;
            }
        } else {
            if !have_best {
                return GetResult::Pending;
            }
        }
        proof {
            if !have_best {
                let w = choose|l: int|
                    0 <= l < pre.lv().len() && !((#[trigger] pre.lv()[l]).closed
                        && pre.lv()[l].slots.len() == 0);
                assert(pre.lv()[w].slots.len() == 0);
                assert(!pre.lv()[w].closed);
                assert(false);
            }
        }
        let mut l = self.lanes.remove(best);
        let slot = l.slots.remove(0);
        self.lanes.insert(best, l);
        proof {
            self.emitted@ = pre.emitted@.push(slot.seq);
        }
        proof {
            let b = best as int;
            let s = slot.seq;
            let nl = LaneV {
                slots: pre.lv()[b].slots.drop_first(),
                closed: pre.lv()[b].closed,
                started: pre.lv()[b].started,
                hi: pre.lv()[b].hi,
            };
            assert(self.lanes@ =~= pre.lanes@.update(b, self.lanes@[b]));
            assert(self.lv() =~= pre.lv().update(b, self.lv()[b]));
            assert(self.lv()[b].slots =~= pre.lv()[b].slots.drop_first());
            assert(self.lv() =~= pre.lv().update(b, nl));
            assert(pre.lv()[b].slots[0] == SlotV { seq: s, bytes: slot.bytes@ });
            lemma_buffered_update(pre.lv(), b, nl);
            // Every slot still buffered keeps its identity at a shifted or
            // unchanged index; distinctness and order carry over.
            assert(forall|k: int|
                0 <= k < nl.slots.len() ==> nl.slots[k] == pre.lv()[b].slots[k + 1]);
            if pre.maintain_order {
                if pre.emitted@.len() > 0 {
                    assert(s > pre.emitted@.last());
                }
                assert forall|idx: int| 0 <= idx < pre.emitted@.len() implies pre.emitted@[idx]
                    < s by {
                    if idx < pre.emitted@.len() - 1 {
                        assert(pre.emitted@[idx] < pre.emitted@.last());
                    }
                }
                assert(strictly_ascending(self.emitted@));
                // Everything that remains is strictly above the slot just
                // emitted: its own lane ascends past it, and every other
                // head is at least it and distinct from it.
                assert forall|l2: int, k2: int|
                    0 <= l2 < self.lv().len() && 0 <= k2 < self.lv()[l2].slots.len() implies (
                #[trigger] self.lv()[l2].slots[k2]).seq > s by {
                    if l2 == b {
                        assert(self.lv()[l2].slots[k2] == pre.lv()[b].slots[k2 + 1]);
                        assert(pre.lv()[b].slots[k2 + 1].seq > pre.lv()[b].slots[0].seq);
                    } else {
                        assert(self.lv()[l2] == pre.lv()[l2]);
                        assert(pre.lv()[l2].slots[k2].seq >= pre.lv()[l2].slots[0].seq);
                        assert(pre.lv()[l2].slots[0].seq >= s);
                        assert(pre.lv()[l2].slots[k2].seq != pre.lv()[b].slots[0].seq);
                    }
                }
                assert forall|l2: int|
                    0 <= l2 < self.lv().len() && !(#[trigger] self.lv()[l2]).closed implies self.lv()[l2].started
                    && self.lv()[l2].hi >= s by {
                    if l2 == b {
                        assert(pre.lv()[b].slots[0].seq <= pre.lv()[b].hi);
                    } else {
                        assert(self.lv()[l2] == pre.lv()[l2]);
                        assert(pre.lv()[l2].slots.len() > 0);
                        assert(pre.lv()[l2].slots[0].seq >= s);
                        assert(pre.lv()[l2].hi >= pre.lv()[l2].slots[0].seq);
                    }
                }
            }
            assert forall|l1: int, k1: int, l2: int, k2: int|
                0 <= l1 < self.lv().len() && 0 <= k1 < self.lv()[l1].slots.len() && 0 <= l2
                    < self.lv().len() && 0 <= k2 < self.lv()[l2].slots.len() && (l1 != l2 || k1
                    != k2) implies (#[trigger] self.lv()[l1].slots[k1]).seq != (
            #[trigger] self.lv()[l2].slots[k2]).seq by {
                let p1 = if l1 == b { k1 + 1 } else { k1 };
                let p2 = if l2 == b { k2 + 1 } else { k2 };
                assert(self.lv()[l1].slots[k1] == pre.lv()[l1].slots[p1]);
                assert(self.lv()[l2].slots[k2] == pre.lv()[l2].slots[p2]);
            }
        }
        GetResult::Item(slot.seq, slot.bytes)
    }
}

/// A list of empty lanes buffers nothing.
proof fn lemma_buffered_all_empty(lanes: Seq<LaneV>)
    requires
        forall|l: int| 0 <= l < lanes.len() ==> (#[trigger] lanes[l]).slots.len() == 0,
    ensures
        buffered_in(lanes) == 0,
    decreases lanes.len(),
{
    if lanes.len() > 0 {
        lemma_buffered_all_empty(lanes.drop_first());
    }
}

/// Updating one lane changes the buffered total by the difference at that
/// lane.
proof fn lemma_buffered_update(lanes: Seq<LaneV>, l: int, lane: LaneV)
    requires
        0 <= l < lanes.len(),
    ensures
        buffered_in(lanes.update(l, lane)) + lanes[l].slots.len() == buffered_in(lanes)
            + lane.slots.len(),
    decreases lanes.len(),
{
    if l == 0 {
        assert(lanes.update(0, lane).drop_first() =~= lanes.drop_first());
    } else {
        assert(lanes.update(l, lane).drop_first() =~= lanes.drop_first().update(l - 1, lane));
        assert(lanes.update(l, lane)[0] == lanes[0]);
        lemma_buffered_update(lanes.drop_first(), l - 1, lane);
    }
}

/// Lanes each bounded by `cap` buffer at most `len * cap` slots in all.
pub proof fn lemma_buffered_bound(lanes: Seq<LaneV>, cap: nat)
    requires
        forall|l: int| 0 <= l < lanes.len() ==> (#[trigger] lanes[l]).slots.len() <= cap,
    ensures
        buffered_in(lanes) <= lanes.len() * cap,
    decreases lanes.len(),
{
    if lanes.len() == 0 {
    } else {
        lemma_buffered_bound(lanes.drop_first(), cap);
        assert(lanes.len() * cap == lanes.drop_first().len() * cap + cap) by (nonlinear_arith)
            requires
                lanes.len() > 0,
                lanes.drop_first().len() == lanes.len() - 1,
        ;
    }
}

/// The backpressure bound: the number of encoded-but-unwritten buffers
/// never exceeds the lane count times the per-lane capacity.
pub proof fn lemma_backpressure_bound(lin: Linearizer)
    requires
        lin.wf(),
    ensures
        lin.total_buffered() <= lin.num_lanes() * lin.capacity,
{
    lemma_buffered_bound(lin.lv(), lin.capacity as nat);
}

/// With order maintained, the sequence numbers already handed out are
/// strictly ascending.
pub proof fn lemma_order_preserved(lin: Linearizer)
    requires
        lin.wf(),
        lin.maintain_order,
    ensures
        strictly_ascending(lin.emitted@),
{
}

} // verus!
