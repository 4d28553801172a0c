//! The sink itself: configuration, and the pipeline that encodes every
//! lane, merges the buffers through the linearizer, and assembles the
//! output stream — prelude first, then each encoded buffer verbatim.

use vstd::prelude::*;
use vstd::multiset::Multiset;
use crate::dialect::{CsvWriterOptions, Dialect, SinkOptions, SyncOnClose};
use crate::encode::{EncodeError, chunk_bytes, chunk_error_of, encode_prelude, prelude_bytes, push_all};
use crate::encoder::EncoderState;
use crate::frame::{Morsel, Schema, chunk_fits};
use crate::linearizer::{
    GetResult, InsertResult, LaneV, Linearizer, Slot, SlotV, strictly_ascending,
};
use crate::writer::{Backend, classify_path, is_cloud_path, should_fsync};

verus! {

/// Bound on every linearizer lane's buffer.
pub const DEFAULT_SINK_LINEARIZER_BUFFER_SIZE: usize = 4;

/// The slots an input lane will contribute: one per morsel, carrying the
/// morsel's sequence number and its chunk's encoding.
pub open spec fn lane_slots(lane: Seq<Morsel>, d: Dialect) -> Seq<SlotV> {
    lane.map(|i: int, m: Morsel| SlotV { seq: m.seq, bytes: chunk_bytes(m.chunk@, d) })
}

/// The sequence numbers of a list of slots.
pub open spec fn slot_seqs(slots: Seq<SlotV>) -> Seq<u64> {
    slots.map(|i: int, s: SlotV| s.seq)
}

/// Image of a list of slots.
pub open spec fn slots_view(s: Seq<Slot>) -> Seq<SlotV> {
    s.map(|i: int, sl: Slot| sl@)
}

/// The bytes of the slots, concatenated in order.
pub open spec fn concat_slots(slots: Seq<SlotV>) -> Seq<u8>
    decreases slots.len(),
{
    if slots.len() == 0 {
        Seq::empty()
    } else {
        slots[0].bytes + concat_slots(slots.drop_first())
    }
}

/// The sequence numbers of one input lane's morsels.
pub open spec fn morsel_seqs(lane: Seq<Morsel>) -> Seq<u64> {
    lane.map(|i: int, m: Morsel| m.seq)
}

/// Every lane delivers its morsels in ascending sequence order.
pub open spec fn lanes_ascending(lanesv: Seq<Vec<Morsel>>) -> bool {
    forall|l: int|
        0 <= l < lanesv.len() ==> strictly_ascending(morsel_seqs((#[trigger] lanesv[l])@))
}

/// No two morsels share a sequence number, across all lanes.
pub open spec fn lanes_distinct(lanesv: Seq<Vec<Morsel>>) -> bool {
    forall|l1: int, i1: int, l2: int, i2: int|
        0 <= l1 < lanesv.len() && 0 <= i1 < lanesv[l1]@.len() && 0 <= l2 < lanesv.len() && 0 <= i2
            < lanesv[l2]@.len() && (l1 != l2 || i1 != i2) ==> (#[trigger] lanesv[l1]@[i1]).seq != (
        #[trigger] lanesv[l2]@[i2]).seq
}

/// Every chunk of one lane conforms to the schema.
pub open spec fn lane_fits(lane: Seq<Morsel>, schema: Seq<crate::frame::FieldV>) -> bool {
    forall|i: int| 0 <= i < lane.len() ==> chunk_fits((#[trigger] lane[i]).chunk@, schema)
}

/// The error one lane reports: its first non-conforming chunk's own
/// error.
pub open spec fn lane_error_of(
    lane: Seq<Morsel>,
    schema: Seq<crate::frame::FieldV>,
    e: EncodeError,
) -> bool {
    exists|i: int|
        {
            &&& 0 <= i < lane.len()
            &&& !chunk_fits((#[trigger] lane[i]).chunk@, schema)
            &&& (forall|k: int| 0 <= k < i ==> chunk_fits((#[trigger] lane[k]).chunk@, schema))
            &&& chunk_error_of(lane[i].chunk@, schema, e)
        }
}

/// The error the sink reports: scanning the lanes in order, the first
/// lane holding a non-conforming chunk, and that lane's own first error.
pub open spec fn input_error_of(
    lanesv: Seq<Vec<Morsel>>,
    schema: Seq<crate::frame::FieldV>,
    e: EncodeError,
) -> bool {
    exists|l: int|
        {
            &&& 0 <= l < lanesv.len()
            &&& !lane_fits((#[trigger] lanesv[l])@, schema)
            &&& (forall|k: int| 0 <= k < l ==> lane_fits((#[trigger] lanesv[k])@, schema))
            &&& lane_error_of(lanesv[l]@, schema, e)
        }
}

/// Every chunk of every lane conforms to the schema.
pub open spec fn input_fits(lanesv: Seq<Vec<Morsel>>, schema: Seq<crate::frame::FieldV>) -> bool {
    forall|l: int| 0 <= l < lanesv.len() ==> lane_fits((#[trigger] lanesv[l])@, schema)
}

/// The multiset of the first `n` lanes' slots.
pub open spec fn total_slots(all0: Seq<Seq<SlotV>>, n: int) -> Multiset<SlotV>
    decreases n,
{
    if n <= 0 {
        Multiset::empty()
    } else {
        total_slots(all0, n - 1).add(all0[n - 1].to_multiset())
    }
}

/// The multiset of slots already emitted: for each of the first `n` lanes,
/// the prefix of length `starts[l]` has left the merge.
pub open spec fn emitted_msum(all0: Seq<Seq<SlotV>>, starts: Seq<int>, n: int) -> Multiset<SlotV>
    decreases n,
{
    if n <= 0 {
        Multiset::empty()
    } else {
        emitted_msum(all0, starts, n - 1).add(
            all0[n - 1].subrange(0, starts[n - 1]).to_multiset(),
        )
    }
}

/// How many slots are still waiting outside the linearizer.
pub open spec fn sum_rem(remv: Seq<Vec<Slot>>) -> nat
    decreases remv.len(),
{
    if remv.len() == 0 {
        0
    } else {
        remv[0]@.len() + sum_rem(remv.drop_first())
    }
}

/// Updating one lane changes the waiting total by the difference there.
proof fn lemma_sum_rem_update(remv: Seq<Vec<Slot>>, l: int, lane: Vec<Slot>)
    requires
        0 <= l < remv.len(),
    ensures
        sum_rem(remv.update(l, lane)) + remv[l]@.len() == sum_rem(remv) + lane@.len(),
    decreases remv.len(),
{
    if l == 0 {
        assert(remv.update(0, lane).drop_first() =~= remv.drop_first());
    } else {
        assert(remv.update(l, lane).drop_first() =~= remv.drop_first().update(l - 1, lane));
        assert(remv.update(l, lane)[0] == remv[0]);
        lemma_sum_rem_update(remv.drop_first(), l - 1, lane);
    }
}

/// The emitted multiset only reads the first `n` prefix lengths.
proof fn lemma_msum_agrees(all0: Seq<Seq<SlotV>>, s1: Seq<int>, s2: Seq<int>, n: int)
    requires
        forall|i: int| 0 <= i < n ==> s1[i] == s2[i],
    ensures
        emitted_msum(all0, s1, n) == emitted_msum(all0, s2, n),
    decreases n,
{
    if n > 0 {
        lemma_msum_agrees(all0, s1, s2, n - 1);
    }
}

/// With nothing emitted anywhere the emitted multiset is empty.
proof fn lemma_msum_zero(all0: Seq<Seq<SlotV>>, starts: Seq<int>, n: int)
    requires
        forall|i: int| 0 <= i < n ==> starts[i] == 0,
    ensures
        emitted_msum(all0, starts, n) =~= Multiset::empty(),
    decreases n,
{
    broadcast use vstd::seq_lib::group_to_multiset_ensures;

    if n > 0 {
        lemma_msum_zero(all0, starts, n - 1);
        assert(all0[n - 1].subrange(0, 0) =~= Seq::<SlotV>::empty());
        assert(Seq::<SlotV>::empty().to_multiset() =~= Multiset::<SlotV>::empty()) by {
            assert(Seq::<SlotV>::empty().to_multiset().len() == 0);
        }
    }
}

/// Emitting one more slot from lane `l` adds exactly that slot.
proof fn lemma_msum_bump(all0: Seq<Seq<SlotV>>, starts: Seq<int>, l: int, n: int)
    requires
        0 <= l < n,
        n <= starts.len(),
        0 <= starts[l] < all0[l].len(),
    ensures
        emitted_msum(all0, starts.update(l, starts[l] + 1), n) =~= emitted_msum(
            all0,
            starts,
            n,
        ).insert(all0[l][starts[l]]),
    decreases n,
{
    broadcast use vstd::seq_lib::group_to_multiset_ensures;

    let s2 = starts.update(l, starts[l] + 1);
    if l == n - 1 {
        lemma_msum_agrees(all0, s2, starts, n - 1);
        assert(all0[l].subrange(0, starts[l] + 1) =~= all0[l].subrange(0, starts[l]).push(
            all0[l][starts[l]],
        ));
        assert(all0[l].subrange(0, starts[l]).push(all0[l][starts[l]]).to_multiset() =~= all0[l].subrange(
            0,
            starts[l],
        ).to_multiset().insert(all0[l][starts[l]]));
    } else {
        lemma_msum_bump(all0, starts, l, n - 1);
        assert(s2[n - 1] == starts[n - 1]);
    }
}

/// Once every lane's prefix is the whole lane, the emitted multiset is the
/// input multiset.
proof fn lemma_msum_full(all0: Seq<Seq<SlotV>>, starts: Seq<int>, n: int)
    requires
        forall|i: int| 0 <= i < n ==> starts[i] == all0[i].len(),
    ensures
        emitted_msum(all0, starts, n) =~= total_slots(all0, n),
    decreases n,
{
    if n > 0 {
        lemma_msum_full(all0, starts, n - 1);
        assert(all0[n - 1].subrange(0, starts[n - 1]) =~= all0[n - 1]);
    }
}

/// Concatenation grows at the end by the bytes of the slot appended.
proof fn lemma_concat_slots_snoc(slots: Seq<SlotV>, s: SlotV)
    ensures
        concat_slots(slots.push(s)) =~= concat_slots(slots) + s.bytes,
    decreases slots.len(),
{
    if slots.len() == 0 {
        assert(slots.push(s) =~= seq![s]);
        assert(seq![s].drop_first() =~= Seq::<SlotV>::empty());
        assert(concat_slots(Seq::<SlotV>::empty()) =~= Seq::<u8>::empty());
        assert(concat_slots(seq![s]) =~= s.bytes);
    } else {
        assert(slots.push(s).drop_first() =~= slots.drop_first().push(s));
        lemma_concat_slots_snoc(slots.drop_first(), s);
        assert(slots.push(s)[0] == slots[0]);
        assert(concat_slots(slots.push(s)) =~= slots[0].bytes + concat_slots(
            slots.drop_first().push(s),
        ));
    }
}

/// How many of lane `l`'s slots have entered the linearizer.
pub open spec fn taken_of(all0: Seq<Seq<SlotV>>, remv: Seq<Vec<Slot>>, l: int) -> int {
    all0[l].len() - remv[l]@.len()
}

/// The merge loop's picture: every lane's slots split into an emitted
/// prefix, the window now inside the linearizer, and the waiting suffix;
/// the output so far is the base followed by the emitted bytes in order.
pub open spec fn merge_inv(
    lin: Linearizer,
    remv: Seq<Vec<Slot>>,
    all0: Seq<Seq<SlotV>>,
    starts: Seq<int>,
    em: Seq<SlotV>,
    base: Seq<u8>,
    outv: Seq<u8>,
    capacity: usize,
    maintain_order: bool,
) -> bool {
    let p = all0.len() as int;
    &&& lin.wf()
    &&& lin.capacity == capacity
    &&& lin.maintain_order == maintain_order
    &&& lin.consumer_open
    &&& lin.num_lanes() == p
    &&& remv.len() == p
    &&& starts.len() == p
    &&& forall|l: int| 0 <= l < p ==> 0 <= #[trigger] starts[l]
    &&& forall|l: int|
        0 <= l < p ==> starts[l] + (#[trigger] lin.lv()[l]).slots.len() == taken_of(
            all0,
            remv,
            l,
        )
    &&& forall|l: int|
        0 <= l < p ==> (#[trigger] lin.lv()[l]).slots =~= all0[l].subrange(
            starts[l],
            taken_of(all0, remv, l),
        )
    &&& forall|l: int|
        0 <= l < p ==> slots_view((#[trigger] remv[l])@) =~= all0[l].subrange(
            taken_of(all0, remv, l),
            all0[l].len() as int,
        )
    &&& forall|l: int| 0 <= l < p ==> ((#[trigger] lin.lv()[l]).closed ==> remv[l]@.len() == 0)
    &&& forall|l: int|
        0 <= l < p ==> (taken_of(all0, remv, l) > 0 ==> (#[trigger] lin.lv()[l]).started
            && lin.lv()[l].hi == all0[l][taken_of(all0, remv, l) - 1].seq)
    &&& forall|l: int|
        0 <= l < p ==> (taken_of(all0, remv, l) == 0 ==> !(#[trigger] lin.lv()[l]).started)
    &&& forall|l: int| 0 <= l < p ==> strictly_ascending(slot_seqs(#[trigger] all0[l]))
    &&& forall|l1: int, i1: int, l2: int, i2: int|
        0 <= l1 < p && 0 <= i1 < all0[l1].len() && 0 <= l2 < p && 0 <= i2 < all0[l2].len() && (l1
            != l2 || i1 != i2) ==> (#[trigger] all0[l1][i1]).seq != (#[trigger] all0[l2][i2]).seq
    &&& slot_seqs(em) =~= lin.emitted@
    &&& em.to_multiset() == emitted_msum(all0, starts, p)
    &&& outv =~= base + concat_slots(em)
}

/// Moves lane `l`'s waiting slots into its linearizer buffer until the
/// buffer is full or the lane runs dry, closing the lane in the latter
/// case. Afterwards the lane is closed or visibly non-empty, so the
/// consumer is never left waiting on it.
fn fill_lane(
    lin: &mut Linearizer,
    rem: &mut Vec<Vec<Slot>>,
    l: usize,
    Ghost(all0): Ghost<Seq<Seq<SlotV>>>,
    Ghost(starts): Ghost<Seq<int>>,
    Ghost(em): Ghost<Seq<SlotV>>,
    Ghost(base): Ghost<Seq<u8>>,
    Ghost(outv): Ghost<Seq<u8>>,
    capacity: usize,
    maintain_order: bool,
)
    requires
        merge_inv(*old(lin), old(rem)@, all0, starts, em, base, outv, capacity, maintain_order),
        l < all0.len(),
    ensures
        merge_inv(*final(lin), final(rem)@, all0, starts, em, base, outv, capacity, maintain_order),
        final(lin).lv()[l as int].closed || final(lin).lv()[l as int].slots.len() > 0,
        forall|l2: int|
            0 <= l2 < all0.len() && l2 != l ==> final(lin).lv()[l2] == old(lin).lv()[l2]
                && final(rem)@[l2] == old(rem)@[l2],
        final(lin).emitted == old(lin).emitted,
        sum_rem(final(rem)@) + final(lin).total_buffered() == sum_rem(old(rem)@) + old(
            lin,
        ).total_buffered(),
    {
    let ghost li = l as int;
    while rem[l].len() > 0 && lin.lane_len(l) < capacity
        invariant
            merge_inv(*lin, rem@, all0, starts, em, base, outv, capacity, maintain_order),
            l < all0.len(),
            li == l as int,
            capacity == lin.capacity,
            forall|l2: int|
                0 <= l2 < all0.len() && l2 != l ==> lin.lv()[l2] == old(lin).lv()[l2] && rem@[l2]
                    == old(rem)@[l2],
            lin.emitted == old(lin).emitted,
            sum_rem(rem@) + lin.total_buffered() == sum_rem(old(rem)@) + old(lin).total_buffered(),
        decreases rem[l as int]@.len(),
    {
        let ghost pre_lin = *lin;
        let ghost pre_rem = rem@;
        let ghost taken = taken_of(all0, rem@, li);
        let mut lane_rem = rem.remove(l);
        let slot = lane_rem.remove(0);
        let ghost sv = slot@;
        rem.insert(l, lane_rem);
        proof {
            assert(rem@ =~= pre_rem.update(li, rem@[li]));
            assert(slots_view(pre_rem[li]@)[0] == pre_rem[li]@[0]@);
            assert(sv == all0[li][taken]);
            assert(slots_view(rem@[li]@) =~= slots_view(pre_rem[li]@).drop_first());
            lemma_sum_rem_update(pre_rem, li, rem@[li]);
            // The slot about to enter is strictly above the lane's
            // high-water mark, and its sequence number is in no lane of
            // the linearizer.
            if taken > 0 {
                assert(slot_seqs(all0[li])[taken - 1] == all0[li][taken - 1].seq);
                assert(slot_seqs(all0[li])[taken] == all0[li][taken].seq);
                assert(all0[li][taken - 1].seq < all0[li][taken].seq);
            }
            if pre_lin.has_seq(sv.seq) {
                let (l2, k2): (int, int) = choose|l2: int, k2: int|
                    0 <= l2 < pre_lin.lv().len() && 0 <= k2 < pre_lin.lv()[l2].slots.len()
                        && pre_lin.lv()[l2].slots[k2].seq == sv.seq;
                assert(pre_lin.lv()[l2].slots[k2] == all0[l2][starts[l2] + k2]);
                assert(all0[l2][starts[l2] + k2].seq != all0[li][taken].seq);
                assert(false);
            }
        }
        let res = lin.insert(l, slot.seq, slot.bytes);
        match res {
            InsertResult::Inserted => {
                proof {
                    assert(lin.lv()[li].slots =~= all0[li].subrange(starts[li], taken + 1));
                    assert(rem@[li]@.len() == pre_rem[li]@.len() - 1);
                    assert(taken_of(all0, rem@, li) == taken + 1);
                    assert forall|l2: int|
                        0 <= l2 < all0.len() && l2 != li implies lin.lv()[l2] == pre_lin.lv()[l2]
                        && rem@[l2] == pre_rem[l2] by {}
                }
            },
            InsertResult::Full(_) => {
                proof {
                    assert(false);
                }
            },
            InsertResult::Closed => {
                proof {
                    assert(false);
                }
            },
        }
    }
    if rem[l].len() == 0 {
        if !lin.lane_closed(l) {
            let ghost pre_lin = *lin;
            lin.close_lane(l);
            proof {
                assert forall|l2: int|
                    0 <= l2 < all0.len() && l2 != li implies lin.lv()[l2] == pre_lin.lv()[l2] by {}
            }
        }
    }
}

/// Drains the encoded lanes through a fresh linearizer, appending every
/// emitted buffer to `out` in the order the linearizer hands them out.
/// Returns that order.
fn merge_encoded(
    enc: Vec<Vec<Slot>>,
    Ghost(all0): Ghost<Seq<Seq<SlotV>>>,
    maintain_order: bool,
    capacity: usize,
    out: &mut Vec<u8>,
) -> (emitted: Ghost<Seq<SlotV>>)
    requires
        capacity >= 1,
        all0.len() == enc@.len(),
        forall|l: int| 0 <= l < enc@.len() ==> #[trigger] all0[l] == slots_view(enc@[l]@),
        forall|l: int| 0 <= l < all0.len() ==> strictly_ascending(slot_seqs(#[trigger] all0[l])),
        forall|l1: int, i1: int, l2: int, i2: int|
            0 <= l1 < all0.len() && 0 <= i1 < all0[l1].len() && 0 <= l2 < all0.len() && 0 <= i2
                < all0[l2].len() && (l1 != l2 || i1 != i2) ==> (#[trigger] all0[l1][i1]).seq != (
            #[trigger] all0[l2][i2]).seq,
    ensures
        final(out)@ == old(out)@ + concat_slots(emitted@),
        emitted@.to_multiset() == total_slots(all0, all0.len() as int),
        maintain_order ==> strictly_ascending(slot_seqs(emitted@)),
{
    let p = enc.len();
    let mut lin = Linearizer::new_with_maintain_order(p, capacity, maintain_order);
    let mut rem = enc;
    let ghost mut starts: Seq<int> = Seq::new(p as nat, |x: int| 0);
    let ghost mut em: Seq<SlotV> = Seq::empty();
    proof {
        broadcast use vstd::seq_lib::group_to_multiset_ensures;

        lemma_msum_zero(all0, starts, p as int);
        assert(em.to_multiset() =~= Multiset::<SlotV>::empty()) by {
            assert(em.to_multiset().len() == 0);
        }
        assert(slot_seqs(em) =~= lin.emitted@);
        assert(out@ =~= old(out)@ + concat_slots(em));
        assert forall|l: int| 0 <= l < p as int implies taken_of(all0, rem@, l) == 0 by {
            assert(all0[l] == slots_view(rem@[l]@));
        }
        assert forall|l: int|
            0 <= l < p as int implies (#[trigger] lin.lv()[l]).slots =~= all0[l].subrange(
            starts[l],
            taken_of(all0, rem@, l),
        ) by {
            assert(lin.lv()[l].slots.len() == 0);
        }
        assert forall|l: int|
            0 <= l < p as int implies slots_view((#[trigger] rem@[l])@) =~= all0[l].subrange(
            taken_of(all0, rem@, l),
            all0[l].len() as int,
        ) by {
            assert(all0[l] == slots_view(rem@[l]@));
        }
        assert(merge_inv(lin, rem@, all0, starts, em, old(out)@, out@, capacity, maintain_order));
    }
    loop
        invariant_except_break
            merge_inv(lin, rem@, all0, starts, em, old(out)@, out@, capacity, maintain_order),
            p == all0.len(),
        ensures
            merge_inv(lin, rem@, all0, starts, em, old(out)@, out@, capacity, maintain_order),
            lin.all_done(),
            p == all0.len(),
        decreases sum_rem(rem@) + lin.total_buffered(),
    {
        let ghost fuel0 = sum_rem(rem@) + lin.total_buffered();
        let mut l: usize = 0;
        while l < p
            invariant
                merge_inv(lin, rem@, all0, starts, em, old(out)@, out@, capacity, maintain_order),
                l <= p,
                p == all0.len(),
                forall|l2: int|
                    0 <= l2 < l ==> (#[trigger] lin.lv()[l2]).closed || lin.lv()[l2].slots.len()
                        > 0,
                sum_rem(rem@) + lin.total_buffered() == fuel0,
            decreases p - l,
        {
            fill_lane(
                &mut lin,
                &mut rem,
                l,
                Ghost(all0),
                Ghost(starts),
                Ghost(em),
                Ghost(old(out)@),
                Ghost(out@),
                capacity,
                maintain_order,
            );
            l = l + 1;
        }
        let ghost pre_lin = lin;
        let ghost pre_rem = rem@;
        match lin.get() {
            GetResult::Finished => {
                break ;
            },
            GetResult::Pending => {
                proof {
                    if pre_lin.blocked() {
                        if maintain_order {
                            let w = choose|w: int|
                                0 <= w < pre_lin.lv().len() && !(#[trigger] pre_lin.lv()[w]).closed
                                    && pre_lin.lv()[w].slots.len() == 0;
                            assert(false);
                        } else {
                            let w = choose|w: int|
                                0 <= w < pre_lin.lv().len() && !((#[trigger] pre_lin.lv()[w]).closed
                                    && pre_lin.lv()[w].slots.len() == 0);
                            assert(pre_lin.lv()[w].slots.len() == 0);
                            assert(pre_lin.lv()[w].closed);
                            assert(false);
                        }
                    }
                    assert(false);
                }
            },
            GetResult::Item(s, b) => {
                let ghost bv = b@;
                proof {
                    broadcast use vstd::seq_lib::group_to_multiset_ensures;

                    let lx = choose|lx: int|
                        0 <= lx < pre_lin.lv().len() && pre_lin.lv()[lx].slots.len() > 0
                            && pre_lin.lv()[lx].slots[0] == (SlotV { seq: s, bytes: bv })
                            && lin.lv() =~= pre_lin.lv().update(
                            lx,
                            LaneV {
                                slots: pre_lin.lv()[lx].slots.drop_first(),
                                closed: pre_lin.lv()[lx].closed,
                                started: pre_lin.lv()[lx].started,
                                hi: pre_lin.lv()[lx].hi,
                            },
                        );
                    let sv = all0[lx][starts[lx]];
                    assert(pre_lin.lv()[lx].slots =~= all0[lx].subrange(
                        starts[lx],
                        taken_of(all0, pre_rem, lx),
                    ));
                    assert(pre_lin.lv()[lx].slots[0] == sv);
                    assert(sv == SlotV { seq: s, bytes: bv });
                    lemma_msum_bump(all0, starts, lx, all0.len() as int);
                    lemma_concat_slots_snoc(em, sv);
                    em = em.push(sv);
                    starts = starts.update(lx, starts[lx] + 1);
                    assert(slot_seqs(em) =~= lin.emitted@);
                    assert forall|l2: int|
                        0 <= l2 < p as int implies (#[trigger] lin.lv()[l2]).slots =~= all0[l2].subrange(
                        starts[l2],
                        taken_of(all0, pre_rem, l2),
                    ) by {
                        if l2 == lx {
                            assert(lin.lv()[lx].slots =~= pre_lin.lv()[lx].slots.drop_first());
                        } else {
                            assert(lin.lv()[l2] == pre_lin.lv()[l2]);
                        }
                    }
                }
                push_all(out, &b);
                proof {
                    assert(out@ =~= old(out)@ + concat_slots(em));
                    assert(merge_inv(
                        lin,
                        rem@,
                        all0,
                        starts,
                        em,
                        old(out)@,
                        out@,
                        capacity,
                        maintain_order,
                    ));
                }
            },
        }
    }
    proof {
        assert forall|l: int| 0 <= l < all0.len() as int implies starts[l] == all0[l].len() by {
            assert(lin.lv()[l].closed && lin.lv()[l].slots.len() == 0);
            assert(rem@[l]@.len() == 0);
        }
        lemma_msum_full(all0, starts, all0.len() as int);
        if maintain_order {
            assert(slot_seqs(em) =~= lin.emitted@);
        }
    }
    Ghost(em)
}

/// The order the sink promises is the only one there is: two sequences of
/// slots that are both strictly ascending in sequence number and hold the
/// same slots are the same sequence. Together with the sink's permutation
/// and ascending-order guarantees, this pins the ordered output down to
/// exactly one byte stream.
pub proof fn lemma_ascending_permutation_unique(a: Seq<SlotV>, b: Seq<SlotV>)
    requires
        strictly_ascending(slot_seqs(a)),
        strictly_ascending(slot_seqs(b)),
        a.to_multiset() == b.to_multiset(),
    ensures
        a =~= b,
    decreases a.len(),
{
    broadcast use vstd::seq_lib::group_to_multiset_ensures;

    if a.len() == 0 {
        assert(b.to_multiset().len() == 0);
    } else {
        assert(b.to_multiset().count(a[0]) > 0);
        assert(b.contains(a[0]));
        let i = choose|i: int| 0 <= i < b.len() && b[i] == a[0];
        assert(a.to_multiset().count(b[0]) > 0);
        assert(a.contains(b[0]));
        let j = choose|j: int| 0 <= j < a.len() && a[j] == b[0];
        if i > 0 {
            assert(slot_seqs(b)[0] == b[0].seq && slot_seqs(b)[i] == b[i].seq);
            assert(b[0].seq < a[0].seq);
            if j > 0 {
                assert(slot_seqs(a)[0] == a[0].seq && slot_seqs(a)[j] == a[j].seq);
                assert(a[0].seq < b[0].seq);
            }
            assert(false);
        }
        assert(a[0] == b[0]);
        assert(a.drop_first().to_multiset() =~= b.drop_first().to_multiset()) by {
            assert(a.remove(0) =~= a.drop_first());
            assert(b.remove(0) =~= b.drop_first());
            assert(a.remove(0).to_multiset() =~= a.to_multiset().remove(a[0]));
            assert(b.remove(0).to_multiset() =~= b.to_multiset().remove(b[0]));
        }
        assert(strictly_ascending(slot_seqs(a.drop_first()))) by {
            assert forall|x: int, y: int|
                0 <= x < y < a.drop_first().len() implies slot_seqs(a.drop_first())[x] < slot_seqs(
                a.drop_first(),
            )[y] by {
                assert(slot_seqs(a.drop_first())[x] == a[x + 1].seq);
                assert(slot_seqs(a.drop_first())[y] == a[y + 1].seq);
                assert(slot_seqs(a)[x + 1] == a[x + 1].seq);
                assert(slot_seqs(a)[y + 1] == a[y + 1].seq);
            }
        }
        assert(strictly_ascending(slot_seqs(b.drop_first()))) by {
            assert forall|x: int, y: int|
                0 <= x < y < b.drop_first().len() implies slot_seqs(b.drop_first())[x] < slot_seqs(
                b.drop_first(),
            )[y] by {
                assert(slot_seqs(b.drop_first())[x] == b[x + 1].seq);
                assert(slot_seqs(b.drop_first())[y] == b[y + 1].seq);
                assert(slot_seqs(b)[x + 1] == b[x + 1].seq);
                assert(slot_seqs(b)[y + 1] == b[y + 1].seq);
            }
        }
        lemma_ascending_permutation_unique(a.drop_first(), b.drop_first());
        assert forall|k: int| 0 <= k < a.len() implies a[k] == b[k] by {
            if k > 0 {
                assert(a.drop_first()[k - 1] == b.drop_first()[k - 1]);
            }
        }
        assert(a.len() == b.len()) by {
            assert(a.to_multiset().len() == b.to_multiset().len());
        }
    }
}

/// Plain connection values of a cloud object store, carried through to the
/// backend untouched.
pub struct CloudConfig {
    pub credentials: Vec<u8>,
    pub endpoint: Vec<u8>,
    pub region: Vec<u8>,
}

/// The configuration of one CSV sink; immutable after construction.
pub struct CsvSinkNode {
    /// Destination: a local path, or a `scheme://` cloud URL.
    pub path: Vec<u8>,
    /// The schema every chunk must conform to; also names the header.
    pub schema: Schema,
    /// Ordering and durability flags.
    pub sink_options: SinkOptions,
    /// Header, byte-order mark and dialect.
    pub write_options: CsvWriterOptions,
    /// Present when the destination is a cloud object store.
    pub cloud_options: Option<CloudConfig>,
}

impl CsvSinkNode {
    /// Packs a sink configuration.
    pub fn new(
        path: Vec<u8>,
        schema: Schema,
        sink_options: SinkOptions,
        write_options: CsvWriterOptions,
        cloud_options: Option<CloudConfig>,
    ) -> (r: CsvSinkNode)
        ensures
            r.path@ == path@,
            r.schema@ == schema@,
            r.sink_options == sink_options,
            r.write_options.include_header == write_options.include_header,
            r.write_options.include_bom == write_options.include_bom,
            r.write_options.serialize_options@ == write_options.serialize_options@,
            r.cloud_options is Some <==> cloud_options is Some,
            cloud_options matches Some(c) ==> (r.cloud_options matches Some(rc)
                && rc.credentials@ == c.credentials@ && rc.endpoint@ == c.endpoint@
                && rc.region@ == c.region@),
    {
        CsvSinkNode { path, schema, sink_options, write_options, cloud_options }
    }

    /// The node's name.
    pub fn name(&self) -> (r: &'static str)
        ensures
            r@ == "csv_sink"@,
    {
        "csv_sink"
    }

    /// The sink always asks for the parallel view of its input port.
    pub fn is_sink_input_parallel(&self) -> (r: bool)
        ensures
            r,
    {
        true
    }

    /// Whether the output must follow ascending sequence order.
    pub fn do_maintain_order(&self) -> (r: bool)
        ensures
            r == self.sink_options.maintain_order,
    {
        self.sink_options.maintain_order
    }
}

/// The input port as the sink sees it: one bounded stream of morsels per
/// pipeline lane.
pub struct SinkInputPort {
    pub lanes: Vec<Vec<Morsel>>,
}

impl SinkInputPort {
    /// The parallel view: one receiver per lane.
    pub fn parallel(self) -> (r: Vec<Vec<Morsel>>)
        ensures
            r == self.lanes,
    {
        self.lanes
    }
}

/// What a finished sink leaves behind.
#[derive(Debug)]
pub struct SinkOutcome {
    /// Every byte written, in order.
    pub bytes: Vec<u8>,
    /// The backend the path selected.
    pub backend: Backend,
    /// The durability that was enforced before close.
    pub synced: SyncOnClose,
    /// The handle was closed.
    pub closed: bool,
}

/// Encodes one lane's morsels, in arrival order, with one worker's adaptive
/// state. The consume token of each morsel is dropped here, before its slot
/// is ever offered to the linearizer.
fn encode_lane(lane_vec: &Vec<Morsel>, schema: &Schema, opts: &crate::dialect::SerializeOptions) -> (r:
    Result<Vec<Slot>, EncodeError>)
    ensures
        r is Ok <==> lane_fits(lane_vec@, schema@),
        r matches Ok(s) ==> slots_view(s@) =~= lane_slots(lane_vec@, opts@),
        r matches Err(e) ==> lane_error_of(lane_vec@, schema@, e),
{
    let mut state = EncoderState::new();
    let mut slots: Vec<Slot> = Vec::new();
    let mut k: usize = 0;
    while k < lane_vec.len()
        invariant
            k <= lane_vec.len(),
            slots@.len() == k,
            slots_view(slots@) =~= lane_slots(lane_vec@, opts@).subrange(0, k as int),
            forall|i: int|
                0 <= i < k ==> chunk_fits((#[trigger] lane_vec@[i]).chunk@, schema@),
        decreases lane_vec.len() - k,
    {
        let m = &lane_vec[k];
        match state.encode_morsel(&m.chunk, schema, opts) {
            Ok(b) => {
                slots.push(Slot { seq: m.seq, bytes: b });
                k = k + 1;
                proof {
                    assert(lane_slots(lane_vec@, opts@)[k - 1] == (SlotV {
                        seq: lane_vec@[k - 1].seq,
                        bytes: chunk_bytes(lane_vec@[k - 1].chunk@, opts@),
                    }));
                    assert(slots_view(slots@) =~= lane_slots(lane_vec@, opts@).subrange(
                        0,
                        k as int,
                    ));
                }
            },
            Err(e) => {
                proof {
                    assert(!chunk_fits(lane_vec@[k as int].chunk@, schema@));
                    assert(!lane_fits(lane_vec@, schema@)) by {
                        if lane_fits(lane_vec@, schema@) {
                            assert(chunk_fits(lane_vec@[k as int].chunk@, schema@));
                        }
                    }
                    assert(lane_error_of(lane_vec@, schema@, e)) by {
                        assert(0 <= (k as int) < lane_vec@.len() && !chunk_fits(
                            lane_vec@[k as int].chunk@,
                            schema@,
                        ));
                    }
                }
                return Err(e);
            },
        }
    }
    proof {
        assert(slots_view(slots@) =~= lane_slots(lane_vec@, opts@));
    }
    Ok(slots)
}

/// The slots each input lane contributes, lane by lane.
pub open spec fn lanes_encoded(lanesv: Seq<Vec<Morsel>>, d: Dialect) -> Seq<Seq<SlotV>> {
    lanesv.map(|l: int, v: Vec<Morsel>| lane_slots(v@, d))
}

impl CsvSinkNode {
    /// Runs the sink on already-resolved parallel lanes: encodes every
    /// morsel with no header and no byte-order mark, merges the buffers
    /// through the bounded linearizer, and emits the prelude followed by
    /// every buffer verbatim. Succeeds exactly when every chunk conforms to
    /// the schema; on success the output is the prelude plus the buffers in
    /// an order that is a permutation of the input — ascending in sequence
    /// number whenever order maintenance was asked for — and the handle is
    /// closed, fsynced as configured on a local path.
    pub fn run_sink_once(&self, lanes: Vec<Vec<Morsel>>) -> (r: Result<SinkOutcome, EncodeError>)
        requires
            lanes_ascending(lanes@),
            lanes_distinct(lanes@),
        ensures
            r is Ok <==> input_fits(lanes@, self.schema@),
            r matches Err(e) ==> input_error_of(lanes@, self.schema@, e),
            r matches Ok(o) ==> {
                &&& o.closed
                &&& (o.backend is Cloud) <==> is_cloud_path(self.path@)
                &&& o.synced == (if o.backend is Local {
                    self.sink_options.sync_on_close
                } else {
                    SyncOnClose::Off
                })
                &&& exists|order: Seq<SlotV>|
                    {
                        &&& o.bytes@ == prelude_bytes(
                            self.schema@,
                            self.write_options.include_header,
                            self.write_options.include_bom,
                            self.write_options.serialize_options@,
                        ) + concat_slots(order)
                        &&& order.to_multiset() == total_slots(
                            lanes_encoded(lanes@, self.write_options.serialize_options@),
                            lanes@.len() as int,
                        )
                        &&& self.sink_options.maintain_order ==> strictly_ascending(
                            slot_seqs(order),
                        )
                    }
            },
    {
        let ghost d = self.write_options.serialize_options@;
        let p = lanes.len();
        let opts = &self.write_options.serialize_options;
        let mut enc: Vec<Vec<Slot>> = Vec::new();
        let mut l: usize = 0;
        while l < p
            invariant
                l <= p,
                p == lanes@.len(),
                d == self.write_options.serialize_options@,
                enc@.len() == l,
                opts == &self.write_options.serialize_options,
                forall|i: int|
                    0 <= i < l ==> slots_view((#[trigger] enc@[i])@) =~= lane_slots(
                        lanes@[i]@,
                        d,
                    ),
                forall|i: int| 0 <= i < l ==> lane_fits((#[trigger] lanes@[i])@, self.schema@),
            decreases p - l,
        {
            match encode_lane(&lanes[l], &self.schema, opts) {
                Ok(s) => {
                    enc.push(s);
                    l = l + 1;
                },
                Err(e) => {
                    proof {
                        assert(!lane_fits(lanes@[l as int]@, self.schema@));
                        assert(!input_fits(lanes@, self.schema@)) by {
                            if input_fits(lanes@, self.schema@) {
                                assert(lane_fits(lanes@[l as int]@, self.schema@));
                            }
                        }
                        assert(input_error_of(lanes@, self.schema@, e)) by {
                            assert(0 <= (l as int) < lanes@.len() && !lane_fits(
                                lanes@[l as int]@,
                                self.schema@,
                            ));
                        }
                    }
                    return Err(e);
                },
            }
        }
        let mut out = encode_prelude(
            &self.schema,
            self.write_options.include_header,
            self.write_options.include_bom,
            opts,
        );
        let ghost base = out@;
        let ghost all0 = lanes_encoded(lanes@, d);
        proof {
            assert forall|i: int| 0 <= i < p as int implies #[trigger] all0[i] == slots_view(
                enc@[i]@,
            ) by {
                assert(all0[i] == lane_slots(lanes@[i]@, d));
                assert(slots_view(enc@[i]@) =~= lane_slots(lanes@[i]@, d));
            }
            assert forall|i: int| 0 <= i < p as int implies strictly_ascending(
                slot_seqs(#[trigger] all0[i]),
            ) by {
                assert(strictly_ascending(morsel_seqs(lanes@[i]@)));
                assert(slot_seqs(all0[i]) =~= morsel_seqs(lanes@[i]@));
            }
            assert forall|l1: int, i1: int, l2: int, i2: int|
                0 <= l1 < p as int && 0 <= i1 < all0[l1].len() && 0 <= l2 < p as int && 0 <= i2
                    < all0[l2].len() && (l1 != l2 || i1 != i2) implies (
            #[trigger] all0[l1][i1]).seq != (#[trigger] all0[l2][i2]).seq by {
                assert(all0[l1][i1].seq == lanes@[l1]@[i1].seq);
                assert(all0[l2][i2].seq == lanes@[l2]@[i2].seq);
            }
        }
        let emitted = merge_encoded(
            enc,
            Ghost(all0),
            self.sink_options.maintain_order,
            DEFAULT_SINK_LINEARIZER_BUFFER_SIZE,
            &mut out,
        );
        let backend = classify_path(&self.path);
        let synced = if should_fsync(backend, self.sink_options.sync_on_close) {
            self.sink_options.sync_on_close
        } else {
            SyncOnClose::Off
        };
        let outcome = SinkOutcome { bytes: out, backend, synced, closed: true };
        proof {
            assert(outcome.bytes@ == prelude_bytes(
                self.schema@,
                self.write_options.include_header,
                self.write_options.include_bom,
                d,
            ) + concat_slots(emitted@));
        }
        Ok(outcome)
    }

    /// The general entry point: resolves the port's parallel view, then
    /// runs the sink on it.
    pub fn run_sink(&self, port: SinkInputPort) -> (r: Result<SinkOutcome, EncodeError>)
        requires
            lanes_ascending(port.lanes@),
            lanes_distinct(port.lanes@),
        ensures
            r is Ok <==> input_fits(port.lanes@, self.schema@),
            r matches Err(e) ==> input_error_of(port.lanes@, self.schema@, e),
            r matches Ok(o) ==> {
                &&& o.closed
                &&& (o.backend is Cloud) <==> is_cloud_path(self.path@)
                &&& o.synced == (if o.backend is Local {
                    self.sink_options.sync_on_close
                } else {
                    SyncOnClose::Off
                })
                &&& exists|order: Seq<SlotV>|
                    {
                        &&& o.bytes@ == prelude_bytes(
                            self.schema@,
                            self.write_options.include_header,
                            self.write_options.include_bom,
                            self.write_options.serialize_options@,
                        ) + concat_slots(order)
                        &&& order.to_multiset() == total_slots(
                            lanes_encoded(port.lanes@, self.write_options.serialize_options@),
                            port.lanes@.len() as int,
                        )
                        &&& self.sink_options.maintain_order ==> strictly_ascending(
                            slot_seqs(order),
                        )
                    }
            },
    {
        let ghost lv = port.lanes@;
        let lanes = port.parallel();
        proof {
            assert(lanes@ == lv);
        }
        self.run_sink_once(lanes)
    }
}

} // verus!
