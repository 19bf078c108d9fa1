//! Packets of two ports in clusters of those that meet.

use vstd::prelude::*;

use crate::concurrency::inline_lists::{PacketList, PairList};
use crate::concurrency::slice::{InteractionStoreSlice, SliceView};
use crate::nodes::packet::{all_fit, WavePacket, WpBatch};
use crate::nodes::pairing::{
    findings, pairings_of, sweep_start, DualPortPairing, DualPortPairingIterator,
};
use crate::concurrency::cell::CellView;
use crate::concurrency::island_laws::same_flight;
use crate::concurrency::passing_laws::{is_same_packet, merging_leaves_a_tombstone};
use crate::types::Time;

verus! {

/// The place of the first packet with that id, or the length if there is none.
pub open spec fn first_with_snowflake(packets: Seq<WavePacket>, snowflake: u32) -> int
    decreases packets.len(),
{
    if packets.len() == 0 || packets[0].snowflake == snowflake {
        0
    } else {
        1 + first_with_snowflake(packets.drop_first(), snowflake)
    }
}

pub open spec fn has_snowflake(packets: Seq<WavePacket>, snowflake: u32) -> bool {
    first_with_snowflake(packets, snowflake) < packets.len()
}

/// `first_with_snowflake` finds a packet where there is one, and none before it.
pub proof fn lemma_first_with_snowflake(packets: Seq<WavePacket>, snowflake: u32)
    ensures
        0 <= first_with_snowflake(packets, snowflake) <= packets.len(),
        has_snowflake(packets, snowflake) ==> packets[first_with_snowflake(
            packets,
            snowflake,
        )].snowflake == snowflake,
        forall|j: int|
            0 <= j < first_with_snowflake(packets, snowflake) ==> (#[trigger] packets[j]).snowflake
                != snowflake,
    decreases packets.len(),
{
    if packets.len() > 0 && packets[0].snowflake != snowflake {
        lemma_first_with_snowflake(packets.drop_first(), snowflake);
        assert forall|j: int|
            0 <= j < first_with_snowflake(packets, snowflake) implies (
        #[trigger] packets[j]).snowflake != snowflake by {
            if j > 0 {
                assert(packets.drop_first()[j - 1] == packets[j]);
            }
        }
    }
}

/// The packets with one more, unless it is there.
pub open spec fn with_packet(packets: Seq<WavePacket>, wp: WavePacket) -> Seq<WavePacket> {
    if has_snowflake(packets, wp.snowflake) {
        packets
    } else {
        packets.push(wp)
    }
}

/// Packets of two ports, and which of them meet.
#[verifier::ext_equal]
pub struct ClusterView {
    pub pairs: Seq<(u8, u8)>,
    pub left: Seq<WavePacket>,
    pub right: Seq<WavePacket>,
}

impl ClusterView {
    pub open spec fn of_pair(left: WavePacket, right: WavePacket) -> ClusterView {
        ClusterView { pairs: seq![(0u8, 0u8)], left: seq![left], right: seq![right] }
    }

    /// One of the two packets is in the cluster.
    pub open spec fn touches(self, left: WavePacket, right: WavePacket) -> bool {
        has_snowflake(self.left, left.snowflake) || has_snowflake(self.right, right.snowflake)
    }

    /// The cluster with the two packets in it, meeting.
    pub open spec fn joined(self, left: WavePacket, right: WavePacket) -> ClusterView {
        ClusterView {
            pairs: self.pairs.push(
                (
                    first_with_snowflake(self.left, left.snowflake) as u8,
                    first_with_snowflake(self.right, right.snowflake) as u8,
                ),
            ),
            left: with_packet(self.left, left),
            right: with_packet(self.right, right),
        }
    }

    /// Every packet has a place that the pairs can name.
    pub open spec fn is_small(self) -> bool {
        self.left.len() <= 256 && self.right.len() <= 256
    }
}

pub struct PhotonicCluster {
    pub pairs: PairList,
    pub left_packets: PacketList,
    pub right_packets: PacketList,
}

impl View for PhotonicCluster {
    type V = ClusterView;

    open spec fn view(&self) -> ClusterView {
        ClusterView {
            pairs: self.pairs@,
            left: self.left_packets@,
            right: self.right_packets@,
        }
    }
}

fn index_of(packets: &PacketList, wp: &WavePacket) -> (index: Option<u8>)
    requires
        packets@.len() <= 256,
    ensures
        index is Some <==> has_snowflake(packets@, wp.snowflake),
        index matches Some(i) ==> i == first_with_snowflake(packets@, wp.snowflake),
{
    let n: usize = packets.len();
    let mut i: usize = 0;
    assert(packets@.skip(0) =~= packets@);
    while i < n
        invariant
            n == packets@.len(),
            n <= 256,
            i <= n,
            first_with_snowflake(packets@, wp.snowflake) == i + first_with_snowflake(
                packets@.skip(i as int),
                wp.snowflake,
            ),
        decreases n - i,
    {
        if packets.at(i).snowflake == wp.snowflake {
            return Some(i as u8);
        }
        assert(packets@.skip(i as int).drop_first() =~= packets@.skip(i + 1));
        i += 1;
    }
    None
}

impl PhotonicCluster {
    pub fn new(wp_left: WavePacket, wp_right: WavePacket) -> (cluster: Self)
        ensures
            cluster@ == ClusterView::of_pair(wp_left, wp_right),
    {
        let mut cluster = Self {
            pairs: PairList::new(),
            left_packets: PacketList::new(),
            right_packets: PacketList::new(),
        };
        cluster.pairs.push((0, 0));
        cluster.left_packets.push(wp_left);
        cluster.right_packets.push(wp_right);
        assert(cluster@ =~= ClusterView::of_pair(wp_left, wp_right));
        cluster
    }

    pub fn left_indexof(&self, wp: &WavePacket) -> (index: Option<u8>)
        requires
            self@.is_small(),
        ensures
            index is Some <==> has_snowflake(self@.left, wp.snowflake),
            index matches Some(i) ==> i == first_with_snowflake(self@.left, wp.snowflake),
    {
        index_of(&self.left_packets, wp)
    }

    pub fn right_indexof(&self, wp: &WavePacket) -> (index: Option<u8>)
        requires
            self@.is_small(),
        ensures
            index is Some <==> has_snowflake(self@.right, wp.snowflake),
            index matches Some(i) ==> i == first_with_snowflake(self@.right, wp.snowflake),
    {
        index_of(&self.right_packets, wp)
    }

    pub fn pair_count(&self) -> (n: usize)
        ensures
            n == self@.pairs.len(),
    {
        self.pairs.len()
    }

    pub fn pair_at(&self, i: usize) -> (pair: (u8, u8))
        requires
            i < self@.pairs.len(),
        ensures
            pair == self@.pairs[i as int],
    {
        self.pairs.at(i)
    }

    pub fn left_count(&self) -> (n: usize)
        ensures
            n == self@.left.len(),
    {
        self.left_packets.len()
    }

    pub fn left_at(&self, i: usize) -> (wp: WavePacket)
        requires
            i < self@.left.len(),
        ensures
            wp == self@.left[i as int],
    {
        self.left_packets.at(i)
    }

    pub fn right_count(&self) -> (n: usize)
        ensures
            n == self@.right.len(),
    {
        self.right_packets.len()
    }

    pub fn right_at(&self, i: usize) -> (wp: WavePacket)
        requires
            i < self@.right.len(),
        ensures
            wp == self@.right[i as int],
    {
        self.right_packets.at(i)
    }

    // Uses the latest packet of the bunch: good enough for coarse time keeping.
    pub fn time(&self) -> (time: Time)
        requires
            self@.left.len() > 0,
            self@.right.len() > 0,
        ensures
            time == (if self@.left.last().lead() >= self@.right.last().lead() {
                self@.left.last().lead()
            } else {
                self@.right.last().lead()
            }),
    {
        let left: u64 = self.left_packets.at(self.left_packets.len() - 1).leading_edge();
        let right: u64 = self.right_packets.at(self.right_packets.len() - 1).leading_edge();
        if left >= right {
            left
        } else {
            right
        }
    }

    /// Adds two packets that meet, one of which is in the cluster.
    fn join(
        &mut self,
        wp_left: WavePacket,
        wp_right: WavePacket,
        left_index: Option<u8>,
        right_index: Option<u8>,
    )
        requires
            old(self)@.is_small(),
            old(self)@.joined(wp_left, wp_right).is_small(),
            left_index is Some <==> has_snowflake(old(self)@.left, wp_left.snowflake),
            left_index matches Some(i) ==> i == first_with_snowflake(
                old(self)@.left,
                wp_left.snowflake,
            ),
            right_index is Some <==> has_snowflake(old(self)@.right, wp_right.snowflake),
            right_index matches Some(i) ==> i == first_with_snowflake(
                old(self)@.right,
                wp_right.snowflake,
            ),
        ensures
            final(self)@ == old(self)@.joined(wp_left, wp_right),
    {
        proof {
            lemma_first_with_snowflake(self@.left, wp_left.snowflake);
            lemma_first_with_snowflake(self@.right, wp_right.snowflake);
        }
        let left_index: u8 = match left_index {
            Some(index) => index,
            None => {
                let len: usize = self.left_packets.len();
                self.left_packets.push(wp_left);
                len as u8
            },
        };
        let right_index: u8 = match right_index {
            Some(index) => index,
            None => {
                let len: usize = self.right_packets.len();
                self.right_packets.push(wp_right);
                len as u8
            },
        };
        self.pairs.push((left_index, right_index));
    }
}

/// The handles, each where it first comes.
pub open spec fn first_comers(handles: Seq<u32>) -> Seq<u32>
    decreases handles.len(),
{
    if handles.len() == 0 {
        seq![]
    } else {
        let earlier = first_comers(handles.drop_last());
        if earlier.contains(handles.last()) {
            earlier
        } else {
            earlier.push(handles.last())
        }
    }
}

/// The slice with the donors merged into the recipient, one after the other, if each
/// can be.
pub open spec fn merged_in_turn(slice: SliceView, donors: Seq<u32>, recipient: u32) -> Option<
    SliceView,
>
    decreases donors.len(),
{
    if donors.len() == 0 {
        Some(slice)
    } else {
        match merged_in_turn(slice, donors.drop_last(), recipient) {
            Some(middle) if middle.can_merge(donors.last(), recipient) => Some(
                middle.merged(donors.last(), recipient),
            ),
            _ => None,
        }
    }
}

/// A donor that cannot be merged is not made up for by others.
proof fn lemma_merging_fails(slice: SliceView, donors: Seq<u32>, recipient: u32, n: int)
    requires
        0 <= n <= donors.len(),
        merged_in_turn(slice, donors.take(n), recipient) is None,
    ensures
        merged_in_turn(slice, donors, recipient) is None,
    decreases donors.len() - n,
{
    if n < donors.len() {
        assert(donors.take(n + 1).drop_last() =~= donors.take(n));
        lemma_merging_fails(slice, donors, recipient, n + 1);
    } else {
        assert(donors.take(n) =~= donors);
    }
}

/// The slice after the states were merged into the first.
pub open spec fn states_merged(slice: SliceView, handles: Seq<u32>) -> Option<SliceView> {
    let donors = first_comers(handles);
    if donors.len() == 0 {
        Some(slice)
    } else {
        merged_in_turn(slice, donors.drop_first(), donors[0])
    }
}

/// The handles of the packets, those from the left first.
pub open spec fn cluster_handles(cluster: ClusterView) -> Seq<u32> {
    (cluster.left + cluster.right).map_values(|wp: WavePacket| wp.state_handle)
}

/// The packets, all with one state.
pub open spec fn all_with_state(packets: Seq<WavePacket>, handle: u32) -> Seq<WavePacket> {
    packets.map_values(|wp: WavePacket| WavePacket { state_handle: handle, ..wp })
}

fn has_handle(handles: &Vec<u32>, handle: u32) -> (found: bool)
    ensures
        found == handles@.contains(handle),
{
    let mut i: usize = 0;
    while i < handles.len()
        invariant
            i <= handles@.len(),
            forall|k: int| 0 <= k < i ==> handles@[k] != handle,
        decreases handles@.len() - i,
    {
        if handles[i] == handle {
            return true;
        }
        i += 1;
    }
    false
}

/// Merges the states of the packets, which follow those already `seen`, into the
/// first; the packets point there then.
fn merge_packets(
    packets: &mut PacketList,
    seen: &mut Vec<u32>,
    slice: &mut InteractionStoreSlice,
    Ghost(start): Ghost<SliceView>,
    Ghost(before): Ghost<Seq<u32>>,
) -> (merged: bool)
    requires
        old(slice).wf(),
        old(seen)@ == first_comers(before),
        states_merged(start, before) == Some(old(slice)@),
    ensures
        final(slice).wf(),
        merged == (states_merged(
            start,
            before + old(packets)@.map_values(|wp: WavePacket| wp.state_handle),
        ) is Some),
        merged ==> ({
            let handles = before + old(packets)@.map_values(|wp: WavePacket| wp.state_handle);
            &&& final(seen)@ == first_comers(handles)
            &&& states_merged(start, handles) == Some(final(slice)@)
            &&& final(seen)@.len() > 0 ==> final(packets)@ == all_with_state(
                old(packets)@,
                final(seen)@[0],
            )
            &&& final(seen)@.len() == 0 ==> final(packets)@ == old(packets)@
            &&& old(seen)@.len() > 0 ==> final(seen)@[0] == old(seen)@[0]
        }),
{
    let ghost given = packets@;
    let ghost here = given.map_values(|wp: WavePacket| wp.state_handle);
    let n: usize = packets.len();
    let mut i: usize = 0;
    assert(before + here.take(0) =~= before);
    while i < n
        invariant
            slice.wf(),
            given == old(packets)@,
            here == given.map_values(|wp: WavePacket| wp.state_handle),
            n == given.len(),
            packets@.len() == n,
            i <= n,
            seen@ == first_comers(before + here.take(i as int)),
            states_merged(start, before + here.take(i as int)) == Some(slice@),
            i > 0 ==> seen@.len() > 0,
            old(seen)@.len() > 0 ==> seen@.len() > 0 && seen@[0] == old(seen)@[0],
            forall|k: int| i <= k < n ==> packets@[k] == given[k],
            forall|k: int|
                0 <= k < i ==> #[trigger] packets@[k] == (WavePacket {
                    state_handle: seen@[0],
                    ..given[k]
                }),
        decreases n - i,
    {
        let wp = packets.at(i);
        let handle: u32 = wp.state_handle;
        let ghost done = before + here.take(i as int);
        let ghost next = before + here.take(i + 1);
        let ghost all = before + here;
        proof {
            assert(next =~= done.push(handle));
            assert(next.drop_last() =~= done);
        }
        if seen.len() == 0 {
            seen.push(handle);
            assert(seen@.drop_first() =~= seq![]);
            assert(wp == (WavePacket { state_handle: seen@[0], ..given[i as int] }));
        } else {
            let first: u32 = seen[0];
            if !has_handle(seen, handle) {
                let ghost donors = seen@.drop_first();
                let ghost more = seen@.push(handle).drop_first();
                proof {
                    assert(more =~= donors.push(handle));
                    assert(more.drop_last() =~= donors);
                }
                if !slice.merge_islands(handle, first) {
                    proof {
                        assert(merged_in_turn(start, more, first) is None);
                        lemma_first_comers_grow(all, next.len() as int);
                        assert(all.take(next.len() as int) =~= next);
                        let total = first_comers(all);
                        let rest = total.drop_first();
                        let so_far = first_comers(next);
                        assert(so_far == seen@.push(handle));
                        assert(total[0] == so_far[0]);
                        assert(rest.take(more.len() as int) =~= more) by {
                            assert forall|k: int| 0 <= k < more.len() implies rest[k] == more[k] by {
                                assert(total[k + 1] == so_far[k + 1]);
                            }
                        }
                        lemma_merging_fails(start, rest, first, more.len() as int);
                    }
                    return false;
                }
                seen.push(handle);
            }
            packets.put(i, WavePacket { state_handle: first, ..wp });
        }
        i += 1;
    }
    proof {
        assert(here.take(n as int) =~= here);
        if seen@.len() > 0 {
            assert(packets@ =~= all_with_state(given, seen@[0]));
        } else {
            assert(packets@ =~= given);
        }
    }
    true
}

/// The first comers of a beginning come first.
proof fn lemma_first_comers_grow(handles: Seq<u32>, n: int)
    requires
        0 <= n <= handles.len(),
    ensures
        first_comers(handles.take(n)).len() <= first_comers(handles).len(),
        forall|k: int|
            0 <= k < first_comers(handles.take(n)).len() ==> #[trigger] first_comers(handles)[k]
                == first_comers(handles.take(n))[k],
    decreases handles.len(),
{
    if n < handles.len() {
        lemma_first_comers_grow(handles.drop_last(), n);
        assert(handles.drop_last().take(n) =~= handles.take(n));
    } else {
        assert(handles.take(n) =~= handles);
    }
}

impl PhotonicCluster {
    /// Merges the states of all packets into that of the first, and points every
    /// packet there. There is no handle to give where two of the states are not
    /// islands that can be merged.
    pub fn merge_states(&mut self, slice: &mut InteractionStoreSlice) -> (merged: Option<u32>)
        requires
            old(slice).wf(),
        ensures
            final(slice).wf(),
            merged is Some <==> states_merged(old(slice)@, cluster_handles(old(self)@)) is Some,
            merged matches Some(first) ==> ({
                let handles = cluster_handles(old(self)@);
                &&& first == (if handles.len() == 0 {
                    0
                } else {
                    handles[0]
                })
                &&& states_merged(old(slice)@, handles) == Some(final(slice)@)
                &&& final(self)@ == (ClusterView {
                    left: all_with_state(old(self)@.left, first),
                    right: all_with_state(old(self)@.right, first),
                    ..old(self)@
                })
            }),
    {
        let ghost before = self@;
        let ghost start = slice@;
        let ghost lefts = before.left.map_values(|wp: WavePacket| wp.state_handle);
        let ghost rights = before.right.map_values(|wp: WavePacket| wp.state_handle);
        let ghost handles = cluster_handles(before);
        let mut state_handles: Vec<u32> = Vec::new();
        proof {
            assert(handles =~= lefts + rights);
            assert(Seq::<u32>::empty() + lefts =~= lefts);
        }
        if !merge_packets(
            &mut self.left_packets,
            &mut state_handles,
            slice,
            Ghost(start),
            Ghost(Seq::<u32>::empty()),
        ) {
            proof {
                lemma_first_comers_grow(handles, lefts.len() as int);
                assert(handles.take(lefts.len() as int) =~= lefts);
                let some = first_comers(lefts);
                let all = first_comers(handles);
                assert(all[0] == some[0]);
                assert(all.drop_first().take(some.len() - 1) =~= some.drop_first());
                lemma_merging_fails(start, all.drop_first(), all[0], some.len() - 1);
            }
            return None;
        }
        if !merge_packets(
            &mut self.right_packets,
            &mut state_handles,
            slice,
            Ghost(start),
            Ghost(lefts),
        ) {
            return None;
        }
        proof {
            lemma_first_comers_start(lefts);
            lemma_first_comers_start(handles);
            if before.left.len() == 0 {
                assert(before.left =~= all_with_state(before.left, 0));
                if handles.len() > 0 {
                    assert(before.left =~= all_with_state(before.left, handles[0]));
                }
            }
            if before.right.len() == 0 {
                assert(before.right =~= all_with_state(before.right, 0));
            }
        }
        if state_handles.len() == 0 {
            Some(0)
        } else {
            Some(state_handles[0])
        }
    }
}

proof fn lemma_first_comers_start(handles: Seq<u32>)
    ensures
        first_comers(handles).len() == 0 <==> handles.len() == 0,
        handles.len() > 0 ==> first_comers(handles)[0] == handles[0],
    decreases handles.len(),
{
    if handles.len() > 0 {
        lemma_first_comers_start(handles.drop_last());
    }
}

pub enum DualPortCluster {
    LeftIsolate(WavePacket),
    RightIsolate(WavePacket),
    Cluster(PhotonicCluster),
}

/// What comes out of the clustering.
pub enum ClusterItem {
    LeftAlone(WavePacket),
    RightAlone(WavePacket),
    Cluster(ClusterView),
}

impl View for DualPortCluster {
    type V = ClusterItem;

    open spec fn view(&self) -> ClusterItem {
        match self {
            DualPortCluster::LeftIsolate(wp) => ClusterItem::LeftAlone(*wp),
            DualPortCluster::RightIsolate(wp) => ClusterItem::RightAlone(*wp),
            DualPortCluster::Cluster(cluster) => ClusterItem::Cluster(cluster@),
        }
    }
}

/// Packets that are alone come out as they are found; pairs are gathered in a cluster
/// as long as each touches it, and the cluster comes out when one does not.
pub open spec fn clustered(pairings: Seq<DualPortPairing>, open: Option<ClusterView>) -> Seq<
    ClusterItem,
>
    decreases pairings.len(),
{
    if pairings.len() == 0 {
        match open {
            Some(cluster) => seq![ClusterItem::Cluster(cluster)],
            None => seq![],
        }
    } else {
        let rest = pairings.drop_first();
        match pairings[0] {
            DualPortPairing::LeftIsolate(wp) => seq![ClusterItem::LeftAlone(wp)] + clustered(
                rest,
                open,
            ),
            DualPortPairing::RightIsolate(wp) => seq![ClusterItem::RightAlone(wp)] + clustered(
                rest,
                open,
            ),
            DualPortPairing::Pair(left, right) => match open {
                None => clustered(rest, Some(ClusterView::of_pair(left, right))),
                Some(cluster) => if cluster.touches(left, right) {
                    clustered(rest, Some(cluster.joined(left, right)))
                } else {
                    seq![ClusterItem::Cluster(cluster)] + clustered(
                        rest,
                        Some(ClusterView::of_pair(left, right)),
                    )
                },
            },
        }
    }
}

/// No cluster grows beyond what its pairs can name.
pub open spec fn stays_small(pairings: Seq<DualPortPairing>, open: Option<ClusterView>) -> bool
    decreases pairings.len(),
{
    &&& open matches Some(cluster) ==> cluster.is_small()
    &&& pairings.len() > 0 ==> {
        let rest = pairings.drop_first();
        match pairings[0] {
            DualPortPairing::Pair(left, right) => match open {
                Some(cluster) if cluster.touches(left, right) => stays_small(
                    rest,
                    Some(cluster.joined(left, right)),
                ),
                _ => stays_small(rest, Some(ClusterView::of_pair(left, right))),
            },
            _ => stays_small(rest, open),
        }
    }
}

pub struct DualPortIterator {
    pairwise_iter: DualPortPairingIterator,
    photonic_cluster: Option<PhotonicCluster>,
}

impl DualPortIterator {
    pub closed spec fn pairings(self) -> Seq<DualPortPairing> {
        self.pairwise_iter.remaining()
    }

    pub closed spec fn open(self) -> Option<ClusterView> {
        match self.photonic_cluster {
            Some(cluster) => Some(cluster@),
            None => None,
        }
    }

    /// What is still to come.
    pub open spec fn remaining(self) -> Seq<ClusterItem> {
        clustered(self.pairings(), self.open())
    }

    pub closed spec fn wf(self) -> bool {
        self.pairwise_iter.wf() && stays_small(self.pairings(), self.open())
    }

    /// Clusters of more than 256 packets of one port have no place in this.
    pub fn new(left: WpBatch, right: WpBatch) -> (iter: Self)
        requires
            all_fit(left.batch@),
            all_fit(right.batch@),
            stays_small(
                pairings_of(
                    left.batch@,
                    right.batch@,
                    findings(left.batch@, right.batch@, sweep_start()),
                ),
                None,
            ),
        ensures
            iter.wf(),
            iter.remaining() == clustered(
                pairings_of(
                    left.batch@,
                    right.batch@,
                    findings(left.batch@, right.batch@, sweep_start()),
                ),
                None,
            ),
    {
        Self { pairwise_iter: DualPortPairingIterator::new(left, right), photonic_cluster: None }
    }

    pub fn next(&mut self) -> (item: Option<DualPortCluster>)
        requires
            old(self).wf(),
        ensures
            final(self).wf(),
            item is None <==> old(self).remaining().len() == 0,
            item is None ==> final(self).remaining().len() == 0,
            item matches Some(i) ==> i@ == old(self).remaining()[0] && final(self).remaining()
                == old(self).remaining().drop_first(),
    {
        let ghost goal = self.remaining();
        loop
            invariant
                self.wf(),
                goal == self.remaining(),
                goal == old(self).remaining(),
            ensures
                self.wf(),
                self.pairings().len() == 0,
                goal == self.remaining(),
                goal == old(self).remaining(),
            decreases self.pairings().len(),
        {
            let ghost before = self.pairings();
            let ghost open = self.open();
            let next = match self.pairwise_iter.next() {
                Some(next) => next,
                None => {
                    break;
                },
            };
            let ghost rest = before.drop_first();
            match next {
                DualPortPairing::LeftIsolate(wp) => {
                    let item = DualPortCluster::LeftIsolate(wp);
                    assert((seq![item@] + clustered(rest, open)).drop_first() =~= clustered(
                        rest,
                        open,
                    ));
                    return Some(item);
                },
                DualPortPairing::RightIsolate(wp) => {
                    let item = DualPortCluster::RightIsolate(wp);
                    assert((seq![item@] + clustered(rest, open)).drop_first() =~= clustered(
                        rest,
                        open,
                    ));
                    return Some(item);
                },
                DualPortPairing::Pair(wp_left, wp_right) => {
                    let mut old_cluster: Option<PhotonicCluster> = None;
                    std::mem::swap(&mut old_cluster, &mut self.photonic_cluster);
                    match old_cluster {
                        Some(cluster) => {
                            let mut cluster = cluster;
                            let left_index = cluster.left_indexof(&wp_left);
                            let right_index = cluster.right_indexof(&wp_right);
                            if left_index.is_some() || right_index.is_some() {
                                proof {
                                    reveal_with_fuel(stays_small, 2);
                                }
                                cluster.join(wp_left, wp_right, left_index, right_index);
                                self.photonic_cluster = Some(cluster);
                            } else {
                                self.photonic_cluster = Some(
                                    PhotonicCluster::new(wp_left, wp_right),
                                );
                                let item = DualPortCluster::Cluster(cluster);
                                assert((seq![item@] + clustered(
                                    rest,
                                    self.open(),
                                )).drop_first() =~= clustered(rest, self.open()));
                                return Some(item);
                            }
                        },
                        None => {
                            self.photonic_cluster = Some(PhotonicCluster::new(wp_left, wp_right));
                        },
                    }
                },
            }
        }
        let mut last: Option<PhotonicCluster> = None;
        std::mem::swap(&mut last, &mut self.photonic_cluster);
        match last {
            Some(cluster) => {
                let item = DualPortCluster::Cluster(cluster);
                assert(goal =~= seq![item@]);
                assert(goal.drop_first() =~= seq![]);
                Some(item)
            },
            None => None,
        }
    }
}

/// The donors have come to the recipient: in place of each is a tombstone that leads there, and
/// the recipient knows every packet that one of them knew, and its own. No other cell is
/// touched.
pub open spec fn have_come_together(
    before: SliceView,
    after: SliceView,
    donors: Seq<u32>,
    recipient: u32,
) -> bool {
    &&& after.wf()
    &&& after.indices == before.indices
    &&& forall|k: int|
        0 <= k < donors.len() ==> (after.cell(#[trigger] donors[k]) matches CellView::Tombstone(
            tombstone,
        ) && tombstone.move_destination == recipient)
    &&& donors.len() > 0 ==> after.cell(recipient) is Island
    &&& forall|handle: u32, id: u32|
        #![trigger before.holds(handle), knows(after, recipient, id)]
        before.holds(handle) && (handle == recipient || donors.contains(handle)) && knows(
            before,
            handle,
            id,
        ) ==> knows(after, recipient, id)
    &&& forall|handle: u32| #[trigger]
        before.holds(handle) && handle != recipient && !donors.contains(handle) ==> after.cell(
            handle,
        ) == before.cell(handle)
}

/// The island behind the handle knows the packet.
pub open spec fn knows(slice: SliceView, handle: u32, id: u32) -> bool {
    slice.cell(handle) matches CellView::Island(island) && island.has_packet(id)
}

/// States that are merged one after the other all come to the recipient.
pub proof fn merged_states_come_together(slice: SliceView, donors: Seq<u32>, recipient: u32)
    requires
        slice.wf(),
        merged_in_turn(slice, donors, recipient) is Some,
    ensures
        have_come_together(
            slice,
            merged_in_turn(slice, donors, recipient)->0,
            donors,
            recipient,
        ),
    decreases donors.len(),
{
    if donors.len() > 0 {
        let rest = donors.drop_last();
        let last = donors.last();
        merged_states_come_together(slice, rest, recipient);
        let middle = merged_in_turn(slice, rest, recipient)->0;
        let after = middle.merged(last, recipient);
        merging_leaves_a_tombstone(middle, last, recipient);
        let d = middle.cell(last)->Island_0;
        let r = middle.cell(recipient)->Island_0;
        let now = after.cell(recipient)->Island_0;
        assert(donors[donors.len() - 1] == last);
        assert forall|k: int| 0 <= k < donors.len() implies (after.cell(
            #[trigger] donors[k],
        ) matches CellView::Tombstone(tombstone) && tombstone.move_destination == recipient) by {
            if k < rest.len() {
                assert(rest[k] == donors[k]);
                assert(middle.cell(rest[k]) is Tombstone);
                lemma_holds_donor(slice, rest, recipient, k);
                assert(middle.holds(donors[k]));
                assert(donors[k] != last && donors[k] != recipient);
            }
        }
        assert forall|handle: u32, id: u32|
            #![trigger slice.holds(handle), knows(after, recipient, id)]
            slice.holds(handle) && (handle == recipient || donors.contains(handle)) && knows(
                slice,
                handle,
                id,
            ) implies knows(after, recipient, id) by {
            if handle == recipient || rest.contains(handle) {
                assert(knows(middle, recipient, id));
                assert(r.has_packet(id));
                assert(same_flight(r, now, id));
            } else {
                let k = donors.index_of(handle);
                if k < rest.len() {
                    assert(rest[k] == handle);
                }
                assert(handle == last);
                assert(middle.cell(last) == slice.cell(last));
                assert(d.has_packet(id));
                if r.has_packet(id) {
                    assert(same_flight(r, now, id));
                }
            }
        }
        assert forall|handle: u32| #[trigger]
            slice.holds(handle) && handle != recipient && !donors.contains(handle) implies after.cell(
            handle,
        ) == slice.cell(handle) by {
            if rest.contains(handle) {
                let k = rest.index_of(handle);
                assert(donors[k] == handle);
            }
            assert(handle != last);
            assert(middle.holds(handle));
        }
    } else {
        assert(merged_in_turn(slice, donors, recipient) == Some(slice));
    }
}

proof fn lemma_holds_donor(slice: SliceView, donors: Seq<u32>, recipient: u32, k: int)
    requires
        slice.wf(),
        merged_in_turn(slice, donors, recipient) is Some,
        0 <= k < donors.len(),
    ensures
        slice.holds(donors[k]),
        donors[k] != recipient,
    decreases donors.len(),
{
    let rest = donors.drop_last();
    merged_in_turn_keeps_handles(slice, rest, recipient);
    if k < rest.len() {
        lemma_holds_donor(slice, rest, recipient, k);
    }
}

proof fn merged_in_turn_keeps_handles(slice: SliceView, donors: Seq<u32>, recipient: u32)
    requires
        merged_in_turn(slice, donors, recipient) is Some,
    ensures
        (merged_in_turn(slice, donors, recipient)->0).indices == slice.indices,
    decreases donors.len(),
{
    if donors.len() > 0 {
        merged_in_turn_keeps_handles(slice, donors.drop_last(), recipient);
    }
}

/// Packets that all get one state keep all else.
pub proof fn packets_of_one_state_keep_all_else(packets: Seq<WavePacket>, handle: u32, i: int)
    requires
        0 <= i < packets.len(),
    ensures
        all_with_state(packets, handle).len() == packets.len(),
        all_with_state(packets, handle)[i].state_handle == handle,
        is_same_packet(all_with_state(packets, handle)[i], packets[i]),
{
}

/// The states of the packets of a cluster come together in that of its first packet: each
/// handle is the first one, or is among those that come to it.
pub proof fn the_states_of_a_cluster_come_together(slice: SliceView, handles: Seq<u32>)
    requires
        slice.wf(),
        handles.len() > 0,
        states_merged(slice, handles) is Some,
    ensures
        ({
            let donors = first_comers(handles).drop_first();
            &&& have_come_together(slice, states_merged(slice, handles)->0, donors, handles[0])
            &&& forall|k: int|
                0 <= k < handles.len() ==> #[trigger] handles[k] == handles[0] || donors.contains(
                    handles[k],
                )
            &&& forall|k: int|
                0 <= k < donors.len() ==> handles.contains(#[trigger] donors[k]) && donors[k]
                    != handles[0]
        }),
{
    let all = first_comers(handles);
    lemma_first_comers_start(handles);
    let donors = all.drop_first();
    merged_states_come_together(slice, donors, handles[0]);
    lemma_first_comers(handles);
    assert forall|k: int| 0 <= k < handles.len() implies #[trigger] handles[k] == handles[0]
        || donors.contains(handles[k]) by {
        assert(handles.contains(handles[k]));
        assert(all.contains(handles[k]));
        let i = all.index_of(handles[k]);
        if i > 0 {
            assert(donors[i - 1] == handles[k]);
        }
    }
    assert forall|k: int| 0 <= k < donors.len() implies handles.contains(#[trigger] donors[k])
        && donors[k] != handles[0] by {
        assert(all[k + 1] == donors[k]);
        assert(all.contains(all[k + 1]));
        assert(all[0] != all[k + 1]);
    }
}

proof fn lemma_first_comers(handles: Seq<u32>)
    ensures
        first_comers(handles).no_duplicates(),
        forall|h: u32| #[trigger] first_comers(handles).contains(h) <==> handles.contains(h),
    decreases handles.len(),
{
    if handles.len() > 0 {
        let rest = handles.drop_last();
        let last = handles.last();
        lemma_first_comers(rest);
        let earlier = first_comers(rest);
        let all = first_comers(handles);
        assert forall|h: u32| #[trigger] all.contains(h) <==> handles.contains(h) by {
            if handles.contains(h) {
                let k = handles.index_of(h);
                if k < rest.len() {
                    assert(rest[k] == h);
                    assert(earlier.contains(h));
                    let i = earlier.index_of(h);
                    assert(all[i] == h);
                } else if !earlier.contains(last) {
                    assert(all[earlier.len() as int] == last);
                } else {
                    assert(all == earlier);
                }
            }
            if all.contains(h) {
                let i = all.index_of(h);
                if i < earlier.len() {
                    assert(earlier[i] == h);
                    assert(earlier.contains(h));
                    assert(rest.contains(h));
                    let k = rest.index_of(h);
                    assert(handles[k] == h);
                } else {
                    assert(handles[handles.len() - 1] == h);
                }
            }
        }
    }
}

} // verus!
