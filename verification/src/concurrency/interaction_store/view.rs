//! What the interaction store holds, and what its operations make of it.

use vstd::prelude::*;

use crate::concurrency::cell::{detection_of, first_result_for, CellView, Tombstone};
use crate::concurrency::registry::{CellState, RegistryView};
use crate::concurrency::slice::{lemma_refs_left, refs_left, SliceView};
use crate::nodes::packet::WavePacket;
use crate::types::{handle_at, Time};
use crate::util::power::{is_power_of_two, next_power};

verus! {

/// How the look at the packets' handles went.
#[derive(Clone, Copy, Debug, PartialEq, Eq, Structural)]
pub enum Turn {
    /// Every packet leads to a cell that nobody holds.
    Clear,
    /// A cell is held by another worker.
    Blocked,
    /// A packet leads to a cell that is retired.
    Stale,
    /// A cell is marked as moved, but holds no tombstone with a reference left.
    Broken,
}

/// The states of the slots, and the cells in them.
#[verifier::ext_equal]
pub struct StoreView {
    pub registry: RegistryView,
    pub cells: Seq<CellView>,
}

impl StoreView {
    pub open spec fn slot(self, handle: u32) -> int {
        handle as int % self.cells.len() as int
    }

    pub open spec fn state(self, handle: u32) -> CellState {
        self.registry.state(handle)
    }

    pub open spec fn cell(self, handle: u32) -> CellView {
        self.cells[self.slot(handle)]
    }

    pub open spec fn with_state(self, handle: u32, state: CellState) -> StoreView {
        StoreView { registry: self.registry.with_state(handle, state), ..self }
    }

    pub open spec fn with_cell(self, handle: u32, cell: CellView) -> StoreView {
        StoreView { cells: self.cells.update(self.slot(handle), cell), ..self }
    }

    /// A ring with a cell for every slot and a slot for every handle in use.
    pub open spec fn wf(self) -> bool {
        &&& self.cells.len() == self.registry.slots.len()
        &&& is_power_of_two(self.cells.len())
        &&& 32 <= self.cells.len() <= 0x8000_0000
        &&& self.cells.len() % 32 == 0
        &&& self.registry.count() <= self.cells.len()
    }

    /// Where a slot is marked as moved, a tombstone waits for packets.
    pub open spec fn is_sound(self) -> bool {
        forall|p: int|
            0 <= p < self.cells.len() && self.registry.slots[p] == CellState::Moved ==> (
            #[trigger] self.cells[p] matches CellView::Tombstone(tombstone)
                && tombstone.ref_cnt > 0)
    }

    /// The store after one packet has passed the tombstone: one reference less, and
    /// the cell retired with the last.
    pub open spec fn past_tombstone(self, handle: u32) -> StoreView {
        let tombstone = self.cell(handle)->Tombstone_0;
        if tombstone.ref_cnt == 1 {
            self.with_state(handle, CellState::Retired).with_cell(handle, CellView::Vacant)
        } else {
            self.with_cell(
                handle,
                CellView::Tombstone(
                    Tombstone {
                        ref_cnt: (tombstone.ref_cnt - 1) as u8,
                        move_destination: tombstone.move_destination,
                    },
                ),
            )
        }
    }

    /// The handle that the tombstones lead to, and the store after the packet has
    /// passed them. There is none where a cell marked as moved holds no tombstone
    /// with a reference left.
    pub open spec fn led_from(self, handle: u32) -> Option<(StoreView, u32)>
        decreases refs_left(self.cells),
    {
        if self.state(handle) != CellState::Moved {
            Some((self, handle))
        } else {
            match self.cell(handle) {
                CellView::Tombstone(tombstone) => if tombstone.ref_cnt == 0
                    || self.cells.len() == 0 {
                    None
                } else {
                    proof {
                        lemma_refs_left(
                            self.cells,
                            self.slot(handle),
                            self.past_tombstone(handle).cell(handle),
                        );
                    }
                    self.past_tombstone(handle).led_from(tombstone.move_destination)
                },
                _ => None,
            }
        }
    }
}

/// The packet, with its state found under another handle.
pub open spec fn readdressed(wp: WavePacket, handle: u32) -> WavePacket {
    WavePacket { state_handle: handle, ..wp }
}

/// One packet after the other is led past the tombstones, until one is not led to a
/// cell that is free.
pub open spec fn settle(store: StoreView, packets: Seq<WavePacket>) -> (
    StoreView,
    Seq<WavePacket>,
    Turn,
)
    decreases packets.len(),
{
    if packets.len() == 0 {
        (store, packets, Turn::Clear)
    } else {
        match store.led_from(packets[0].state_handle) {
            None => (store, packets, Turn::Broken),
            Some((led, handle)) => {
                let now = packets.update(0, readdressed(packets[0], handle));
                match led.state(handle) {
                    CellState::Retired => (led, now, Turn::Stale),
                    CellState::Locked => (led, now, Turn::Blocked),
                    _ => {
                        let (end, rest, turn) = settle(led, packets.drop_first());
                        (end, seq![now[0]] + rest, turn)
                    },
                }
            },
        }
    }
}

/// One more handle is taken: its slot is locked, and its cell is in the slice.
pub open spec fn take(store: StoreView, slice: SliceView, handle: u32) -> (StoreView, SliceView) {
    let locked = store.with_state(handle, CellState::Locked);
    if slice.holds(handle) {
        (locked, slice)
    } else {
        (
            locked.with_cell(handle, CellView::Vacant),
            SliceView {
                indices: slice.indices.push(handle),
                cells: slice.cells.push(store.cell(handle)),
                ..slice
            },
        )
    }
}

pub open spec fn empty_slice() -> SliceView {
    SliceView { indices: seq![], cells: seq![], retired: seq![], moved: seq![] }
}

/// The store and the slice after the handles were taken one by one.
pub open spec fn taken(store: StoreView, handles: Seq<u32>) -> (StoreView, SliceView)
    decreases handles.len(),
{
    if handles.len() == 0 {
        (store, empty_slice())
    } else {
        let (before, slice) = taken(store, handles.drop_last());
        take(before, slice, handles.last())
    }
}

/// The handles of the packets.
pub open spec fn handles_of(packets: Seq<WavePacket>) -> Seq<u32> {
    packets.map_values(|wp: WavePacket| wp.state_handle)
}

/// The packets of all batches, batch after batch.
pub open spec fn flat(batches: Seq<Vec<WavePacket>>) -> Seq<WavePacket>
    decreases batches.len(),
{
    if batches.len() == 0 {
        seq![]
    } else {
        flat(batches.drop_last()) + batches.last()@
    }
}

/// Settling two runs of packets is settling the first, and then, if all went well,
/// the second.
pub proof fn lemma_settle_in_turn(store: StoreView, first: Seq<WavePacket>, second: Seq<WavePacket>)
    ensures
        settle(store, first).1.len() == first.len(),
        settle(store, first + second) == ({
            let (middle, led, turn) = settle(store, first);
            if turn is Clear {
                let (end, rest, turn) = settle(middle, second);
                (end, led + rest, turn)
            } else {
                (middle, led + second, turn)
            }
        }),
    decreases first.len(),
{
    let both = first + second;
    if first.len() == 0 {
        assert(both =~= second);
        let (end, rest, turn) = settle(store, second);
        assert(first + rest =~= rest);
    } else {
        assert(both[0] == first[0]);
        match store.led_from(first[0].state_handle) {
            None => {},
            Some((led, handle)) => {
                let wp = readdressed(first[0], handle);
                assert(both.update(0, wp) =~= first.update(0, wp) + second);
                if led.state(handle) != CellState::Retired && led.state(handle)
                    != CellState::Locked {
                    assert(both.drop_first() =~= first.drop_first() + second);
                    lemma_settle_in_turn(led, first.drop_first(), second);
                    let (middle, packets, turn) = settle(led, first.drop_first());
                    let (end, rest, after) = settle(middle, second);
                    assert(seq![wp] + (packets + rest) =~= (seq![wp] + packets) + rest);
                    assert(seq![wp] + (packets + second) =~= (seq![wp] + packets) + second);
                }
            },
        }
    }
}

/// Taking a handle again changes nothing.
pub proof fn lemma_take_again(store: StoreView, slice: SliceView, handle: u32)
    requires
        store.cells.len() == store.registry.slots.len(),
        store.cells.len() > 0,
    ensures
        ({
            let (once, held) = take(store, slice, handle);
            take(once, held, handle) == (once, held)
        }),
{
    let (once, held) = take(store, slice, handle);
    assert(held.holds(handle)) by {
        if !slice.holds(handle) {
            assert(held.indices[slice.indices.len() as int] == handle);
        }
    }
    assert(once.with_state(handle, CellState::Locked) =~= once);
}

/// The handles in use have the same states and cells, in that many slots.
pub open spec fn relocated(before: StoreView, after: StoreView, slots: nat) -> bool {
    &&& after.cells.len() == slots
    &&& after.registry.slots.len() == slots
    &&& after.registry.start == before.registry.start
    &&& after.registry.end == before.registry.end
    &&& after.registry.live() == before.registry.live()
    &&& forall|k: int|
        #![trigger handle_at(before.registry.start, k)]
        0 <= k < before.registry.count() ==> after.cell(handle_at(before.registry.start, k))
            == before.cell(handle_at(before.registry.start, k))
}

/// The slots that a store with so many handles in use gets for `n` more.
pub open spec fn slots_with(before: StoreView, n: u32) -> nat {
    if before.registry.count() + n > before.cells.len() {
        next_power((before.registry.count() + n) as nat)
    } else {
        before.cells.len()
    }
}

/// The store with the slots of the handles free.
pub open spec fn freed(store: StoreView, handles: Seq<u32>) -> StoreView
    decreases handles.len(),
{
    if handles.len() == 0 {
        store
    } else {
        freed(store, handles.drop_last()).with_state(handles.last(), CellState::Free)
    }
}

/// The store with the slots marked where tombstones were left: retired if no packet
/// will ask, moved otherwise.
pub open spec fn marked(store: StoreView, slice: SliceView, moved: Seq<u32>) -> StoreView
    decreases moved.len(),
{
    if moved.len() == 0 {
        store
    } else {
        let tombstone = slice.cell(moved.last())->Tombstone_0;
        marked(store, slice, moved.drop_last()).with_state(
            moved.last(),
            if tombstone.ref_cnt == 0 {
                CellState::Retired
            } else {
                CellState::Moved
            },
        )
    }
}

/// The store with the handles retired and their cells dropped.
pub open spec fn without(store: StoreView, retired: Seq<u32>) -> StoreView
    decreases retired.len(),
{
    if retired.len() == 0 {
        store
    } else {
        without(store, retired.drop_last()).with_state(
            retired.last(),
            CellState::Retired,
        ).with_cell(retired.last(), CellView::Vacant)
    }
}

/// The store with the first `n` cells of the slice back in place, but for those
/// that are retired.
pub open spec fn put_back(store: StoreView, slice: SliceView, n: nat) -> StoreView
    decreases n,
{
    if n == 0 {
        store
    } else {
        let before = put_back(store, slice, (n - 1) as nat);
        let handle = slice.indices[n - 1];
        if store.state(handle) == CellState::Retired {
            before
        } else {
            before.with_cell(handle, slice.cells[n - 1])
        }
    }
}

/// The registry without the retired handles at its front.
pub open spec fn trimmed(registry: RegistryView) -> RegistryView
    decreases registry.count(),
{
    if registry.count() > 0 && registry.state(registry.start) == CellState::Retired {
        trimmed(RegistryView { start: handle_at(registry.start, 1), ..registry })
    } else {
        registry
    }
}

/// The store after a worker has given its slice back.
pub open spec fn given_back(store: StoreView, slice: SliceView) -> StoreView {
    let ready = without(
        marked(freed(store, slice.indices), slice, slice.moved),
        slice.retired,
    );
    let filled = put_back(ready, slice, slice.indices.len());
    StoreView { registry: trimmed(filled.registry), ..filled }
}

/// Every packet's cell is there and holds results.
pub open spec fn all_collapsed(store: StoreView, packets: Seq<WavePacket>) -> bool {
    forall|k: int|
        0 <= k < packets.len() ==> store.state((#[trigger] packets[k]).state_handle)
            != CellState::Locked && store.cell(packets[k].state_handle) is Result
}

/// The results in the packet's cell name it.
pub open spec fn is_known(store: StoreView, wp: WavePacket) -> bool {
    let results = store.cell(wp.state_handle)->Result_0;
    first_result_for(results, wp.snowflake) < results.len()
}

pub open spec fn all_known(store: StoreView, packets: Seq<WavePacket>) -> bool {
    forall|k: int| 0 <= k < packets.len() ==> is_known(store, #[trigger] packets[k])
}

/// When the packets were seen, in their order, without those that were not.
pub open spec fn detections(store: StoreView, packets: Seq<WavePacket>) -> Seq<Time>
    decreases packets.len(),
{
    if packets.len() == 0 {
        seq![]
    } else {
        let earlier = detections(store, packets.drop_last());
        match detection_of(
            store.cell(packets.last().state_handle)->Result_0,
            packets.last(),
        ) {
            Some(time) => earlier.push(time),
            None => earlier,
        }
    }
}

/// As many batches, each as long as before.
pub open spec fn same_shape(before: Seq<Vec<WavePacket>>, after: Seq<Vec<WavePacket>>) -> bool {
    &&& before.len() == after.len()
    &&& forall|b: int| 0 <= b < before.len() ==> (#[trigger] before[b])@.len() == after[b]@.len()
}

pub proof fn lemma_taken_sized(store: StoreView, handles: Seq<u32>)
    requires
        store.cells.len() == store.registry.slots.len(),
        store.cells.len() > 0,
    ensures
        taken(store, handles).0.cells.len() == store.cells.len(),
        taken(store, handles).0.registry.slots.len() == store.cells.len(),
    decreases handles.len(),
{
    if handles.len() > 0 {
        lemma_taken_sized(store, handles.drop_last());
    }
}

pub proof fn lemma_flat_splits(batches: Seq<Vec<WavePacket>>, b: int)
    requires
        0 <= b <= batches.len(),
    ensures
        flat(batches) == flat(batches.take(b)) + flat(batches.skip(b)),
    decreases batches.len(),
{
    if b == batches.len() {
        assert(batches.take(b) =~= batches);
        assert(batches.skip(b) =~= seq![]);
        assert(flat(batches) =~= flat(batches) + flat(batches.skip(b)));
    } else {
        lemma_flat_splits(batches.drop_last(), b);
        assert(batches.drop_last().take(b) =~= batches.take(b));
        assert(batches.drop_last().skip(b) =~= batches.skip(b).drop_last());
        assert(batches.skip(b).last() == batches.last());
        assert(flat(batches) =~= flat(batches.take(b)) + flat(batches.skip(b)));
    }
}

} // verus!
