//! The ring of cells that all workers share.

mod claim;
mod growth;
mod release;
pub mod view;

use vstd::prelude::*;

use crate::concurrency::cell::{CellView, InteractionCell, Tombstone};
use crate::concurrency::interaction_store::view::{
    all_collapsed, all_known, detections, flat, given_back, handles_of, is_known, readdressed,
    same_shape, settle, slots_with, taken, StoreView, Turn,
};
use crate::concurrency::registry::{CellState, CellStateRegistry, RegistryView};
use crate::concurrency::slice::{
    cell_views, lemma_refs_left, refs_left, InteractionStoreSlice, SliceView,
};
use crate::nodes::packet::WavePacket;
use crate::types::{handle_at, handle_range, Time};
use crate::util::power::is_power_of_two;

verus! {

/// The registry and the cells, as one thread at a time works on them.
pub struct StoreData {
    registry: CellStateRegistry,
    buff: Vec<InteractionCell>,
}

impl View for StoreData {
    type V = StoreView;

    closed spec fn view(&self) -> StoreView {
        StoreView { registry: self.registry@, cells: cell_views(self.buff@) }
    }
}

/// That many empty cells.
fn vacant_cells(n: usize) -> (cells: Vec<InteractionCell>)
    ensures
        cells@.len() == n,
        cell_views(cells@) == Seq::new(n as nat, |p: int| CellView::Vacant),
{
    let mut cells: Vec<InteractionCell> = Vec::new();
    while cells.len() < n
        invariant
            cells@.len() <= n,
            forall|p: int|
                0 <= p < cells@.len() ==> #[trigger] cells@[p] == InteractionCell::Vacant,
        decreases n - cells@.len(),
    {
        cells.push(InteractionCell::Vacant);
    }
    assert(cell_views(cells@) =~= Seq::new(n as nat, |p: int| CellView::Vacant));
    cells
}

impl StoreData {
    pub closed spec fn wf(self) -> bool {
        self.registry.wf() && self@.wf()
    }

    pub proof fn is_a_ring(self)
        requires
            self.wf(),
        ensures
            self@.wf(),
    {
    }

    pub fn with_capacity(capacity: usize) -> (data: Self)
        requires
            is_power_of_two(capacity as nat),
            capacity % 32 == 0,
            capacity <= 0x8000_0000,
        ensures
            data.wf(),
            data@.cells == Seq::new(capacity as nat, |p: int| CellView::Vacant),
            data@.registry == (RegistryView {
                slots: Seq::new(capacity as nat, |p: int| CellState::Free),
                start: 0,
                end: 0,
            }),
    {
        Self {
            registry: CellStateRegistry::with_capacity(capacity),
            buff: vacant_cells(capacity),
        }
    }

    fn to_index(&self, handle: u32) -> (slot: usize)
        requires
            self.wf(),
        ensures
            slot == self@.slot(handle),
            slot < self.buff@.len(),
    {
        handle as usize % self.buff.len()
    }

    fn put_cell(&mut self, slot: usize, cell: InteractionCell)
        requires
            slot < old(self).buff@.len(),
        ensures
            final(self).registry == old(self).registry,
            final(self)@ == (StoreView {
                cells: old(self)@.cells.update(slot as int, cell@),
                ..old(self)@
            }),
    {
        let ghost before = self.buff@;
        let ghost new_cell = cell@;
        self.buff.set(slot, cell);
        assert(cell_views(self.buff@) =~= cell_views(before).update(slot as int, new_cell));
    }

    fn take_cell(&mut self, slot: usize) -> (cell: InteractionCell)
        requires
            slot < old(self).buff@.len(),
        ensures
            final(self).registry == old(self).registry,
            cell@ == old(self)@.cells[slot as int],
            final(self)@ == (StoreView {
                cells: old(self)@.cells.update(slot as int, CellView::Vacant),
                ..old(self)@
            }),
    {
        let ghost before = self.buff@;
        let mut cell = InteractionCell::Vacant;
        std::mem::swap(&mut cell, &mut self.buff[slot]);
        assert(cell_views(self.buff@) =~= cell_views(before).update(
            slot as int,
            CellView::Vacant,
        ));
        cell
    }

    /// Follows the tombstones from a handle, and uses up one reference of each.
    fn follow(&mut self, handle: u32) -> (found: Option<u32>)
        requires
            old(self).wf(),
        ensures
            final(self).wf(),
            found is None <==> old(self)@.led_from(handle) is None,
            found matches Some(h) ==> old(self)@.led_from(handle) == Some((final(self)@, h)),
    {
        let ghost goal = self@.led_from(handle);
        let mut at: u32 = handle;
        while self.registry.get(at) == CellState::Moved
            invariant
                self.wf(),
                goal == self@.led_from(at),
                goal == old(self)@.led_from(handle),
            decreases refs_left(self@.cells),
        {
            let ghost before = self@;
            let slot: usize = self.to_index(at);
            let tombstone = match &self.buff[slot] {
                InteractionCell::Tombstone(tombstone) => *tombstone,
                _ => {
                    return None;
                },
            };
            if tombstone.ref_cnt == 0 {
                return None;
            }
            proof {
                lemma_refs_left(
                    before.cells,
                    slot as int,
                    before.past_tombstone(at).cell(at),
                );
            }
            if tombstone.ref_cnt == 1 {
                self.registry.set(at, CellState::Retired);
                self.put_cell(slot, InteractionCell::Vacant);
            } else {
                self.put_cell(
                    slot,
                    InteractionCell::Tombstone(
                        Tombstone {
                            ref_cnt: tombstone.ref_cnt - 1,
                            move_destination: tombstone.move_destination,
                        },
                    ),
                );
            }
            assert(self@ =~= before.past_tombstone(at));
            at = tombstone.move_destination;
        }
        Some(at)
    }

    /// Leads the packets of one batch past the tombstones.
    fn settle_batch(&mut self, batch: &mut Vec<WavePacket>) -> (turn: Turn)
        requires
            old(self).wf(),
        ensures
            final(self).wf(),
            turn == settle(old(self)@, old(batch)@).2,
            !(turn is Broken) ==> settle(old(self)@, old(batch)@) == (
                final(self)@,
                final(batch)@,
                turn,
            ),
            final(batch)@.len() == old(batch)@.len(),
    {
        let ghost start = self@;
        let ghost all = batch@;
        let mut i: usize = 0;
        assert(all.take(0) =~= seq![]);
        assert(all.skip(0) =~= all);
        while i < batch.len()
            invariant
                self.wf(),
                i <= batch@.len(),
                all == old(batch)@,
                start == old(self)@,
                batch@.len() == all.len(),
                batch@.skip(i as int) == all.skip(i as int),
                settle(start, all) == ({
                    let (end, rest, turn) = settle(self@, all.skip(i as int));
                    (end, batch@.take(i as int) + rest, turn)
                }),
            decreases batch@.len() - i,
        {
            let ghost rest = all.skip(i as int);
            let ghost done = batch@.take(i as int);
            assert(batch@[i as int] == batch@.skip(i as int)[0]);
            let mut wp = batch[i];
            assert(wp == rest[0]);
            let ghost before = self@;
            let handle: u32 = match self.follow(wp.state_handle) {
                Some(handle) => handle,
                None => {
                    return Turn::Broken;
                },
            };
            wp.state_handle = handle;
            let ghost earlier = batch@;
            batch.set(i, wp);
            proof {
                assert(wp == readdressed(rest[0], handle));
                assert(done + rest.update(0, wp) =~= batch@) by {
                    assert forall|k: int| 0 <= k < batch@.len() implies (done + rest.update(0, wp))[k]
                        == batch@[k] by {
                        if k > i {
                            assert(earlier.skip(i as int)[k - i] == earlier[k]);
                        }
                    }
                }
            }
            let state = self.registry.get(handle);
            if state == CellState::Retired {
                return Turn::Stale;
            }
            if state == CellState::Locked {
                return Turn::Blocked;
            }
            proof {
                assert(rest.drop_first() =~= all.skip(i + 1));
                let (end, tail, turn) = settle(self@, all.skip(i + 1));
                assert(settle(before, rest) == (end, seq![wp] + tail, turn));
                assert(batch@.take(i + 1) + tail =~= done + (seq![wp] + tail));
                let next = batch@.skip(i + 1);
                let next_all = all.skip(i + 1);
                assert forall|k: int| 0 <= k < next.len() implies #[trigger] next[k]
                    == next_all[k] by {
                    assert(earlier.skip(i as int)[k + 1] == all.skip(i as int)[k + 1]);
                }
                assert(next =~= next_all);
            }
            i += 1;
        }
        proof {
            assert(all.skip(i as int) =~= seq![]);
            assert(batch@.take(i as int) =~= batch@);
            assert(batch@.take(i as int) + Seq::<WavePacket>::empty() =~= batch@);
        }
        Turn::Clear
    }
}

/// What became of the wish for cells.
pub enum Claim {
    Granted(InteractionStoreSlice),
    /// Some cell is held by another worker: to be tried again when it gives back.
    Blocked,
    /// A packet leads to a cell that is retired.
    Stale,
    /// A cell is marked as moved, but holds no tombstone with a reference left.
    Broken,
}

/// The cells of all workers, behind one lock.
pub struct InteractionStore {
    data: StoreData,
}

impl View for InteractionStore {
    type V = StoreView;

    closed spec fn view(&self) -> StoreView {
        self.data@
    }
}

/// The number of cells to start with.
pub const INIT_BUFF_SIZE: usize = 512;

/// What a wish for the states of packets leads to: the store, the packets with their
/// handles, and the slice where it is granted.
pub open spec fn claims(
    before: StoreView,
    packets: Seq<WavePacket>,
    after: StoreView,
    led: Seq<WavePacket>,
    claim: Claim,
) -> bool {
    let (settled, addressed, turn) = settle(before, packets);
    match claim {
        Claim::Granted(slice) => {
            &&& turn is Clear
            &&& led == addressed
            &&& slice.wf()
            &&& (after, slice@) == taken(settled, handles_of(led))
        },
        Claim::Blocked => turn is Blocked && led == addressed && after == settled,
        Claim::Stale => turn is Stale && led == addressed && after == settled,
        Claim::Broken => turn is Broken,
    }
}

impl InteractionStore {
    pub closed spec fn wf(self) -> bool {
        self.data.wf()
    }

    /// The store is a ring: a cell for every slot, a slot for every handle in use.
    pub proof fn is_a_ring(self)
        requires
            self.wf(),
        ensures
            self@.wf(),
    {
    }

    pub fn new() -> (store: Self)
        ensures
            store.wf(),
            store@ == (StoreView {
                registry: RegistryView {
                    slots: Seq::new(INIT_BUFF_SIZE as nat, |p: int| CellState::Free),
                    start: 0,
                    end: 0,
                },
                cells: Seq::new(INIT_BUFF_SIZE as nat, |p: int| CellView::Vacant),
            }),
    {
        proof {
            reveal_with_fuel(is_power_of_two, 10);
        }
        Self { data: StoreData::with_capacity(INIT_BUFF_SIZE) }
    }

    /// Whether the handles suffice for `n` more cells.
    pub fn has_room_for(&self, n: u32) -> (room: bool)
        requires
            self.wf(),
        ensures
            room == (self@.registry.count() + n <= 0x8000_0000),
    {
        self.data.registry.len() as u64 + n as u64 <= 0x8000_0000
    }

    /// Takes `n` new cells into use and hands them out, empty, with the handles that
    /// they lie between. (States are created in batches, by the sources. They are
    /// only merged afterwards.)
    pub fn create_states(&mut self, n: u32) -> (created: (InteractionStoreSlice, u32, u32))
        requires
            old(self).wf(),
            old(self)@.registry.count() + n <= 0x8000_0000,
        ensures
            final(self).wf(),
            created.0.wf(),
            created.1 == old(self)@.registry.end,
            created.2 == handle_at(created.1, n as int),
            created.0@ == (SliceView {
                indices: handle_range(created.1, created.2),
                cells: Seq::new(n as nat, |i: int| CellView::Vacant),
                retired: seq![],
                moved: seq![],
            }),
            final(self)@.cells.len() == slots_with(old(self)@, n),
            final(self)@.registry.start == old(self)@.registry.start,
            final(self)@.registry.end == created.2,
            final(self)@.registry.live() == old(self)@.registry.live() + Seq::new(
                n as nat,
                |i: int| CellState::Locked,
            ),
            forall|k: int|
                #![trigger handle_at(old(self)@.registry.start, k)]
                0 <= k < old(self)@.registry.count() ==> final(self)@.cell(
                    handle_at(old(self)@.registry.start, k),
                ) == old(self)@.cell(handle_at(old(self)@.registry.start, k)),
    {
        self.data.create_states(n)
    }

    /// Takes the cells of the packets, which are led past tombstones first. Where it
    /// is blocked, what the packets have passed by then stays passed.
    pub fn get_states(&mut self, wp_batches: &mut Vec<Vec<WavePacket>>) -> (claim: Claim)
        requires
            old(self).wf(),
        ensures
            final(self).wf(),
            claims(
                old(self)@,
                flat(old(wp_batches)@),
                final(self)@,
                flat(final(wp_batches)@),
                claim,
            ),
            same_shape(old(wp_batches)@, final(wp_batches)@),
    {
        match self.data.settle_batches(wp_batches) {
            Turn::Clear => Claim::Granted(self.data.take_all(wp_batches)),
            Turn::Blocked => Claim::Blocked,
            Turn::Stale => Claim::Stale,
            Turn::Broken => Claim::Broken,
        }
    }

    /// Takes the cells behind the handles. There is nothing to take while one of
    /// them is held by another worker.
    pub fn get_states_from_raw_handles(&mut self, handles: &Vec<u32>) -> (slice: Option<
        InteractionStoreSlice,
    >)
        requires
            old(self).wf(),
        ensures
            final(self).wf(),
            slice is None <==> exists|i: int|
                0 <= i < handles@.len() && old(self)@.state(#[trigger] handles@[i])
                    == CellState::Locked,
            slice is None ==> final(self)@ == old(self)@,
            slice matches Some(s) ==> s.wf() && (final(self)@, s@) == taken(old(self)@, handles@),
    {
        let n: usize = handles.len();
        let mut i: usize = 0;
        while i < n
            invariant
                self.wf(),
                *self == *old(self),
                n == handles@.len(),
                i <= n,
                forall|k: int|
                    0 <= k < i ==> self@.state(#[trigger] handles@[k]) != CellState::Locked,
            decreases n - i,
        {
            if self.data.registry.get(handles[i]) == CellState::Locked {
                return None;
            }
            i += 1;
        }
        Some(self.data.take_handles(handles))
    }

    /// When each of the packets was seen, for those that were. There is nothing to
    /// tell while one of their cells is held by another worker or has no results
    /// yet; and a packet may be missing from the results.
    pub fn get_collapsed_packets(&self, packets: &Vec<WavePacket>) -> (reading: Reading)
        requires
            self.wf(),
        ensures
            reading is Blocked <==> !all_collapsed(self@, packets@),
            reading is Unknown <==> all_collapsed(self@, packets@) && !all_known(self@, packets@),
            reading matches Reading::Ready(times) ==> times@ == detections(self@, packets@),
    {
        let n: usize = packets.len();
        let mut i: usize = 0;
        while i < n
            invariant
                self.wf(),
                n == packets@.len(),
                i <= n,
                forall|k: int|
                    0 <= k < i ==> self@.state((#[trigger] packets@[k]).state_handle)
                        != CellState::Locked && self@.cell(packets@[k].state_handle) is Result,
            decreases n - i,
        {
            let handle: u32 = packets[i].state_handle;
            if self.data.registry.get(handle) == CellState::Locked {
                return Reading::Blocked;
            }
            let slot: usize = self.data.to_index(handle);
            match &self.data.buff[slot] {
                InteractionCell::Result(_) => {},
                _ => {
                    return Reading::Blocked;
                },
            }
            i += 1;
        }
        assert(all_collapsed(self@, packets@));
        let mut times: Vec<Time> = Vec::new();
        let mut i: usize = 0;
        assert(packets@.take(0) =~= seq![]);
        while i < n
            invariant
                self.wf(),
                n == packets@.len(),
                i <= n,
                all_collapsed(self@, packets@),
                forall|k: int| 0 <= k < i ==> is_known(self@, #[trigger] packets@[k]),
                times@ == detections(self@, packets@.take(i as int)),
            decreases n - i,
        {
            let wp = packets[i];
            assert(packets@.take(i + 1).drop_last() =~= packets@.take(i as int));
            let slot: usize = self.data.to_index(wp.state_handle);
            assert(self@.cell(packets@[i as int].state_handle) is Result);
            if let InteractionCell::Result(result) = &self.data.buff[slot] {
                if !result.knows(&wp) {
                    assert(!is_known(self@, packets@[i as int]));
                    return Reading::Unknown;
                }
                if let Some(time) = result.get(&wp) {
                    times.push(time);
                }
            }
            i += 1;
        }
        assert(packets@.take(n as int) =~= packets@);
        Reading::Ready(times)
    }
}

impl InteractionStore {
    /// Takes the cells of a slice back. Where the slice notes a handle as moved that
    /// has no tombstone in it, nothing is taken and the answer is `false`.
    pub fn release(&mut self, slice: InteractionStoreSlice) -> (intact: bool)
        requires
            old(self).wf(),
            slice.wf(),
        ensures
            final(self).wf(),
            intact == slice@.is_intact(),
            intact ==> final(self)@ == given_back(old(self)@, slice@),
            !intact ==> final(self)@ == old(self)@,
    {
        if !slice.is_intact() {
            return false;
        }
        self.data.take_back(slice);
        true
    }
}

/// What there is to tell of packets that were detected.
pub enum Reading {
    Ready(Vec<Time>),
    /// Some cell is held by another worker or has no results yet.
    Blocked,
    /// A packet is missing from the results.
    Unknown,
}

} // verus!
