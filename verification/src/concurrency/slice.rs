//! Cells that one worker holds for itself.

use std::collections::HashMap;

use vstd::prelude::*;

use crate::concurrency::cell::{CellView, InteractionCell, Tombstone};
use crate::concurrency::operator::{can_merge, merged_island};
use crate::nodes::packet::WavePacket;
use crate::util::power::doubled_to;
use crate::util::set::{
    fits, is_slot_count, slots_for, U32OpenAddressSet, EMPTY, MIN_SLOTS,
};

verus! {

broadcast use vstd::std_specs::hash::group_hash_axioms;

/// How many packets a tombstone still waits for.
pub open spec fn refs_in(cell: CellView) -> nat {
    match cell {
        CellView::Tombstone(tombstone) => tombstone.ref_cnt as nat,
        _ => 0,
    }
}

/// How many packets all the tombstones still wait for.
pub open spec fn refs_left(cells: Seq<CellView>) -> nat
    decreases cells.len(),
{
    if cells.len() == 0 {
        0
    } else {
        refs_left(cells.drop_last()) + refs_in(cells.last())
    }
}

pub proof fn lemma_refs_left(cells: Seq<CellView>, p: int, cell: CellView)
    requires
        0 <= p < cells.len(),
    ensures
        refs_left(cells.update(p, cell)) == refs_left(cells) - refs_in(cells[p]) + refs_in(cell),
        refs_in(cells[p]) <= refs_left(cells),
    decreases cells.len(),
{
    let now = cells.update(p, cell);
    if p == cells.len() - 1 {
        assert(now.drop_last() =~= cells.drop_last());
    } else {
        assert(now.drop_last() =~= cells.drop_last().update(p, cell));
        lemma_refs_left(cells.drop_last(), p, cell);
    }
}

/// The handles that a worker holds, each once, with the cell of each; those that it
/// wants retired, and those that it has left tombstones in.
#[verifier::ext_equal]
pub struct SliceView {
    pub indices: Seq<u32>,
    pub cells: Seq<CellView>,
    pub retired: Seq<u32>,
    pub moved: Seq<u32>,
}

impl SliceView {
    pub open spec fn holds(self, handle: u32) -> bool {
        self.indices.contains(handle)
    }

    pub open spec fn place(self, handle: u32) -> int {
        self.indices.index_of(handle)
    }

    /// The cell behind a handle that is held.
    pub open spec fn cell(self, handle: u32) -> CellView {
        self.cells[self.place(handle)]
    }

    pub open spec fn with_cell(self, handle: u32, cell: CellView) -> SliceView {
        SliceView { cells: self.cells.update(self.place(handle), cell), ..self }
    }

    /// Noted as moved, once.
    pub open spec fn noting_move(self, handle: u32) -> SliceView {
        if self.moved.contains(handle) {
            self
        } else {
            SliceView { moved: self.moved.push(handle), ..self }
        }
    }

    pub open spec fn wf(self) -> bool {
        self.indices.len() == self.cells.len() && self.indices.no_duplicates()
    }

    /// From a handle over the tombstones to where they lead, with one reference of
    /// each used up. There is no such place where a handle on the way is not held
    /// or a tombstone has no reference left.
    pub open spec fn led_from(self, handle: u32) -> Option<(SliceView, u32)>
        decreases refs_left(self.cells),
    {
        if !self.wf() || !self.holds(handle) {
            None
        } else {
            match self.cell(handle) {
                CellView::Tombstone(tombstone) => if tombstone.ref_cnt == 0 {
                    None
                } else {
                    let used = CellView::Tombstone(
                        Tombstone {
                            ref_cnt: (tombstone.ref_cnt - 1) as u8,
                            move_destination: tombstone.move_destination,
                        },
                    );
                    proof {
                        lemma_refs_left(self.cells, self.place(handle), used);
                    }
                    self.with_cell(handle, used).noting_move(handle).led_from(
                        tombstone.move_destination,
                    )
                },
                _ => Some((self, handle)),
            }
        }
    }

    /// Every handle noted as moved is held, and a tombstone stands there.
    pub open spec fn is_intact(self) -> bool {
        forall|i: int|
            0 <= i < self.moved.len() ==> self.holds(#[trigger] self.moved[i]) && self.cell(
                self.moved[i],
            ) is Tombstone
    }

    /// The donor can be merged into the recipient.
    pub open spec fn can_merge(self, donor: u32, recipient: u32) -> bool {
        &&& self.holds(donor)
        &&& self.holds(recipient)
        &&& donor != recipient
        &&& self.cell(donor) is Island
        &&& self.cell(recipient) is Island
        &&& can_merge(self.cell(recipient)->Island_0, self.cell(donor)->Island_0)
    }

    /// The slice with the donor's island merged into the recipient's, and a tombstone
    /// with a reference for each of its packets left in its place.
    pub open spec fn merged(self, donor: u32, recipient: u32) -> SliceView {
        let donor_island = self.cell(donor)->Island_0;
        let recipient_island = self.cell(recipient)->Island_0;
        SliceView {
            moved: self.moved.push(donor),
            ..self.with_cell(
                recipient,
                CellView::Island(merged_island(recipient_island, donor_island)),
            ).with_cell(
                donor,
                CellView::Tombstone(
                    Tombstone {
                        ref_cnt: (donor_island.active_packets.len() % 256) as u8,
                        move_destination: recipient,
                    },
                ),
            )
        }
    }
}

/// Tombstones lead past islands without touching them.
pub proof fn lemma_led_keeps_islands(slice: SliceView, handle: u32)
    requires
        slice.wf(),
        slice.led_from(handle) is Some,
    ensures
        (slice.led_from(handle)->0).0.wf(),
        (slice.led_from(handle)->0).0.indices == slice.indices,
        (slice.led_from(handle)->0).0.retired == slice.retired,
        (slice.led_from(handle)->0).0.holds((slice.led_from(handle)->0).1),
        !((slice.led_from(handle)->0).0.cell((slice.led_from(handle)->0).1) is Tombstone),
        forall|other: u32|
            slice.holds(other) && !(#[trigger] slice.cell(other) is Tombstone) ==> (slice.led_from(
                handle,
            )->0).0.cell(other) == slice.cell(other),
    decreases refs_left(slice.cells),
{
    if let CellView::Tombstone(tombstone) = slice.cell(handle) {
        let used = CellView::Tombstone(
            Tombstone {
                ref_cnt: (tombstone.ref_cnt - 1) as u8,
                move_destination: tombstone.move_destination,
            },
        );
        let p = slice.place(handle);
        assert(slice.indices[p] == handle);
        lemma_refs_left(slice.cells, p, used);
        let next = slice.with_cell(handle, used).noting_move(handle);
        lemma_led_keeps_islands(next, tombstone.move_destination);
        assert forall|other: u32|
            slice.holds(other) && !(#[trigger] slice.cell(other) is Tombstone) implies (
        slice.led_from(handle)->0).0.cell(other) == slice.cell(other) by {
            let q = slice.place(other);
            assert(slice.indices[q] == other);
            assert(next.cell(other) == slice.cell(other));
            assert(next.holds(other));
        }
    }
}

/// What each of the cells holds.
pub open spec fn cell_views(cells: Seq<InteractionCell>) -> Seq<CellView> {
    cells.map_values(|cell: InteractionCell| cell@)
}

/// What a worker holds of the store. The cells are its own until it gives them back.
pub struct InteractionStoreSlice {
    indices: Vec<u32>,
    cells: Vec<InteractionCell>,
    places: HashMap<u32, usize>,
    retired: Vec<u32>,
    moved: Vec<u32>,
}

impl View for InteractionStoreSlice {
    type V = SliceView;

    closed spec fn view(&self) -> SliceView {
        SliceView {
            indices: self.indices@,
            cells: cell_views(self.cells@),
            retired: self.retired@,
            moved: self.moved@,
        }
    }
}

impl InteractionStoreSlice {
    pub closed spec fn wf(self) -> bool {
        &&& self@.wf()
        &&& forall|handle: u32| #[trigger]
            self.places@.dom().contains(handle) <==> self.indices@.contains(handle)
        &&& forall|p: int|
            0 <= p < self.indices@.len() ==> self.places@[#[trigger] self.indices@[p]] == p
    }

    /// Each handle is held once, with its cell.
    pub proof fn handles_are_held_once(self)
        requires
            self.wf(),
        ensures
            self@.wf(),
    {
    }

    /// Holds nothing yet.
    pub fn empty() -> (slice: Self)
        ensures
            slice.wf(),
            slice@ == (SliceView { indices: seq![], cells: seq![], retired: seq![], moved: seq![] }),
    {
        let slice = Self {
            indices: Vec::new(),
            cells: Vec::new(),
            places: HashMap::new(),
            retired: Vec::new(),
            moved: Vec::new(),
        };
        assert(slice@.cells =~= seq![]);
        slice
    }

    pub fn holds(&self, handle: u32) -> (held: bool)
        requires
            self.wf(),
        ensures
            held == self@.holds(handle),
    {
        self.places.contains_key(&handle)
    }

    /// Adds a cell behind a new handle.
    pub fn hold(&mut self, handle: u32, cell: InteractionCell)
        requires
            old(self).wf(),
            !old(self)@.holds(handle),
        ensures
            final(self).wf(),
            final(self)@ == (SliceView {
                indices: old(self)@.indices.push(handle),
                cells: old(self)@.cells.push(cell@),
                ..old(self)@
            }),
    {
        let ghost before = self.indices@;
        let ghost earlier = self.cells@;
        let ghost new_cell = cell@;
        let p: usize = self.indices.len();
        self.indices.push(handle);
        self.cells.push(cell);
        assert(cell_views(self.cells@) =~= cell_views(earlier).push(new_cell));
        self.places.insert(handle, p);
        proof {
            let now = self.indices@;
            assert forall|h: u32| #[trigger] self.places@.dom().contains(h) <==> now.contains(h) by {
                if before.contains(h) {
                    assert(now[before.index_of(h)] == h);
                }
                if now.contains(h) && h != handle {
                    assert(before[now.index_of(h)] == h);
                }
                assert(now[p as int] == handle);
            }
            assert forall|q: int| 0 <= q < now.len() implies self.places@[#[trigger] now[q]] == q by {
                if q < p {
                    assert(now[q] == before[q]);
                    assert(before.contains(before[q]));
                }
            }
            assert(now.no_duplicates()) by {
                assert forall|a: int, b: int| 0 <= a < now.len() && 0 <= b < now.len() && a
                    != b implies now[a] != now[b] by {
                    if a < p {
                        assert(before.contains(before[a]));
                    }
                    if b < p {
                        assert(before.contains(before[b]));
                    }
                }
            }
        }
    }

    fn place_of(&self, handle: u32) -> (p: usize)
        requires
            self.wf(),
            self@.holds(handle),
        ensures
            p == self@.place(handle),
            p < self.cells@.len(),
            self.indices@[p as int] == handle,
    {
        proof {
            let p = self.indices@.index_of(handle);
            assert(self.indices@[p] == handle);
        }
        *self.places.get(&handle).unwrap()
    }

    pub fn retire(&mut self, handle: u32)
        requires
            old(self).wf(),
        ensures
            final(self).wf(),
            final(self)@ == (SliceView {
                retired: old(self)@.retired.push(handle),
                ..old(self)@
            }),
    {
        self.retired.push(handle);
    }

    pub fn get(&self, handle: u32) -> (cell: &InteractionCell)
        requires
            self.wf(),
            self@.holds(handle),
        ensures
            cell@ == self@.cell(handle),
    {
        let p: usize = self.place_of(handle);
        &self.cells[p]
    }

    pub fn get_mut(&mut self, handle: u32) -> (cell: &mut InteractionCell)
        requires
            old(self).wf(),
            old(self)@.holds(handle),
        ensures
            cell@ == old(self)@.cell(handle),
            final(self).wf(),
            final(self)@ == old(self)@.with_cell(handle, final(cell)@),
    {
        let p: usize = self.place_of(handle);
        &mut self.cells[p]
    }

    pub fn set(&mut self, handle: u32, cell: InteractionCell)
        requires
            old(self).wf(),
            old(self)@.holds(handle),
        ensures
            final(self).wf(),
            final(self)@ == old(self)@.with_cell(handle, cell@),
    {
        let ghost before = self@;
        let ghost new_cell = cell@;
        let p: usize = self.place_of(handle);
        self.cells.set(p, cell);
        assert(self@ =~= before.with_cell(handle, new_cell));
    }
}

impl InteractionStoreSlice {
    /// Whether the handle is noted as moved.
    fn notes_move_of(&self, handle: u32) -> (noted: bool)
        ensures
            noted == self@.moved.contains(handle),
    {
        let mut i: usize = 0;
        while i < self.moved.len()
            invariant
                i <= self.moved@.len(),
                forall|k: int| 0 <= k < i ==> self.moved@[k] != handle,
            decreases self.moved@.len() - i,
        {
            if self.moved[i] == handle {
                return true;
            }
            i += 1;
        }
        false
    }

    /// For cases where a tombstone is created inside the same batch, and other wave
    /// packets try to access the same state. (It was an island at the time of batch
    /// allocation, but turned into a tombstone as the batch process ran along.)
    ///
    /// The answer is whether the tombstones led the packet to a cell.
    pub fn correct_state_handle_if_tombstone(&mut self, wp: &mut WavePacket) -> (corrected: bool)
        requires
            old(self).wf(),
        ensures
            final(self).wf(),
            corrected == (old(self)@.led_from(old(wp).state_handle) is Some),
            corrected ==> old(self)@.led_from(old(wp).state_handle) == Some(
                (final(self)@, final(wp).state_handle),
            ),
            corrected ==> *final(wp) == (WavePacket {
                state_handle: final(wp).state_handle,
                ..*old(wp)
            }),
    {
        let ghost goal = self@.led_from(wp.state_handle);
        let mut handle: u32 = wp.state_handle;
        loop
            invariant
                self.wf(),
                goal == self@.led_from(handle),
                goal == old(self)@.led_from(old(wp).state_handle),
                *wp == *old(wp),
            decreases refs_left(self@.cells),
        {
            if !self.holds(handle) {
                return false;
            }
            let ghost before = self@;
            let p: usize = self.place_of(handle);
            let tombstone = match &self.cells[p] {
                InteractionCell::Tombstone(tombstone) => *tombstone,
                _ => {
                    wp.state_handle = handle;
                    return true;
                },
            };
            if tombstone.ref_cnt == 0 {
                return false;
            }
            let used = InteractionCell::Tombstone(
                Tombstone {
                    ref_cnt: tombstone.ref_cnt - 1,
                    move_destination: tombstone.move_destination,
                },
            );
            let ghost used_view = used@;
            proof {
                lemma_refs_left(before.cells, p as int, used_view);
            }
            self.cells.set(p, used);
            if !self.notes_move_of(handle) {
                self.moved.push(handle);
            }
            handle = tombstone.move_destination;
            assert(self@ =~= before.with_cell(before.indices[p as int], used_view).noting_move(
                before.indices[p as int],
            ));
        }
    }

    /// The handles that are held.
    pub fn get_handles(&self) -> (handles: U32OpenAddressSet)
        requires
            self.wf(),
            fits(slots_for(self@.indices.len())),
        ensures
            handles.wf(),
            handles@ == self@.indices.to_set(),
    {
        proof {
            reveal_with_fuel(doubled_to, 3);
        }
        let mut unique_indices = U32OpenAddressSet::new(32);
        let mut i: usize = 0;
        assert(self.indices@.take(0).to_set() =~= Set::<u32>::empty());
        while i < self.indices.len()
            invariant
                self.wf(),
                fits(slots_for(self@.indices.len())),
                i <= self.indices@.len(),
                unique_indices.wf(),
                unique_indices@ == self.indices@.take(i as int).to_set(),
            decreases self.indices@.len() - i,
        {
            let handle: u32 = self.indices[i];
            proof {
                let done = self.indices@.take(i as int);
                let next = self.indices@.take(i + 1);
                assert(next =~= done.push(handle));
                assert(next.to_set() =~= done.to_set().insert(handle)) by {
                    assert forall|x: u32| next.contains(x) <==> done.contains(x) || x == handle by {
                        if done.contains(x) {
                            assert(next[done.index_of(x)] == x);
                        }
                        if next.contains(x) && x != handle {
                            assert(done[next.index_of(x)] == x);
                        }
                        assert(next[i as int] == handle);
                    }
                }
                unique_indices.slots_suffice();
                done.unique_seq_to_set();
                if unique_indices.is_full() {
                    vstd::set_lib::lemma_len_subset(
                        unique_indices@.remove(EMPTY),
                        unique_indices@,
                    );
                    lemma_doubling_suffices(
                        unique_indices.slot_count(),
                        self@.indices.len(),
                    );
                }
            }
            unique_indices.insert(handle);
            i += 1;
        }
        assert(self.indices@.take(i as int) =~= self.indices@);
        unique_indices
    }

    /// Merges the donor island into the recipient, and leaves a tombstone in its
    /// place. The answer is whether the two are islands that can be merged; if not,
    /// nothing changes.
    pub fn merge_islands(&mut self, donor_handle: u32, recipient_handle: u32) -> (merged: bool)
        requires
            old(self).wf(),
        ensures
            final(self).wf(),
            merged == old(self)@.can_merge(donor_handle, recipient_handle),
            !merged ==> final(self)@ == old(self)@,
            merged ==> final(self)@ == old(self)@.merged(donor_handle, recipient_handle),
    {
        if donor_handle == recipient_handle || !self.holds(donor_handle) || !self.holds(
            recipient_handle,
        ) {
            return false;
        }
        let ghost before = self@;
        let d: usize = self.place_of(donor_handle);
        let r: usize = self.place_of(recipient_handle);
        assert(d != r);
        let can = match (&self.cells[d], &self.cells[r]) {
            (
                InteractionCell::IslandOfInteraction(donor),
                InteractionCell::IslandOfInteraction(recipient),
            ) => recipient.can_take_in(donor),
            _ => false,
        };
        if !can {
            return false;
        }
        let mut donor_cell = InteractionCell::Vacant;
        std::mem::swap(&mut donor_cell, &mut self.cells[d]);
        let ref_cnt: u8 = match donor_cell {
            InteractionCell::IslandOfInteraction(donor) => {
                if let InteractionCell::IslandOfInteraction(recipient) = &mut self.cells[r] {
                    recipient.take_in(&donor);
                }
                donor.active_packets.len()
            },
            _ => 0,
        };
        self.cells.set(
            d,
            InteractionCell::Tombstone(Tombstone { ref_cnt, move_destination: recipient_handle }),
        );
        self.moved.push(donor_handle);
        assert(self@ =~= before.merged(donor_handle, recipient_handle));
        true
    }

    /// Whether every handle noted as moved is held and has a tombstone.
    pub fn is_intact(&self) -> (intact: bool)
        requires
            self.wf(),
        ensures
            intact == self@.is_intact(),
    {
        let mut i: usize = 0;
        while i < self.moved.len()
            invariant
                self.wf(),
                i <= self.moved@.len(),
                forall|k: int|
                    0 <= k < i ==> self@.holds(#[trigger] self@.moved[k]) && self@.cell(
                        self@.moved[k],
                    ) is Tombstone,
            decreases self.moved@.len() - i,
        {
            let handle: u32 = self.moved[i];
            assert(self@.moved[i as int] == handle);
            if !self.holds(handle) {
                return false;
            }
            match self.get(handle) {
                InteractionCell::Tombstone(_) => {},
                _ => {
                    return false;
                },
            }
            i += 1;
        }
        true
    }
}

impl InteractionStoreSlice {
    /// How many handles are held.
    pub fn held_count(&self) -> (n: usize)
        ensures
            n == self@.indices.len(),
    {
        self.indices.len()
    }

    /// The handle at that place.
    pub fn held_at(&self, i: usize) -> (handle: u32)
        requires
            i < self@.indices.len(),
        ensures
            handle == self@.indices[i as int],
    {
        self.indices[i]
    }

    pub fn moved_count(&self) -> (n: usize)
        ensures
            n == self@.moved.len(),
    {
        self.moved.len()
    }

    pub fn moved_at(&self, i: usize) -> (handle: u32)
        requires
            i < self@.moved.len(),
        ensures
            handle == self@.moved[i as int],
    {
        self.moved[i]
    }

    /// Everything in it: the handles, their cells, those retired and those moved.
    pub fn into_parts(self) -> (parts: (Vec<u32>, Vec<InteractionCell>, Vec<u32>, Vec<u32>))
        ensures
            parts.0@ == self@.indices,
            cell_views(parts.1@) == self@.cells,
            parts.2@ == self@.retired,
            parts.3@ == self@.moved,
    {
        (self.indices, self.cells, self.retired, self.moved)
    }
}

/// A table too small for `n` elements, doubled, is no larger than one made for them.
proof fn lemma_doubling_suffices(slots: nat, n: nat)
    requires
        is_slot_count(slots),
        4 * n > 3 * slots,
    ensures
        2 * slots <= slots_for(n),
{
    lemma_doubled_from(slots, (4 * n + 2) / 3);
}

proof fn lemma_doubled_from(slots: nat, needed: nat)
    requires
        is_slot_count(slots),
        slots < needed,
    ensures
        doubled_to(MIN_SLOTS as nat, needed) == doubled_to(2 * slots, needed),
        doubled_to(2 * slots, needed) >= 2 * slots,
    decreases slots,
{
    if slots > MIN_SLOTS {
        lemma_doubled_from(slots / 2, needed);
    }
    lemma_doubled_grows(2 * slots, needed);
}

proof fn lemma_doubled_grows(n: nat, needed: nat)
    requires
        n > 0,
    ensures
        doubled_to(n, needed) >= n,
    decreases (if needed > n { needed - n } else { 0 }),
{
    if n < needed {
        lemma_doubled_grows(2 * n, needed);
    }
}

} // verus!
