//! Taking more cells into use.

use vstd::prelude::*;

use crate::concurrency::cell::{CellView, InteractionCell};
use crate::concurrency::interaction_store::view::{relocated, slots_with};
use crate::concurrency::interaction_store::{vacant_cells, StoreData};
use crate::concurrency::registry::{
    handles_in_use_have_their_own_slots, CellState, RegistryView,
};
use crate::concurrency::slice::{InteractionStoreSlice, SliceView};
use crate::types::{handle_at, handle_range, lemma_handle_range};
use crate::util::power::{
    is_power_of_two, lemma_next_power, lemma_smaller_divides, next_power, next_power_of_two,
};

verus! {

impl StoreData {
    /// Makes room for so many more handles.
    pub(super) fn suggest_realloc(&mut self, additional_cnt: u32)
        requires
            old(self).wf(),
            old(self)@.registry.count() + additional_cnt <= 0x8000_0000,
        ensures
            final(self).wf(),
            relocated(old(self)@, final(self)@, slots_with(old(self)@, additional_cnt)),
            final(self)@.registry.count() + additional_cnt <= final(self)@.cells.len(),
    {
        let current_len: u32 = self.registry.len();
        if (current_len + additional_cnt) as usize > self.buff.len() {
            self.realloc(current_len + additional_cnt);
        }
        proof {
            lemma_next_power((old(self)@.registry.count() + additional_cnt) as nat);
        }
    }

    /// Takes one more handle into use, and its cell into the slice, empty.
    pub(super) fn create_state(&mut self, slice: &mut InteractionStoreSlice)
        requires
            old(self).wf(),
            old(slice).wf(),
            old(self)@.registry.count() < old(self)@.cells.len(),
            !old(slice)@.holds(old(self)@.registry.end),
        ensures
            final(self).wf(),
            final(slice).wf(),
            final(slice)@ == (SliceView {
                indices: old(slice)@.indices.push(old(self)@.registry.end),
                cells: old(slice)@.cells.push(CellView::Vacant),
                ..old(slice)@
            }),
            final(self)@.cells.len() == old(self)@.cells.len(),
            final(self)@.registry.start == old(self)@.registry.start,
            final(self)@.registry.end == handle_at(old(self)@.registry.end, 1),
            final(self)@.registry.count() == old(self)@.registry.count() + 1,
            final(self)@.registry.live() == old(self)@.registry.live().push(CellState::Locked),
            forall|k: int|
                #![trigger handle_at(old(self)@.registry.start, k)]
                0 <= k < old(self)@.registry.count() ==> final(self)@.cell(
                    handle_at(old(self)@.registry.start, k),
                ) == old(self)@.cell(handle_at(old(self)@.registry.start, k)),
    {
        let ghost before = self@;
        let handle: u32 = self.registry.end_index();
        let slot: usize = self.to_index(handle);
        self.put_cell(slot, InteractionCell::Vacant);
        self.registry.push_back(CellState::Locked);
        slice.hold(handle, InteractionCell::Vacant);
        proof {
            let start = before.registry.start;
            let count = before.registry.count();
            lemma_handle_range(start, handle);
            assert(handle == handle_at(start, count));
            assert forall|k: int| #![trigger handle_at(start, k)] 0 <= k < count implies self@.cell(
                handle_at(start, k),
            ) == before.cell(handle_at(start, k)) by {
                handles_in_use_have_their_own_slots(before.registry, k, count);
            }
        }
    }

    pub(super) fn create_states(&mut self, n: u32) -> (created: (InteractionStoreSlice, u32, u32))
        requires
            old(self).wf(),
            old(self)@.registry.count() + n <= 0x8000_0000,
        ensures
            final(self).wf(),
            created.0.wf(),
            created.1 == old(self)@.registry.end,
            created.2 == handle_at(created.1, n as int),
            created.0@ == (SliceView {
                indices: handle_range(created.1, created.2),
                cells: Seq::new(n as nat, |i: int| CellView::Vacant),
                retired: seq![],
                moved: seq![],
            }),
            final(self)@.cells.len() == slots_with(old(self)@, n),
            final(self)@.registry.start == old(self)@.registry.start,
            final(self)@.registry.end == created.2,
            final(self)@.registry.live() == old(self)@.registry.live() + Seq::new(
                n as nat,
                |i: int| CellState::Locked,
            ),
            forall|k: int|
                #![trigger handle_at(old(self)@.registry.start, k)]
                0 <= k < old(self)@.registry.count() ==> final(self)@.cell(
                    handle_at(old(self)@.registry.start, k),
                ) == old(self)@.cell(handle_at(old(self)@.registry.start, k)),
    {
        let ghost before = self@;
        let ghost start = self@.registry.start;
        let ghost count = self@.registry.count();
        self.suggest_realloc(n);
        let ghost roomy = self@;
        let start_idx: u32 = self.registry.end_index();
        let end_idx: u32 = start_idx.wrapping_add(n);
        let mut slice = InteractionStoreSlice::empty();
        let mut i: u32 = 0;
        proof {
            lemma_handle_range(start, before.registry.end);
            lemma_handle_range(start_idx, end_idx);
            assert(handle_range(start_idx, end_idx).take(0) =~= seq![]);
            assert(Seq::new(0, |i: int| CellState::Locked) =~= Seq::empty());
            assert(roomy.registry.live() =~= before.registry.live() + Seq::new(
                0,
                |i: int| CellState::Locked,
            ));
            assert(slice@.cells =~= Seq::new(0, |i: int| CellView::Vacant));
        }
        while i < n
            invariant
                self.wf(),
                slice.wf(),
                i <= n,
                before.registry.start == start,
                before.registry.count() == count,
                0 <= count,
                count + n <= roomy.cells.len(),
                self@.cells.len() == roomy.cells.len(),
                self@.registry.start == start,
                self@.registry.end == handle_at(start_idx, i as int),
                self@.registry.count() == count + i,
                self@.registry.live() == before.registry.live() + Seq::new(
                    i as nat,
                    |i: int| CellState::Locked,
                ),
                start_idx == handle_at(start, count),
                end_idx == handle_at(start_idx, n as int),
                handle_range(start_idx, end_idx).len() == n,
                slice@.indices == handle_range(start_idx, end_idx).take(i as int),
                slice@.cells == Seq::new(i as nat, |i: int| CellView::Vacant),
                slice@.retired == Seq::<u32>::empty(),
                slice@.moved == Seq::<u32>::empty(),
                forall|k: int|
                    #![trigger handle_at(start, k)]
                    0 <= k < count ==> self@.cell(handle_at(start, k)) == roomy.cell(
                        handle_at(start, k),
                    ),
            decreases n - i,
        {
            let ghost handle = self@.registry.end;
            let ghost all = handle_range(start_idx, end_idx);
            proof {
                lemma_handle_range(start_idx, end_idx);
                assert(all[i as int] == handle);
                if slice@.holds(handle) {
                    let k = slice@.indices.index_of(handle);
                    assert(all[k] == all[i as int]);
                }
            }
            self.create_state(&mut slice);
            proof {
                assert(all.take(i + 1) =~= all.take(i as int).push(handle));
                assert((before.registry.live() + Seq::new(
                    i as nat,
                    |i: int| CellState::Locked,
                )).push(CellState::Locked) =~= before.registry.live() + Seq::new(
                    (i + 1) as nat,
                    |i: int| CellState::Locked,
                ));
                assert(Seq::new(i as nat, |i: int| CellView::Vacant).push(
                    CellView::Vacant,
                ) =~= Seq::new((i + 1) as nat, |i: int| CellView::Vacant));
            }
            i += 1;
        }
        proof {
            assert(handle_range(start_idx, end_idx).take(n as int) =~= handle_range(
                start_idx,
                end_idx,
            ));
        }
        (slice, start_idx, end_idx)
    }

    /// Moves everything to as many slots as `new_len` handles need.
    pub(super) fn realloc(&mut self, new_len: u32)
        requires
            old(self).wf(),
            32 <= new_len <= 0x8000_0000,
            old(self)@.registry.count() <= new_len,
        ensures
            final(self).wf(),
            relocated(old(self)@, final(self)@, next_power(new_len as nat)),
    {
        let ghost before = self@;
        let ghost start = self@.registry.start;
        let ghost count = self@.registry.count();
        let new_capacity: u32 = next_power_of_two(new_len);
        proof {
            lemma_next_power(new_len as nat);
            reveal_with_fuel(is_power_of_two, 7);
            assert(is_power_of_two(32));
            lemma_smaller_divides(32, new_capacity as nat);
            lemma_handle_range(self@.registry.start, self@.registry.end);
        }
        let mut new_buff = vacant_cells(new_capacity as usize);
        let ghost ring = RegistryView {
            slots: Seq::new(new_capacity as nat, |p: int| CellState::Free),
            ..before.registry
        };
        let end: u32 = self.registry.end_index();
        let mut i: u32 = self.registry.start_index();
        let ghost mut n: int = 0;
        while i != end
            invariant
                self.wf(),
                self@.registry == before.registry,
                self.registry == old(self).registry,
                before.wf(),
                start == before.registry.start,
                end == before.registry.end,
                count == before.registry.count(),
                0 <= n <= count,
                i == handle_at(start, n),
                count <= new_capacity,
                self@.cells.len() == before.cells.len(),
                new_buff@.len() == new_capacity,
                ring.slots.len() == new_capacity,
                ring.start == start,
                is_power_of_two(new_capacity as nat),
                0 < new_capacity <= 0x8000_0000,
                forall|k: int|
                    #![trigger handle_at(start, k)]
                    n <= k < count ==> self@.cells[handle_at(start, k) as int
                        % before.cells.len() as int] == before.cell(handle_at(start, k)),
                forall|k: int|
                    #![trigger handle_at(start, k)]
                    0 <= k < n ==> new_buff@[handle_at(start, k) as int % new_capacity as int]@
                        == before.cell(handle_at(start, k)),
            decreases count - n,
        {
            proof {
                lemma_handle_range(start, end);
                assert(n < count);
            }
            let slot: usize = self.to_index(i);
            let new_slot: usize = i as usize % new_capacity as usize;
            let cell = self.take_cell(slot);
            new_buff.set(new_slot, cell);
            proof {
                assert forall|k: int|
                    #![trigger handle_at(start, k)]
                    n + 1 <= k < count implies self@.cells[handle_at(start, k) as int
                    % before.cells.len() as int] == before.cell(handle_at(start, k)) by {
                    handles_in_use_have_their_own_slots(before.registry, n, k);
                }
                assert forall|k: int|
                    #![trigger handle_at(start, k)]
                    0 <= k < n + 1 implies new_buff@[handle_at(start, k) as int
                    % new_capacity as int]@ == before.cell(handle_at(start, k)) by {
                    if k < n {
                        handles_in_use_have_their_own_slots(ring, k, n);
                    }
                }
                n = n + 1;
            }
            i = i.wrapping_add(1);
        }
        proof {
            lemma_handle_range(start, end);
            assert(n == count);
        }
        self.buff = new_buff;
        self.registry = self.registry.resized(new_capacity as usize);
    }
}

} // verus!
