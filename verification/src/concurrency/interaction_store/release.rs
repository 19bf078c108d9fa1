//! Taking cells back.

use vstd::prelude::*;

use crate::concurrency::cell::InteractionCell;
use crate::concurrency::interaction_store::view::{
    freed, given_back, marked, put_back, trimmed, without, StoreView,
};
use crate::concurrency::interaction_store::StoreData;
use crate::concurrency::registry::CellState;
use crate::concurrency::slice::{cell_views, InteractionStoreSlice, SliceView};

verus! {

impl StoreData {
    pub(super) fn take_back(&mut self, slice: InteractionStoreSlice)
        requires
            old(self).wf(),
            slice.wf(),
            slice@.is_intact(),
        ensures
            final(self).wf(),
            final(self)@ == given_back(old(self)@, slice@),
    {
        let ghost start = self@;
        let ghost held = slice@;
        proof {
            slice.handles_are_held_once();
        }
        let mut fates: Vec<CellState> = Vec::new();
        let moved_count: usize = slice.moved_count();
        while fates.len() < moved_count
            invariant
                slice.wf(),
                held == slice@,
                held.is_intact(),
                moved_count == held.moved.len(),
                fates@.len() <= moved_count,
                forall|k: int|
                    0 <= k < fates@.len() ==> #[trigger] fates@[k] == (if (held.cell(
                        held.moved[k],
                    )->Tombstone_0).ref_cnt == 0 {
                        CellState::Retired
                    } else {
                        CellState::Moved
                    }),
            decreases moved_count - fates@.len(),
        {
            let handle: u32 = slice.moved_at(fates.len());
            assert(held.holds(held.moved[fates@.len() as int]));
            match slice.get(handle) {
                InteractionCell::Tombstone(tombstone) => {
                    if tombstone.ref_cnt == 0 {
                        fates.push(CellState::Retired);
                    } else {
                        fates.push(CellState::Moved);
                    }
                },
                _ => {
                    assert(false);
                },
            }
        }
        let (indices, cells, retired, moved) = slice.into_parts();
        self.free_all(&indices);
        let ghost free = self@;
        let mut i: usize = 0;
        assert(moved@.take(0) =~= seq![]);
        while i < moved.len()
            invariant
                self.wf(),
                i <= moved@.len(),
                moved@ == held.moved,
                fates@.len() == moved@.len(),
                forall|k: int|
                    0 <= k < fates@.len() ==> #[trigger] fates@[k] == (if (held.cell(
                        held.moved[k],
                    )->Tombstone_0).ref_cnt == 0 {
                        CellState::Retired
                    } else {
                        CellState::Moved
                    }),
                self@ == marked(free, held, moved@.take(i as int)),
            decreases moved@.len() - i,
        {
            assert(moved@.take(i + 1).drop_last() =~= moved@.take(i as int));
            assert(fates@[i as int] == fates@[i as int]);
            self.registry.set(moved[i], fates[i]);
            i += 1;
        }
        assert(moved@.take(i as int) =~= moved@);
        self.retire_all(&retired);
        let ghost ready = self@;
        self.put_cells(&indices, cells, Ghost(held));
        let ghost filled = self@;
        self.trim();
    }

    pub(super) fn free_all(&mut self, handles: &Vec<u32>)
        requires
            old(self).wf(),
        ensures
            final(self).wf(),
            final(self)@ == freed(old(self)@, handles@),
    {
        let mut i: usize = 0;
        assert(handles@.take(0) =~= seq![]);
        while i < handles.len()
            invariant
                self.wf(),
                i <= handles@.len(),
                self@ == freed(old(self)@, handles@.take(i as int)),
            decreases handles@.len() - i,
        {
            assert(handles@.take(i + 1).drop_last() =~= handles@.take(i as int));
            self.registry.set(handles[i], CellState::Free);
            i += 1;
        }
        assert(handles@.take(i as int) =~= handles@);
    }

    pub(super) fn retire_all(&mut self, retired: &Vec<u32>)
        requires
            old(self).wf(),
        ensures
            final(self).wf(),
            final(self)@ == without(old(self)@, retired@),
    {
        let mut i: usize = 0;
        assert(retired@.take(0) =~= seq![]);
        while i < retired.len()
            invariant
                self.wf(),
                i <= retired@.len(),
                self@ == without(old(self)@, retired@.take(i as int)),
            decreases retired@.len() - i,
        {
            assert(retired@.take(i + 1).drop_last() =~= retired@.take(i as int));
            let handle: u32 = retired[i];
            self.registry.set(handle, CellState::Retired);
            let slot: usize = self.to_index(handle);
            self.put_cell(slot, InteractionCell::Vacant);
            i += 1;
        }
        assert(retired@.take(i as int) =~= retired@);
    }

    pub(super) fn put_cells(
        &mut self,
        indices: &Vec<u32>,
        cells: Vec<InteractionCell>,
        slice: Ghost<SliceView>,
    )
        requires
            old(self).wf(),
            indices@ == slice@.indices,
            cell_views(cells@) == slice@.cells,
            indices@.len() == cells@.len(),
        ensures
            final(self).wf(),
            final(self)@ == put_back(old(self)@, slice@, indices@.len()),
    {
        assert forall|k: int| 0 <= k < cells@.len() implies (#[trigger] cells@[k])@
            == slice@.cells[k] by {
            assert(cell_views(cells@)[k] == cells@[k]@);
        }
        let mut rest = cells;
        let n: usize = rest.len();
        let mut i: usize = 0;
        while i < n
            invariant
                self.wf(),
                self@.registry == old(self)@.registry,
                self@.cells.len() == old(self)@.cells.len(),
                indices@ == slice@.indices,
                n == indices@.len(),
                n == slice@.cells.len(),
                rest@.len() == n,
                i <= n,
                forall|k: int| i <= k < n ==> (#[trigger] rest@[k])@ == slice@.cells[k],
                self@ == put_back(old(self)@, slice@, i as nat),
            decreases n - i,
        {
            let handle: u32 = indices[i];
            let mut cell = InteractionCell::Vacant;
            std::mem::swap(&mut cell, &mut rest[i]);
            if self.registry.get(handle) != CellState::Retired {
                let slot: usize = self.to_index(handle);
                self.put_cell(slot, cell);
            }
            i += 1;
        }
    }

    /// Takes the retired handles at the front out of use.
    pub(super) fn trim(&mut self)
        requires
            old(self).wf(),
        ensures
            final(self).wf(),
            final(self)@ == (StoreView {
                registry: trimmed(old(self)@.registry),
                ..old(self)@
            }),
    {
        while self.registry.len() > 0 && self.registry.get(self.registry.start_index())
            == CellState::Retired
            invariant
                self.wf(),
                self@.cells == old(self)@.cells,
                trimmed(self@.registry) == trimmed(old(self)@.registry),
            decreases self@.registry.count(),
        {
            self.registry.drop_front();
        }
    }
}

} // verus!
