//! Handing cells out.

use vstd::prelude::*;

use crate::concurrency::interaction_store::view::{
    flat, handles_of, lemma_flat_splits, lemma_settle_in_turn, lemma_take_again,
    lemma_taken_sized, same_shape, settle, take, taken, Turn,
};
use crate::concurrency::interaction_store::StoreData;
use crate::concurrency::registry::CellState;
use crate::concurrency::slice::InteractionStoreSlice;
use crate::nodes::packet::WavePacket;

verus! {

impl StoreData {
    pub(super) fn settle_batches(&mut self, batches: &mut Vec<Vec<WavePacket>>) -> (turn: Turn)
        requires
            old(self).wf(),
        ensures
            final(self).wf(),
            turn == settle(old(self)@, flat(old(batches)@)).2,
            !(turn is Broken) ==> settle(old(self)@, flat(old(batches)@)) == (
                final(self)@,
                flat(final(batches)@),
                turn,
            ),
            same_shape(old(batches)@, final(batches)@),
    {
        let ghost start = self@;
        let ghost all = batches@;
        let n: usize = batches.len();
        let mut b: usize = 0;
        proof {
            assert(all.take(0) =~= seq![]);
        }
        while b < n
            invariant
                self.wf(),
                start == old(self)@,
                all == old(batches)@,
                n == all.len(),
                b <= n,
                same_shape(all, batches@),
                forall|k: int| b <= k < n ==> batches@[k] == all[k],
                settle(start, flat(all.take(b as int))) == (
                    self@,
                    flat(batches@.take(b as int)),
                    Turn::Clear,
                ),
            decreases n - b,
        {
            let ghost before = self@;
            let ghost earlier = batches@;
            let ghost batch = batches@[b as int]@;
            let turn = self.settle_batch(&mut batches[b]);
            proof {
                let first = flat(all.take(b as int));
                assert(batch == all[b as int]@);
                lemma_settle_in_turn(start, first, batch);
                assert(all.take(b + 1).drop_last() =~= all.take(b as int));
                assert(flat(all.take(b + 1)) == first + batch);
                assert(batches@.take(b + 1).drop_last() =~= earlier.take(b as int));
                if !(turn is Clear) {
                    lemma_flat_splits(all, b + 1);
                    lemma_settle_in_turn(start, first + batch, flat(all.skip(b + 1)));
                    lemma_flat_splits(batches@, b + 1);
                    assert(batches@.skip(b + 1) =~= all.skip(b + 1));
                }
            }
            if turn != Turn::Clear {
                return turn;
            }
            b += 1;
        }
        proof {
            assert(all.take(n as int) =~= all);
            assert(batches@.take(n as int) =~= batches@);
        }
        Turn::Clear
    }

    /// Takes a handle into the slice.
    pub(super) fn take(&mut self, slice: &mut InteractionStoreSlice, handle: u32)
        requires
            old(self).wf(),
            old(slice).wf(),
        ensures
            final(self).wf(),
            final(slice).wf(),
            (final(self)@, final(slice)@) == take(old(self)@, old(slice)@, handle),
    {
        let ghost before = self@;
        self.registry.set(handle, CellState::Locked);
        if !slice.holds(handle) {
            let slot: usize = self.to_index(handle);
            let cell = self.take_cell(slot);
            slice.hold(handle, cell);
        }
    }

    /// Takes the handles one by one.
    pub(super) fn take_handles(&mut self, handles: &Vec<u32>) -> (slice: InteractionStoreSlice)
        requires
            old(self).wf(),
        ensures
            final(self).wf(),
            slice.wf(),
            (final(self)@, slice@) == taken(old(self)@, handles@),
    {
        let mut slice = InteractionStoreSlice::empty();
        let mut i: usize = 0;
        assert(handles@.take(0) =~= seq![]);
        while i < handles.len()
            invariant
                self.wf(),
                slice.wf(),
                i <= handles@.len(),
                (self@, slice@) == taken(old(self)@, handles@.take(i as int)),
            decreases handles@.len() - i,
        {
            assert(handles@.take(i + 1).drop_last() =~= handles@.take(i as int));
            self.take(&mut slice, handles[i]);
            i += 1;
        }
        assert(handles@.take(i as int) =~= handles@);
        slice
    }

    /// Takes the handles of the packets.
    pub(super) fn take_all(&mut self, batches: &Vec<Vec<WavePacket>>) -> (slice: InteractionStoreSlice)
        requires
            old(self).wf(),
        ensures
            final(self).wf(),
            slice.wf(),
            (final(self)@, slice@) == taken(old(self)@, handles_of(flat(batches@))),
    {
        let ghost start = self@;
        let mut slice = InteractionStoreSlice::empty();
        let mut previous_handle: Option<u32> = None;
        let mut b: usize = 0;
        assert(handles_of(flat(batches@.take(0))) =~= seq![]);
        while b < batches.len()
            invariant
                self.wf(),
                slice.wf(),
                start.wf(),
                start == old(self)@,
                b <= batches@.len(),
                (self@, slice@) == taken(start, handles_of(flat(batches@.take(b as int)))),
                last_taken(previous_handle, handles_of(flat(batches@.take(b as int)))),
            decreases batches@.len() - b,
        {
            let ghost so_far = handles_of(flat(batches@.take(b as int)));
            let ghost here = handles_of(batches@[b as int]@);
            let mut i: usize = 0;
            assert(so_far + here.take(0) =~= so_far);
            while i < batches[b].len()
                invariant
                    self.wf(),
                    slice.wf(),
                    start.wf(),
                    b < batches@.len(),
                    here == handles_of(batches@[b as int]@),
                    i <= here.len(),
                    (self@, slice@) == taken(start, so_far + here.take(i as int)),
                    last_taken(previous_handle, so_far + here.take(i as int)),
                decreases here.len() - i,
            {
                let handle: u32 = batches[b][i].state_handle;
                let ghost done = so_far + here.take(i as int);
                let ghost next = so_far + here.take(i + 1);
                proof {
                    assert(here[i as int] == handle);
                    assert(next =~= done.push(handle));
                    assert(next.drop_last() =~= done);
                    if previous_handle == Some(handle) {
                        let (before, held) = taken(start, done.drop_last());
                        lemma_taken_sized(start, done.drop_last());
                        lemma_take_again(before, held, handle);
                    }
                }
                // heuristics: a run of packets of one state takes it once
                if previous_handle != Some(handle) {
                    previous_handle = Some(handle);
                    self.take(&mut slice, handle);
                }
                i += 1;
            }
            proof {
                assert(here.take(i as int) =~= here);
                assert(batches@.take(b + 1).drop_last() =~= batches@.take(b as int));
                assert(handles_of(flat(batches@.take(b + 1))) =~= so_far + here);
            }
            b += 1;
        }
        assert(batches@.take(b as int) =~= batches@);
        slice
    }
}

spec fn last_taken(previous: Option<u32>, handles: Seq<u32>) -> bool {
    previous == (if handles.len() == 0 {
        None::<u32>
    } else {
        Some(handles.last())
    })
}

} // verus!
