//! What the operations of the interaction store keep, taken together.

use vstd::prelude::*;

use crate::concurrency::cell::CellView;
use crate::concurrency::interaction_store::view::{
    freed, given_back, marked, put_back, settle, taken, trimmed, without, StoreView,
};
use crate::concurrency::registry::{CellState, RegistryView};
use crate::concurrency::slice::{lemma_refs_left, refs_left, SliceView};
use crate::nodes::packet::WavePacket;
use crate::types::handle_at;

verus! {

/// Handles that differ lie in slots that differ.
pub open spec fn have_own_slots(store: StoreView, handles: Seq<u32>) -> bool {
    forall|a: int, b: int|
        0 <= a < handles.len() && 0 <= b < handles.len() && #[trigger] handles[a]
            != #[trigger] handles[b] ==> store.slot(handles[a]) != store.slot(handles[b])
}

/// A cell for every slot.
pub open spec fn is_sized(store: StoreView) -> bool {
    store.cells.len() == store.registry.slots.len() && store.cells.len() > 0
}

/// In a sound store, tombstones lead every packet on, and the store stays sound.
pub proof fn tombstones_lead_on(store: StoreView, handle: u32)
    requires
        is_sized(store),
        store.is_sound(),
    ensures
        store.led_from(handle) is Some,
        is_sized((store.led_from(handle)->0).0),
        (store.led_from(handle)->0).0.is_sound(),
        (store.led_from(handle)->0).0.state((store.led_from(handle)->0).1) != CellState::Moved,
        (store.led_from(handle)->0).0.cells.len() == store.cells.len(),
    decreases refs_left(store.cells),
{
    if store.state(handle) == CellState::Moved {
        let p = store.slot(handle);
        assert(store.cells[p] is Tombstone);
        let past = store.past_tombstone(handle);
        lemma_refs_left(store.cells, p, past.cell(handle));
        let tombstone = store.cells[p]->Tombstone_0;
        tombstones_lead_on(past, tombstone.move_destination);
    }
}

/// Looking packets up in a sound store never finds it broken, and leaves it sound.
pub proof fn a_sound_store_is_never_broken(store: StoreView, packets: Seq<WavePacket>)
    requires
        is_sized(store),
        store.is_sound(),
    ensures
        !(settle(store, packets).2 is Broken),
        is_sized(settle(store, packets).0),
        settle(store, packets).0.is_sound(),
        settle(store, packets).0.cells.len() == store.cells.len(),
    decreases packets.len(),
{
    if packets.len() > 0 {
        let handle = packets[0].state_handle;
        tombstones_lead_on(store, handle);
        let (led, at) = store.led_from(handle)->0;
        if led.state(at) != CellState::Retired && led.state(at) != CellState::Locked {
            a_sound_store_is_never_broken(led, packets.drop_first());
        }
    }
}

proof fn lemma_taken(store: StoreView, handles: Seq<u32>)
    requires
        is_sized(store),
    ensures
        is_sized(taken(store, handles).0),
        taken(store, handles).0.cells.len() == store.cells.len(),
        taken(store, handles).1.wf(),
        forall|h: u32|
            #[trigger] taken(store, handles).1.holds(h) <==> handles.contains(h),
        forall|p: int|
            0 <= p < store.cells.len() && taken(store, handles).0.registry.slots[p]
                != CellState::Locked ==> #[trigger] taken(store, handles).0.cells[p]
                == store.cells[p] && taken(store, handles).0.registry.slots[p]
                == store.registry.slots[p],
    decreases handles.len(),
{
    if handles.len() > 0 {
        let rest = handles.drop_last();
        let last = handles.last();
        lemma_taken(store, rest);
        let (before, slice) = taken(store, rest);
        let (after, held) = taken(store, handles);
        assert(0 <= before.slot(last) < store.cells.len());
        assert forall|h: u32| #[trigger] held.holds(h) <==> handles.contains(h) by {
            if handles.contains(h) && h != last {
                assert(rest[handles.index_of(h)] == h);
                assert(slice.holds(h));
                assert(held.indices[slice.indices.index_of(h)] == h);
            }
            if handles.contains(h) && h == last && !slice.holds(h) {
                assert(held.indices[slice.indices.len() as int] == h);
            }
            if held.holds(h) && h != last {
                let p = held.indices.index_of(h);
                assert(slice.indices[p] == h);
                assert(slice.holds(h));
                assert(handles[rest.index_of(h)] == h);
            }
            assert(handles[handles.len() - 1] == last);
        }
        assert forall|p: int|
            0 <= p < store.cells.len() && after.registry.slots[p]
                != CellState::Locked implies #[trigger] after.cells[p] == store.cells[p]
            && after.registry.slots[p] == store.registry.slots[p] by {
            assert(p != before.slot(last));
            assert(before.cells[p] == store.cells[p]);
        }
        assert(held.indices.no_duplicates()) by {
            if !slice.holds(last) {
                assert forall|a: int, b: int|
                    0 <= a < held.indices.len() && 0 <= b < held.indices.len() && a
                        != b implies held.indices[a] != held.indices[b] by {
                    if a < slice.indices.len() {
                        assert(slice.indices.contains(slice.indices[a]));
                    }
                    if b < slice.indices.len() {
                        assert(slice.indices.contains(slice.indices[b]));
                    }
                }
            }
        }
    }
}

/// What a worker holds is locked: every handle that it has taken, for as long as it
/// has not given it back.
pub proof fn taken_handles_are_locked(store: StoreView, handles: Seq<u32>, i: int)
    requires
        is_sized(store),
        0 <= i < handles.len(),
    ensures
        taken(store, handles).0.state(handles[i]) == CellState::Locked,
    decreases handles.len(),
{
    let rest = handles.drop_last();
    lemma_taken(store, rest);
    let before = taken(store, rest).0;
    assert(0 <= before.slot(handles.last()) < store.cells.len());
    assert(0 <= before.slot(handles[i]) < store.cells.len());
    if i < handles.len() - 1 {
        taken_handles_are_locked(store, rest, i);
        assert(handles[i] == rest[i]);
    }
}

/// A packet whose cell is held by a worker is made to wait.
pub proof fn a_held_state_blocks(store: StoreView, handles: Seq<u32>, i: int, wp: WavePacket)
    requires
        is_sized(store),
        0 <= i < handles.len(),
        wp.state_handle == handles[i],
    ensures
        settle(taken(store, handles).0, seq![wp]).2 is Blocked,
{
    taken_handles_are_locked(store, handles, i);
}

/// A worker that takes handles gets what the store has behind them.
pub proof fn the_taker_gets_what_is_there(store: StoreView, handles: Seq<u32>, i: int)
    requires
        is_sized(store),
        have_own_slots(store, handles),
        0 <= i < handles.len(),
    ensures
        taken(store, handles).1.holds(handles[i]),
        taken(store, handles).1.cell(handles[i]) == store.cell(handles[i]),
    decreases handles.len(),
{
    let rest = handles.drop_last();
    let last = handles.last();
    lemma_taken(store, rest);
    lemma_taken(store, handles);
    let (before, slice) = taken(store, rest);
    let (after, held) = taken(store, handles);
    assert(handles.contains(handles[i]));
    assert(have_own_slots(store, rest)) by {
        assert forall|a: int, b: int|
            0 <= a < rest.len() && 0 <= b < rest.len() && #[trigger] rest[a]
                != #[trigger] rest[b] implies store.slot(rest[a]) != store.slot(rest[b]) by {
            assert(handles[a] != handles[b]);
        }
    }
    if slice.holds(handles[i]) {
        let k = rest.index_of(handles[i]);
        assert(rest.contains(handles[i]));
        the_taker_gets_what_is_there(store, rest, k);
        let p = slice.place(handles[i]);
        assert(held.indices[p] == handles[i]);
        assert(held.place(handles[i]) == p);
    } else {
        assert(handles[i] == last) by {
            if i < handles.len() - 1 {
                assert(rest[i] == handles[i]);
                assert(rest.contains(handles[i]));
            }
        }
        let p = slice.indices.len() as int;
        assert(held.indices[p] == last);
        assert(held.place(last) == p);
        assert forall|a: int| 0 <= a < rest.len() implies store.slot(#[trigger] rest[a])
            != store.slot(last) by {
            assert(rest.contains(rest[a]));
            assert(slice.holds(rest[a]));
            assert(handles[a] != handles[handles.len() - 1]);
        }
        lemma_untouched(store, rest, last);
    }
}

/// Taking handles leaves the cells of others, in other slots, alone.
proof fn lemma_untouched(store: StoreView, handles: Seq<u32>, other: u32)
    requires
        is_sized(store),
        forall|a: int|
            0 <= a < handles.len() ==> store.slot(#[trigger] handles[a]) != store.slot(other),
    ensures
        taken(store, handles).0.cell(other) == store.cell(other),
    decreases handles.len(),
{
    if handles.len() > 0 {
        let rest = handles.drop_last();
        lemma_taken(store, rest);
        assert forall|a: int| 0 <= a < rest.len() implies store.slot(#[trigger] rest[a])
            != store.slot(other) by {
            assert(rest[a] == handles[a]);
        }
        lemma_untouched(store, rest, other);
        assert(handles[handles.len() - 1] == handles.last());
        assert(0 <= store.slot(other) < store.cells.len());
    }
}

/// Taking handles keeps a store sound.
pub proof fn taking_keeps_a_store_sound(store: StoreView, handles: Seq<u32>)
    requires
        is_sized(store),
        store.is_sound(),
    ensures
        taken(store, handles).0.is_sound(),
{
    lemma_taken(store, handles);
    let after = taken(store, handles).0;
    assert forall|p: int|
        0 <= p < after.cells.len() && after.registry.slots[p] == CellState::Moved implies (
    #[trigger] after.cells[p] matches CellView::Tombstone(tombstone) && tombstone.ref_cnt
        > 0) by {
        assert(after.cells[p] == store.cells[p]);
    }
}

proof fn lemma_freed(store: StoreView, handles: Seq<u32>)
    requires
        is_sized(store),
    ensures
        is_sized(freed(store, handles)),
        freed(store, handles).cells == store.cells,
        forall|p: int|
            0 <= p < store.cells.len() && freed(store, handles).registry.slots[p]
                != CellState::Free ==> #[trigger] freed(store, handles).registry.slots[p]
                == store.registry.slots[p] && (forall|a: int|
                0 <= a < handles.len() ==> store.slot(#[trigger] handles[a]) != p),
    decreases handles.len(),
{
    if handles.len() > 0 {
        let rest = handles.drop_last();
        let last = handles.last();
        lemma_freed(store, rest);
        let before = freed(store, rest);
        let after = freed(store, handles);
        assert forall|p: int|
            0 <= p < store.cells.len() && after.registry.slots[p]
                != CellState::Free implies #[trigger] after.registry.slots[p]
            == store.registry.slots[p] && (forall|a: int|
            0 <= a < handles.len() ==> store.slot(#[trigger] handles[a]) != p) by {
            assert(0 <= store.slot(last) < store.cells.len());
            assert(p != store.slot(last));
            assert(before.registry.slots[p] != CellState::Free);
            assert forall|a: int| 0 <= a < handles.len() implies store.slot(
                #[trigger] handles[a],
            ) != p by {
                if a < handles.len() - 1 {
                    assert(rest[a] == handles[a]);
                }
            }
        }
    }
}

proof fn lemma_marked(store: StoreView, slice: SliceView, moved: Seq<u32>)
    requires
        is_sized(store),
    ensures
        is_sized(marked(store, slice, moved)),
        marked(store, slice, moved).cells == store.cells,
        forall|p: int|
            0 <= p < store.cells.len() ==> #[trigger] marked(store, slice, moved).registry.slots[p]
                == store.registry.slots[p] || (exists|a: int|
                0 <= a < moved.len() && store.slot(#[trigger] moved[a]) == p && marked(
                    store,
                    slice,
                    moved,
                ).registry.slots[p] == (if (slice.cell(moved[a])->Tombstone_0).ref_cnt == 0 {
                    CellState::Retired
                } else {
                    CellState::Moved
                })),
    decreases moved.len(),
{
    if moved.len() > 0 {
        let rest = moved.drop_last();
        let last = moved.last();
        lemma_marked(store, slice, rest);
        let before = marked(store, slice, rest);
        let after = marked(store, slice, moved);
        assert(0 <= store.slot(last) < store.cells.len());
        assert forall|p: int|
            0 <= p < store.cells.len() implies #[trigger] after.registry.slots[p]
            == store.registry.slots[p] || (exists|a: int|
            0 <= a < moved.len() && store.slot(#[trigger] moved[a]) == p && after.registry.slots[p]
                == (if (slice.cell(moved[a])->Tombstone_0).ref_cnt == 0 {
                CellState::Retired
            } else {
                CellState::Moved
            })) by {
            if p == store.slot(last) {
                assert(moved[moved.len() - 1] == last);
            } else {
                assert(after.registry.slots[p] == before.registry.slots[p]);
                if before.registry.slots[p] != store.registry.slots[p] {
                    let a = choose|a: int|
                        0 <= a < rest.len() && store.slot(#[trigger] rest[a]) == p
                            && before.registry.slots[p] == (if (slice.cell(
                            rest[a],
                        )->Tombstone_0).ref_cnt == 0 {
                            CellState::Retired
                        } else {
                            CellState::Moved
                        });
                    assert(moved[a] == rest[a]);
                }
            }
        }
    }
}

proof fn lemma_without(store: StoreView, retired: Seq<u32>)
    requires
        is_sized(store),
    ensures
        is_sized(without(store, retired)),
        without(store, retired).cells.len() == store.cells.len(),
        forall|p: int|
            0 <= p < store.cells.len() && without(store, retired).registry.slots[p]
                != CellState::Retired ==> #[trigger] without(store, retired).cells[p]
                == store.cells[p] && without(store, retired).registry.slots[p]
                == store.registry.slots[p],
    decreases retired.len(),
{
    if retired.len() > 0 {
        let rest = retired.drop_last();
        let last = retired.last();
        lemma_without(store, rest);
        let before = without(store, rest);
        let after = without(store, retired);
        assert(0 <= store.slot(last) < store.cells.len());
        assert(before.slot(last) == store.slot(last));
        assert forall|p: int|
            #![trigger after.cells[p]]
            #![trigger after.registry.slots[p]]
            0 <= p < store.cells.len() && after.registry.slots[p]
                != CellState::Retired implies after.cells[p] == store.cells[p]
            && after.registry.slots[p] == store.registry.slots[p] by {
            assert(p != store.slot(last));
            assert(before.cells[p] == store.cells[p]);
        }
    }
}

proof fn lemma_put_back(store: StoreView, slice: SliceView, n: nat)
    requires
        is_sized(store),
        slice.wf(),
        n <= slice.indices.len(),
        have_own_slots(store, slice.indices),
    ensures
        put_back(store, slice, n).registry == store.registry,
        put_back(store, slice, n).cells.len() == store.cells.len(),
        forall|i: int|
            0 <= i < n && store.state(#[trigger] slice.indices[i]) != CellState::Retired
                ==> put_back(store, slice, n).cell(slice.indices[i]) == slice.cells[i],
        forall|p: int|
            0 <= p < store.cells.len() && (forall|i: int|
                0 <= i < n ==> store.slot(#[trigger] slice.indices[i]) != p)
                ==> #[trigger] put_back(store, slice, n).cells[p] == store.cells[p],
    decreases n,
{
    if n > 0 {
        lemma_put_back(store, slice, (n - 1) as nat);
        let before = put_back(store, slice, (n - 1) as nat);
        let after = put_back(store, slice, n);
        let last = slice.indices[n - 1];
        assert(0 <= store.slot(last) < store.cells.len());
        assert forall|i: int|
            0 <= i < n && store.state(#[trigger] slice.indices[i])
                != CellState::Retired implies after.cell(slice.indices[i]) == slice.cells[i] by {
            if i < n - 1 {
                assert(slice.indices[i] != last);
                assert(store.slot(slice.indices[i]) != store.slot(last));
            }
        }
        assert forall|p: int|
            0 <= p < store.cells.len() && (forall|i: int|
                0 <= i < n ==> store.slot(#[trigger] slice.indices[i]) != p) implies #[trigger] after.cells[p]
            == store.cells[p] by {
            assert(store.slot(slice.indices[n - 1]) != p);
            assert(before.cells[p] == store.cells[p]);
        }
    }
}

proof fn lemma_trimmed(registry: RegistryView)
    ensures
        trimmed(registry).slots == registry.slots,
        trimmed(registry).end == registry.end,
        0 <= trimmed(registry).count() <= registry.count(),
    decreases registry.count(),
{
    if registry.count() > 0 && registry.state(registry.start) == CellState::Retired {
        lemma_trimmed(
            RegistryView {
                start: handle_at(registry.start, 1),
                ..registry
            },
        );
    }
}

/// What a worker gives back is found again: each of its cells that is not retired
/// stands in the store as the worker left it.
pub proof fn what_is_given_back_is_found(store: StoreView, slice: SliceView, i: int)
    requires
        is_sized(store),
        slice.wf(),
        have_own_slots(store, slice.indices),
        0 <= i < slice.indices.len(),
    ensures
        given_back(store, slice).state(slice.indices[i]) != CellState::Retired ==> given_back(
            store,
            slice,
        ).cell(slice.indices[i]) == slice.cells[i],
{
    lemma_freed(store, slice.indices);
    let free = freed(store, slice.indices);
    lemma_marked(free, slice, slice.moved);
    let mark = marked(free, slice, slice.moved);
    lemma_without(mark, slice.retired);
    let ready = without(mark, slice.retired);
    assert(have_own_slots(ready, slice.indices)) by {
        assert forall|a: int, b: int|
            0 <= a < slice.indices.len() && 0 <= b < slice.indices.len()
                && #[trigger] slice.indices[a] != #[trigger] slice.indices[b] implies ready.slot(
            slice.indices[a],
        ) != ready.slot(slice.indices[b]) by {
            assert(store.slot(slice.indices[a]) != store.slot(slice.indices[b]));
        }
    }
    lemma_put_back(ready, slice, slice.indices.len());
    lemma_trimmed(put_back(ready, slice, slice.indices.len()).registry);
}

/// Giving an intact slice back keeps a store sound.
pub proof fn giving_back_keeps_a_store_sound(store: StoreView, slice: SliceView)
    requires
        is_sized(store),
        store.is_sound(),
        slice.wf(),
        slice.is_intact(),
        have_own_slots(store, slice.indices),
    ensures
        given_back(store, slice).is_sound(),
{
    let indices = slice.indices;
    lemma_freed(store, indices);
    let free = freed(store, indices);
    lemma_marked(free, slice, slice.moved);
    let mark = marked(free, slice, slice.moved);
    lemma_without(mark, slice.retired);
    let ready = without(mark, slice.retired);
    assert(have_own_slots(ready, indices)) by {
        assert forall|a: int, b: int|
            0 <= a < indices.len() && 0 <= b < indices.len() && #[trigger] indices[a]
                != #[trigger] indices[b] implies ready.slot(indices[a]) != ready.slot(
            indices[b],
        ) by {
            assert(store.slot(indices[a]) != store.slot(indices[b]));
        }
    }
    lemma_put_back(ready, slice, indices.len());
    let filled = put_back(ready, slice, indices.len());
    lemma_trimmed(filled.registry);
    let after = given_back(store, slice);
    assert forall|p: int|
        0 <= p < after.cells.len() && after.registry.slots[p] == CellState::Moved implies (
    #[trigger] after.cells[p] matches CellView::Tombstone(tombstone) && tombstone.ref_cnt
        > 0) by {
        assert(ready.registry.slots[p] == CellState::Moved);
        assert(ready.cells[p] == mark.cells[p] && ready.registry.slots[p]
            == mark.registry.slots[p]);
        assert(mark.registry.slots[p] == CellState::Moved);
        if mark.registry.slots[p] == free.registry.slots[p] && free.registry.slots[p]
            == store.registry.slots[p] {
            // the slot was marked before, so it is none of the slice
            assert(free.registry.slots[p] != CellState::Free);
            assert forall|i: int| 0 <= i < indices.len() implies ready.slot(#[trigger] indices[i])
                != p by {
                assert(store.slot(indices[i]) != p);
            }
            assert(filled.cells[p] == ready.cells[p]);
            assert(store.cells[p] is Tombstone);
        } else {
            let a = choose|a: int|
                0 <= a < slice.moved.len() && free.slot(#[trigger] slice.moved[a]) == p
                    && mark.registry.slots[p] == (if (slice.cell(
                    slice.moved[a],
                )->Tombstone_0).ref_cnt == 0 {
                    CellState::Retired
                } else {
                    CellState::Moved
                });
            let handle = slice.moved[a];
            assert(slice.holds(handle));
            let i = slice.place(handle);
            assert(indices[i] == handle);
            assert(ready.state(indices[i]) == CellState::Moved);
            assert(filled.cell(indices[i]) == slice.cells[i]);
        }
    }
}

/// The slot is that of one of the handles.
spec fn is_slot_of(store: StoreView, handles: Seq<u32>, p: int) -> bool {
    exists|a: int| 0 <= a < handles.len() && store.slot(#[trigger] handles[a]) == p
}

/// Taking handles changes their slots alone, and notes neither moves nor retirements.
proof fn lemma_taken_slots(store: StoreView, handles: Seq<u32>)
    requires
        is_sized(store),
    ensures
        taken(store, handles).1.moved == Seq::<u32>::empty(),
        taken(store, handles).1.retired == Seq::<u32>::empty(),
        taken(store, handles).0.registry.start == store.registry.start,
        taken(store, handles).0.registry.end == store.registry.end,
        forall|p: int|
            #![trigger taken(store, handles).0.cells[p]]
            #![trigger taken(store, handles).0.registry.slots[p]]
            0 <= p < store.cells.len() && !is_slot_of(store, handles, p) ==> taken(
                store,
                handles,
            ).0.cells[p] == store.cells[p] && taken(store, handles).0.registry.slots[p]
                == store.registry.slots[p],
    decreases handles.len(),
{
    if handles.len() > 0 {
        let rest = handles.drop_last();
        let last = handles.last();
        lemma_taken(store, rest);
        lemma_taken_slots(store, rest);
        let (before, slice) = taken(store, rest);
        let (after, held) = taken(store, handles);
        assert forall|p: int|
            #![trigger after.cells[p]]
            #![trigger after.registry.slots[p]]
            0 <= p < store.cells.len() && !is_slot_of(store, handles, p) implies after.cells[p]
            == store.cells[p] && after.registry.slots[p] == store.registry.slots[p] by {
            assert(store.slot(handles[handles.len() - 1]) != p);
            if is_slot_of(store, rest, p) {
                let a = choose|a: int| 0 <= a < rest.len() && store.slot(#[trigger] rest[a]) == p;
                assert(store.slot(handles[a]) == p);
            }
            assert(before.cells[p] == store.cells[p]);
        }
    }
}

proof fn lemma_freed_slots(store: StoreView, handles: Seq<u32>)
    requires
        is_sized(store),
    ensures
        freed(store, handles).cells == store.cells,
        freed(store, handles).registry.slots.len() == store.registry.slots.len(),
        freed(store, handles).registry.start == store.registry.start,
        freed(store, handles).registry.end == store.registry.end,
        forall|p: int|
            0 <= p < store.cells.len() ==> #[trigger] freed(store, handles).registry.slots[p] == (
            if is_slot_of(store, handles, p) {
                CellState::Free
            } else {
                store.registry.slots[p]
            }),
    decreases handles.len(),
{
    if handles.len() > 0 {
        let rest = handles.drop_last();
        let last = handles.last();
        lemma_freed_slots(store, rest);
        let before = freed(store, rest);
        let after = freed(store, handles);
        assert forall|p: int| 0 <= p < store.cells.len() implies #[trigger] after.registry.slots[p]
            == (if is_slot_of(store, handles, p) {
            CellState::Free
        } else {
            store.registry.slots[p]
        }) by {
            if p == store.slot(last) {
                assert(store.slot(handles[handles.len() - 1]) == p);
            } else {
                assert(after.registry.slots[p] == before.registry.slots[p]);
                if is_slot_of(store, rest, p) {
                    let a = choose|a: int|
                        0 <= a < rest.len() && store.slot(#[trigger] rest[a]) == p;
                    assert(store.slot(handles[a]) == p);
                }
                if is_slot_of(store, handles, p) {
                    let a = choose|a: int|
                        0 <= a < handles.len() && store.slot(#[trigger] handles[a]) == p;
                    assert(store.slot(rest[a]) == p);
                }
            }
        }
    }
}

/// Giving back what was taken, untouched, undoes the taking: every slot and every cell is
/// as it was before, but for retired handles at the front, which are let go.
pub proof fn giving_back_undoes_taking(store: StoreView, handles: Seq<u32>)
    requires
        is_sized(store),
        have_own_slots(store, handles),
        forall|i: int|
            0 <= i < handles.len() ==> store.state(#[trigger] handles[i]) == CellState::Free,
    ensures
        given_back(taken(store, handles).0, taken(store, handles).1) == (StoreView {
            registry: trimmed(store.registry),
            ..store
        }),
{
    let (held, slice) = taken(store, handles);
    let indices = slice.indices;
    lemma_taken(store, handles);
    lemma_taken_slots(store, handles);
    lemma_freed_slots(held, indices);
    let ready = freed(held, indices);
    assert(marked(ready, slice, slice.moved) == ready);
    assert(without(ready, slice.retired) == ready);
    assert forall|p: int| 0 <= p < store.cells.len() implies is_slot_of(held, indices, p)
        == is_slot_of(store, handles, p) by {
        if is_slot_of(held, indices, p) {
            let a = choose|a: int| 0 <= a < indices.len() && held.slot(#[trigger] indices[a]) == p;
            assert(slice.holds(indices[a]));
            let b = handles.index_of(indices[a]);
            assert(store.slot(handles[b]) == p);
        }
        if is_slot_of(store, handles, p) {
            let b = choose|b: int| 0 <= b < handles.len() && store.slot(#[trigger] handles[b]) == p;
            assert(handles.contains(handles[b]));
            assert(slice.holds(handles[b]));
            let a = indices.index_of(handles[b]);
            assert(held.slot(indices[a]) == p);
        }
    }
    assert(have_own_slots(ready, indices)) by {
        assert forall|a: int, b: int|
            0 <= a < indices.len() && 0 <= b < indices.len() && #[trigger] indices[a]
                != #[trigger] indices[b] implies ready.slot(indices[a]) != ready.slot(
            indices[b],
        ) by {
            assert(slice.holds(indices[a]) && slice.holds(indices[b]));
            let x = handles.index_of(indices[a]);
            let y = handles.index_of(indices[b]);
            assert(handles[x] != handles[y]);
        }
    }
    lemma_put_back(ready, slice, indices.len());
    let filled = put_back(ready, slice, indices.len());
    assert forall|p: int| 0 <= p < store.cells.len() implies #[trigger] filled.cells[p]
        == store.cells[p] by {
        if is_slot_of(store, handles, p) {
            assert(is_slot_of(held, indices, p));
            let a = choose|a: int| 0 <= a < indices.len() && held.slot(#[trigger] indices[a]) == p;
            assert(slice.holds(indices[a]));
            let b = handles.index_of(indices[a]);
            assert(handles[b] == indices[a]);
            the_taker_gets_what_is_there(store, handles, b);
            assert(slice.place(indices[a]) == a) by {
                assert(slice.indices[slice.place(indices[a])] == indices[a]);
            }
            assert(ready.state(indices[a]) == CellState::Free);
            assert(filled.cell(indices[a]) == slice.cells[a]);
        } else {
            assert(!is_slot_of(held, indices, p));
            assert forall|i: int| 0 <= i < indices.len() implies ready.slot(#[trigger] indices[i])
                != p by {
                assert(held.slot(indices[i]) != p);
            }
            assert(ready.cells[p] == held.cells[p]);
        }
    }
    assert(filled.cells =~= store.cells);
    assert forall|p: int| 0 <= p < store.registry.slots.len() implies #[trigger] ready.registry.slots[p]
        == store.registry.slots[p] by {
        if is_slot_of(store, handles, p) {
            let b = choose|b: int| 0 <= b < handles.len() && store.slot(#[trigger] handles[b]) == p;
            assert(store.state(handles[b]) == CellState::Free);
        } else {
            assert(held.registry.slots[p] == store.registry.slots[p]);
        }
    }
    assert(ready.registry.slots =~= store.registry.slots);
    assert(filled.registry == store.registry);
}

proof fn lemma_without_slots(store: StoreView, retired: Seq<u32>, p: int)
    requires
        is_sized(store),
        0 <= p < store.cells.len(),
        !is_slot_of(store, retired, p),
    ensures
        without(store, retired).registry.slots[p] == store.registry.slots[p],
        without(store, retired).cells[p] == store.cells[p],
    decreases retired.len(),
{
    if retired.len() > 0 {
        let rest = retired.drop_last();
        assert(store.slot(retired[retired.len() - 1]) != p);
        if is_slot_of(store, rest, p) {
            let a = choose|a: int| 0 <= a < rest.len() && store.slot(#[trigger] rest[a]) == p;
            assert(store.slot(retired[a]) == p);
        }
        lemma_without(store, rest);
        lemma_without_slots(store, rest, p);
    }
}

/// What a worker gives back is free for others again, with the cell as the worker left it:
/// each of its handles in whose slot it has neither left a tombstone nor retired anything.
pub proof fn what_is_given_back_is_free(store: StoreView, slice: SliceView, i: int)
    requires
        is_sized(store),
        slice.wf(),
        have_own_slots(store, slice.indices),
        0 <= i < slice.indices.len(),
        forall|a: int|
            0 <= a < slice.moved.len() ==> store.slot(#[trigger] slice.moved[a]) != store.slot(
                slice.indices[i],
            ),
        forall|a: int|
            0 <= a < slice.retired.len() ==> store.slot(#[trigger] slice.retired[a])
                != store.slot(slice.indices[i]),
    ensures
        given_back(store, slice).state(slice.indices[i]) == CellState::Free,
        given_back(store, slice).cell(slice.indices[i]) == slice.cells[i],
{
    let p = store.slot(slice.indices[i]);
    lemma_freed_slots(store, slice.indices);
    let free = freed(store, slice.indices);
    assert(is_slot_of(store, slice.indices, p));
    assert(free.registry.slots[p] == CellState::Free);
    lemma_marked(free, slice, slice.moved);
    let mark = marked(free, slice, slice.moved);
    assert(mark.registry.slots[p] == CellState::Free);
    lemma_without(mark, slice.retired);
    lemma_without_slots(mark, slice.retired, p);
    let ready = without(mark, slice.retired);
    assert(have_own_slots(ready, slice.indices)) by {
        assert forall|a: int, b: int|
            0 <= a < slice.indices.len() && 0 <= b < slice.indices.len()
                && #[trigger] slice.indices[a] != #[trigger] slice.indices[b] implies ready.slot(
            slice.indices[a],
        ) != ready.slot(slice.indices[b]) by {
            assert(store.slot(slice.indices[a]) != store.slot(slice.indices[b]));
        }
    }
    lemma_put_back(ready, slice, slice.indices.len());
    let filled = put_back(ready, slice, slice.indices.len());
    lemma_trimmed(filled.registry);
    what_is_given_back_is_found(store, slice, i);
}

/// What is marked in a slot is what its tombstone says.
proof fn lemma_marked_at(
    store: StoreView,
    slice: SliceView,
    moved: Seq<u32>,
    p: int,
    state: CellState,
)
    requires
        is_sized(store),
        0 <= p < store.cells.len(),
        forall|a: int|
            0 <= a < moved.len() && store.slot(#[trigger] moved[a]) == p ==> state == (if (
            slice.cell(moved[a])->Tombstone_0).ref_cnt == 0 {
                CellState::Retired
            } else {
                CellState::Moved
            }),
    ensures
        marked(store, slice, moved).registry.slots[p] == (if is_slot_of(store, moved, p) {
            state
        } else {
            store.registry.slots[p]
        }),
    decreases moved.len(),
{
    if moved.len() > 0 {
        let rest = moved.drop_last();
        assert(forall|a: int| 0 <= a < rest.len() ==> rest[a] == moved[a]);
        lemma_marked_at(store, slice, rest, p, state);
        lemma_marked(store, slice, rest);
        let last = moved.len() - 1;
        let before = marked(store, slice, rest);
        assert(0 <= store.slot(moved[last]) < store.cells.len());
        assert(before.slot(moved[last]) == store.slot(moved[last]));
        if is_slot_of(store, rest, p) {
            let a = choose|a: int| 0 <= a < rest.len() && store.slot(#[trigger] rest[a]) == p;
            assert(store.slot(moved[a]) == p);
        } else if is_slot_of(store, moved, p) {
            let a = choose|a: int| 0 <= a < moved.len() && store.slot(#[trigger] moved[a]) == p;
            if a < last {
                assert(store.slot(rest[a]) == p);
            }
        }
    }
}

/// A tombstone that a worker leaves behind leads on: its slot is marked as moved, and holds it,
/// as long as it waits for a packet; else the slot is retired.
pub proof fn tombstones_left_behind_lead_on(store: StoreView, slice: SliceView, a: int)
    requires
        is_sized(store),
        slice.wf(),
        slice.is_intact(),
        have_own_slots(store, slice.indices),
        0 <= a < slice.moved.len(),
        forall|r: int|
            0 <= r < slice.retired.len() ==> store.slot(#[trigger] slice.retired[r]) != store.slot(
                slice.moved[a],
            ),
    ensures
        ({
            let after = given_back(store, slice);
            let handle = slice.moved[a];
            let waits = (slice.cell(handle)->Tombstone_0).ref_cnt > 0;
            &&& slice.cell(handle) is Tombstone
            &&& waits ==> after.state(handle) == CellState::Moved && after.cell(handle)
                == slice.cell(handle)
            &&& !waits ==> after.state(handle) == CellState::Retired
        }),
{
    let handle = slice.moved[a];
    let p = store.slot(handle);
    assert(slice.holds(handle));
    let i = slice.place(handle);
    assert(slice.indices[i] == handle);
    assert(0 <= p < store.cells.len());
    let state = if (slice.cell(handle)->Tombstone_0).ref_cnt == 0 {
        CellState::Retired
    } else {
        CellState::Moved
    };
    lemma_freed(store, slice.indices);
    let free = freed(store, slice.indices);
    assert forall|b: int|
        0 <= b < slice.moved.len() && free.slot(#[trigger] slice.moved[b]) == p implies state == (
    if (slice.cell(slice.moved[b])->Tombstone_0).ref_cnt == 0 {
        CellState::Retired
    } else {
        CellState::Moved
    }) by {
        assert(slice.holds(slice.moved[b]));
        let k = slice.place(slice.moved[b]);
        assert(slice.indices[k] == slice.moved[b]);
        assert(slice.indices[k] == slice.indices[i]);
    }
    lemma_marked_at(free, slice, slice.moved, p, state);
    assert(is_slot_of(free, slice.moved, p)) by {
        assert(free.slot(slice.moved[a]) == p);
    }
    lemma_marked(free, slice, slice.moved);
    let mark = marked(free, slice, slice.moved);
    assert(!is_slot_of(mark, slice.retired, p));
    lemma_without(mark, slice.retired);
    lemma_without_slots(mark, slice.retired, p);
    let ready = without(mark, slice.retired);
    assert(have_own_slots(ready, slice.indices)) by {
        assert forall|x: int, y: int|
            0 <= x < slice.indices.len() && 0 <= y < slice.indices.len()
                && #[trigger] slice.indices[x] != #[trigger] slice.indices[y] implies ready.slot(
            slice.indices[x],
        ) != ready.slot(slice.indices[y]) by {
            assert(store.slot(slice.indices[x]) != store.slot(slice.indices[y]));
        }
    }
    lemma_put_back(ready, slice, slice.indices.len());
    lemma_trimmed(put_back(ready, slice, slice.indices.len()).registry);
    assert(ready.state(slice.indices[i]) == state);
}

/// A worker that gives back touches nothing but what it held: every other slot is as it was.
pub proof fn giving_back_touches_nothing_else(store: StoreView, slice: SliceView, p: int)
    requires
        is_sized(store),
        slice.wf(),
        have_own_slots(store, slice.indices),
        0 <= p < store.cells.len(),
        forall|a: int|
            0 <= a < slice.indices.len() ==> store.slot(#[trigger] slice.indices[a]) != p,
        forall|a: int| 0 <= a < slice.moved.len() ==> store.slot(#[trigger] slice.moved[a]) != p,
        forall|a: int|
            0 <= a < slice.retired.len() ==> store.slot(#[trigger] slice.retired[a]) != p,
    ensures
        given_back(store, slice).registry.slots[p] == store.registry.slots[p],
        given_back(store, slice).cells[p] == store.cells[p],
        given_back(store, slice).cells.len() == store.cells.len(),
{
    lemma_freed_slots(store, slice.indices);
    let free = freed(store, slice.indices);
    assert(!is_slot_of(store, slice.indices, p));
    assert(free.registry.slots[p] == store.registry.slots[p]);
    assert(!is_slot_of(free, slice.moved, p));
    lemma_marked_at(free, slice, slice.moved, p, CellState::Free);
    lemma_marked(free, slice, slice.moved);
    let mark = marked(free, slice, slice.moved);
    assert(!is_slot_of(mark, slice.retired, p));
    lemma_without(mark, slice.retired);
    lemma_without_slots(mark, slice.retired, p);
    let ready = without(mark, slice.retired);
    assert(have_own_slots(ready, slice.indices)) by {
        assert forall|x: int, y: int|
            0 <= x < slice.indices.len() && 0 <= y < slice.indices.len()
                && #[trigger] slice.indices[x] != #[trigger] slice.indices[y] implies ready.slot(
            slice.indices[x],
        ) != ready.slot(slice.indices[y]) by {
            assert(store.slot(slice.indices[x]) != store.slot(slice.indices[y]));
        }
    }
    lemma_put_back(ready, slice, slice.indices.len());
    let filled = put_back(ready, slice, slice.indices.len());
    assert(filled.cells[p] == ready.cells[p]);
    lemma_trimmed(filled.registry);
}

proof fn lemma_without_retired(store: StoreView, retired: Seq<u32>, p: int)
    requires
        is_sized(store),
        is_slot_of(store, retired, p),
    ensures
        without(store, retired).registry.slots[p] == CellState::Retired,
        without(store, retired).cells[p] is Vacant,
    decreases retired.len(),
{
    let rest = retired.drop_last();
    let last = retired.len() - 1;
    lemma_without(store, rest);
    assert(0 <= store.slot(retired[last]) < store.cells.len());
    if store.slot(retired[last]) != p {
        let a = choose|a: int| 0 <= a < retired.len() && store.slot(#[trigger] retired[a]) == p;
        assert(store.slot(rest[a]) == p);
        lemma_without_retired(store, rest, p);
    }
}

proof fn lemma_retired_stays_out(store: StoreView, slice: SliceView, n: nat, p: int)
    requires
        is_sized(store),
        n <= slice.indices.len(),
        0 <= p < store.cells.len(),
        store.registry.slots[p] == CellState::Retired,
    ensures
        put_back(store, slice, n).cells[p] == store.cells[p],
        put_back(store, slice, n).registry == store.registry,
        put_back(store, slice, n).cells.len() == store.cells.len(),
    decreases n,
{
    if n > 0 {
        lemma_retired_stays_out(store, slice, (n - 1) as nat, p);
        let before = put_back(store, slice, (n - 1) as nat);
        let handle = slice.indices[n - 1];
        assert(0 <= store.slot(handle) < store.cells.len());
    }
}

/// What a worker retires is gone for good: its slot is retired and empty.
pub proof fn what_is_retired_is_gone(store: StoreView, slice: SliceView, r: int)
    requires
        is_sized(store),
        slice.wf(),
        0 <= r < slice.retired.len(),
    ensures
        given_back(store, slice).state(slice.retired[r]) == CellState::Retired,
        given_back(store, slice).cell(slice.retired[r]) is Vacant,
{
    let p = store.slot(slice.retired[r]);
    assert(0 <= p < store.cells.len());
    lemma_freed(store, slice.indices);
    let free = freed(store, slice.indices);
    lemma_marked(free, slice, slice.moved);
    let mark = marked(free, slice, slice.moved);
    assert(mark.slot(slice.retired[r]) == p);
    lemma_without_retired(mark, slice.retired, p);
    lemma_without(mark, slice.retired);
    let ready = without(mark, slice.retired);
    lemma_retired_stays_out(ready, slice, slice.indices.len(), p);
    lemma_trimmed(put_back(ready, slice, slice.indices.len()).registry);
}

/// The first `n` handles in use are retired.
pub open spec fn are_retired(registry: RegistryView, n: int) -> bool {
    forall|k: int|
        0 <= k < n ==> registry.state(#[trigger] handle_at(registry.start, k))
            == CellState::Retired
}

/// Of the handles in use, those at the front are let go that are retired, all of them and no
/// others. No state changes.
pub proof fn only_retired_handles_are_let_go(registry: RegistryView) -> (n: int)
    ensures
        ({
            let after = trimmed(registry);
            &&& 0 <= n <= registry.count()
            &&& are_retired(registry, n)
            &&& after.start == handle_at(registry.start, n)
            &&& after.end == registry.end
            &&& after.slots == registry.slots
            &&& after.count() == registry.count() - n
            &&& after.count() > 0 ==> after.state(after.start) != CellState::Retired
        }),
    decreases registry.count(),
{
    if registry.count() > 0 && registry.state(registry.start) == CellState::Retired {
        let next = RegistryView { start: handle_at(registry.start, 1), ..registry };
        let n = only_retired_handles_are_let_go(next);
        assert forall|k: int| 0 <= k < n + 1 implies registry.state(
            #[trigger] handle_at(registry.start, k),
        ) == CellState::Retired by {
            if k > 0 {
                assert(handle_at(registry.start, k) == handle_at(next.start, k - 1));
            }
        }
        n + 1
    } else {
        0
    }
}

} // verus!
