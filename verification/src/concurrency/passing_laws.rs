//! What happens to packets that are led to their states, to states that are merged, and to
//! packets whose results are read.

use vstd::prelude::*;

use crate::concurrency::cell::{
    detection_of, first_result_for, CellView, Tombstone, WpResult,
};
use crate::concurrency::interaction_store::view::{
    all_collapsed, all_known, detections, is_known, readdressed, settle, slots_with, StoreView,
};
use crate::concurrency::island_laws::{is_moved, merging_keeps_both_islands, same_flight};
use crate::concurrency::operator::can_merge;
use crate::concurrency::registry::CellState;
use crate::concurrency::slice::SliceView;
use crate::nodes::packet::WavePacket;
use crate::types::WpSnowflake;
use crate::util::power::{is_power_of_two, lemma_next_power};

verus! {

/// The packets differ in their handles at most.
pub open spec fn is_same_packet(one: WavePacket, other: WavePacket) -> bool {
    &&& one.time == other.time
    &&& one.time_sigma == other.time_sigma
    &&& one.wavelength_bits == other.wavelength_bits
    &&& one.wavelength_sigma_bits == other.wavelength_sigma_bits
    &&& one.snowflake == other.snowflake
}

/// A packet that is readdressed has the new handle and is else the same.
pub proof fn only_the_handle_changes(wp: WavePacket, handle: u32)
    ensures
        is_same_packet(readdressed(wp, handle), wp),
        readdressed(wp, handle).state_handle == handle,
{
}

/// Looking packets up changes nothing of them but their handles.
pub proof fn looking_up_changes_only_handles(store: StoreView, packets: Seq<WavePacket>, i: int)
    requires
        0 <= i < packets.len(),
    ensures
        settle(store, packets).1.len() == packets.len(),
        is_same_packet(settle(store, packets).1[i], packets[i]),
    decreases packets.len(),
{
    reveal_with_fuel(settle, 2);
    if let Some((led, handle)) = store.led_from(packets[0].state_handle) {
        if led.state(handle) != CellState::Retired && led.state(handle) != CellState::Locked {
            let rest = packets.drop_first();
            if i > 0 {
                looking_up_changes_only_handles(led, rest, i - 1);
                assert(rest[i - 1] == packets[i]);
            } else if rest.len() > 0 {
                looking_up_changes_only_handles(led, rest, 0);
            }
        }
    }
}

/// Where a state has not moved, a packet is led nowhere. Where it has, the tombstone leads one
/// packet on to its destination and then waits for one less; with the last, the slot is
/// retired. No other slot is touched.
pub proof fn a_tombstone_leads_one_packet_on(store: StoreView, handle: u32)
    requires
        store.cells.len() == store.registry.slots.len(),
        store.cells.len() > 0,
    ensures
        store.state(handle) != CellState::Moved ==> store.led_from(handle) == Some((store, handle)),
        store.state(handle) == CellState::Moved ==> (store.cell(handle) matches CellView::Tombstone(
            tombstone,
        ) ==> {
            let past = store.past_tombstone(handle);
            let n = tombstone.ref_cnt;
            &&& n > 0 ==> store.led_from(handle) == past.led_from(tombstone.move_destination)
            &&& n == 0 ==> store.led_from(handle) is None
            &&& n > 1 ==> past.state(handle) == CellState::Moved && (past.cell(
                handle,
            ) matches CellView::Tombstone(left) && left.ref_cnt == n - 1 && left.move_destination
                == tombstone.move_destination)
            &&& n == 1 ==> past.state(handle) == CellState::Retired && past.cell(handle) is Vacant
            &&& past.registry.start == store.registry.start
            &&& past.registry.end == store.registry.end
            &&& forall|p: int|
                0 <= p < store.cells.len() && p != store.slot(handle) ==> #[trigger] past.cells[p]
                    == store.cells[p] && past.registry.slots[p] == store.registry.slots[p]
        }),
{
    assert(0 <= store.slot(handle) < store.cells.len());
}

/// The same in what a worker holds: a tombstone leads one packet on and then waits for one
/// less, and the handle is noted as moved. No other cell is touched.
pub proof fn a_tombstone_of_a_worker_leads_on(slice: SliceView, handle: u32)
    requires
        slice.wf(),
        slice.holds(handle),
    ensures
        !(slice.cell(handle) is Tombstone) ==> slice.led_from(handle) == Some((slice, handle)),
        slice.cell(handle) matches CellView::Tombstone(tombstone) ==> {
            let n = tombstone.ref_cnt;
            &&& n == 0 ==> slice.led_from(handle) is None
            &&& n > 0 ==> exists|next: SliceView| #[trigger]
                is_past(slice, next, handle, tombstone) && slice.led_from(handle)
                    == next.led_from(tombstone.move_destination)
        },
{
    if let CellView::Tombstone(tombstone) = slice.cell(handle) {
        if tombstone.ref_cnt > 0 {
            let used = CellView::Tombstone(
                Tombstone {
                    ref_cnt: (tombstone.ref_cnt - 1) as u8,
                    move_destination: tombstone.move_destination,
                },
            );
            let next = slice.with_cell(handle, used).noting_move(handle);
            assert(slice.indices[slice.place(handle)] == handle);
            assert(next.moved.contains(handle)) by {
                if !slice.moved.contains(handle) {
                    assert(next.moved[slice.moved.len() as int] == handle);
                }
            }
            assert forall|other: u32| #[trigger] slice.holds(other) && other != handle implies next.cell(
                other,
            ) == slice.cell(other) by {
                assert(slice.indices[slice.place(other)] == other);
            }
            assert(is_past(slice, next, handle, tombstone));
        }
    }
}

/// The tombstone waits for one packet less, and the handle is noted as moved.
pub open spec fn is_past(
    before: SliceView,
    after: SliceView,
    handle: u32,
    tombstone: Tombstone,
) -> bool {
    &&& after.indices == before.indices
    &&& after.retired == before.retired
    &&& after.moved.contains(handle)
    &&& after.cell(handle) matches CellView::Tombstone(left) && left.ref_cnt == tombstone.ref_cnt
        - 1 && left.move_destination == tombstone.move_destination
    &&& forall|other: u32| #[trigger]
        before.holds(other) && other != handle ==> after.cell(other) == before.cell(other)
}

/// When the island of a donor is merged, the recipient has all that both had: what was its own
/// as it was, and what was the donor's with its modes moved up. A tombstone stays behind for
/// each packet of the donor, which leads to the recipient. No other cell is touched.
pub proof fn merging_leaves_a_tombstone(slice: SliceView, donor: u32, recipient: u32)
    requires
        slice.wf(),
        slice.can_merge(donor, recipient),
    ensures
        ({
            let after = slice.merged(donor, recipient);
            let d = slice.cell(donor)->Island_0;
            let r = slice.cell(recipient)->Island_0;
            let now = after.cell(recipient)->Island_0;
            &&& after.wf()
            &&& after.indices == slice.indices
            &&& after.retired == slice.retired
            &&& after.moved == slice.moved.push(donor)
            &&& after.cell(donor) matches CellView::Tombstone(tombstone) && {
                &&& tombstone.move_destination == recipient
                &&& tombstone.ref_cnt == d.active_packets.len() % 256
            }
            &&& after.cell(recipient) is Island
            &&& now.mode_max == r.mode_max + d.mode_max
            &&& now.operators.len() == r.operators.len() + d.operators.len()
            &&& forall|i: int| 0 <= i < r.operators.len() ==> #[trigger] now.operators[i]
                == r.operators[i]
            &&& forall|i: int|
                0 <= i < d.operators.len() ==> is_moved(
                    #[trigger] d.operators[i],
                    now.operators[r.operators.len() + i],
                    r.mode_max as int,
                )
            &&& forall|id: WpSnowflake|
                r.has_packet(id) ==> #[trigger] same_flight(r, now, id)
            &&& forall|id: WpSnowflake|
                !r.has_packet(id) && #[trigger] d.has_packet(id) ==> now.has_packet(id)
                    && now.mode_of(id) == d.mode_of(id) + r.mode_max
            &&& forall|other: u32| #[trigger]
                slice.holds(other) && other != donor && other != recipient ==> after.cell(other)
                    == slice.cell(other)
        }),
{
    let after = slice.merged(donor, recipient);
    assert(slice.indices[slice.place(donor)] == donor);
    assert(slice.indices[slice.place(recipient)] == recipient);
    merging_keeps_both_islands(slice.cell(recipient)->Island_0, slice.cell(donor)->Island_0);
    assert forall|other: u32| #[trigger]
        slice.holds(other) && other != donor && other != recipient implies after.cell(other)
        == slice.cell(other) by {
        assert(slice.indices[slice.place(other)] == other);
    }
}

/// The result is the first for the packet, and says that it was seen.
pub open spec fn tells_of(results: Seq<WpResult>, id: WpSnowflake, i: int, seen: bool) -> bool {
    &&& 0 <= i < results.len()
    &&& match results[i] {
        WpResult::Success { wp_snowflake, .. } => wp_snowflake == id && seen,
        WpResult::Empty { wp_snowflake } => wp_snowflake == id && !seen,
    }
    &&& forall|j: int|
        0 <= j < i ==> match #[trigger] results[j] {
            WpResult::Success { wp_snowflake, .. } => wp_snowflake != id,
            WpResult::Empty { wp_snowflake } => wp_snowflake != id,
        }
}

/// The results say that the packet was seen.
pub open spec fn was_seen(results: Seq<WpResult>, id: WpSnowflake) -> bool {
    exists|i: int| #[trigger] tells_of(results, id, i, true)
}

/// The results say that the packet was not seen.
pub open spec fn was_missed(results: Seq<WpResult>, id: WpSnowflake) -> bool {
    exists|i: int| #[trigger] tells_of(results, id, i, false)
}

proof fn lemma_first(results: Seq<WpResult>, id: WpSnowflake)
    ensures
        0 <= first_result_for(results, id) <= results.len(),
        first_result_for(results, id) < results.len() ==> results[first_result_for(
            results,
            id,
        )].snowflake() == id,
        forall|j: int|
            0 <= j < first_result_for(results, id) ==> (#[trigger] results[j]).snowflake() != id,
    decreases results.len(),
{
    if results.len() > 0 && results[0].snowflake() != id {
        lemma_first(results.drop_first(), id);
        assert forall|j: int| 0 <= j < first_result_for(results, id) implies (
        #[trigger] results[j]).snowflake() != id by {
            if j > 0 {
                assert(results.drop_first()[j - 1] == results[j]);
            }
        }
    }
}

/// A packet was seen at its own time where the first result for it is a success, and not at
/// all where that is none.
pub proof fn a_packet_is_seen_at_its_own_time(results: Seq<WpResult>, wp: WavePacket)
    ensures
        was_seen(results, wp.snowflake) ==> detection_of(results, wp) == Some(wp.time),
        was_missed(results, wp.snowflake) ==> detection_of(results, wp) is None,
        first_result_for(results, wp.snowflake) < results.len() <==> was_seen(
            results,
            wp.snowflake,
        ) || was_missed(results, wp.snowflake),
{
    let id = wp.snowflake;
    let f = first_result_for(results, id);
    lemma_first(results, id);
    if f < results.len() {
        assert(tells_of(results, id, f, results[f] is Success)) by {
            assert forall|j: int| 0 <= j < f implies match #[trigger] results[j] {
                WpResult::Success { wp_snowflake, .. } => wp_snowflake != id,
                WpResult::Empty { wp_snowflake } => wp_snowflake != id,
            } by {
                assert(results[j].snowflake() != id);
            }
        }
    }
    assert forall|i: int, seen: bool| #[trigger] tells_of(results, id, i, seen) implies i == f by {
        assert(results[i].snowflake() == id);
        if f < i {
            assert(results[f].snowflake() == id);
        }
    }
}

/// The times that are read are those of the packets that were seen, in their order, each at its
/// own time, and of no others.
pub proof fn reading_gives_the_packets_that_were_seen(store: StoreView, packets: Seq<WavePacket>)
    requires
        all_known(store, packets),
    ensures
        detections(store, packets) == packets.filter(
            |wp: WavePacket| was_seen(store.cell(wp.state_handle)->Result_0, wp.snowflake),
        ).map_values(|wp: WavePacket| wp.time),
    decreases packets.len(),
{
    let seen = |wp: WavePacket| was_seen(store.cell(wp.state_handle)->Result_0, wp.snowflake);
    let time = |wp: WavePacket| wp.time;
    reveal(Seq::filter);
    if packets.len() == 0 {
        assert(packets.filter(seen).map_values(time) =~= seq![]);
    } else {
        let rest = packets.drop_last();
        let wp = packets.last();
        assert forall|k: int| 0 <= k < rest.len() implies is_known(store, #[trigger] rest[k]) by {
            assert(rest[k] == packets[k]);
        }
        reading_gives_the_packets_that_were_seen(store, rest);
        assert(is_known(store, packets[packets.len() - 1]));
        a_packet_is_seen_at_its_own_time(store.cell(wp.state_handle)->Result_0, wp);
        if seen(wp) {
            assert(packets.filter(seen) == rest.filter(seen).push(wp));
            assert(packets.filter(seen).map_values(time) =~= rest.filter(seen).map_values(
                time,
            ).push(wp.time));
        } else {
            assert(packets.filter(seen) == rest.filter(seen));
        }
    }
}

/// Two islands that a worker holds can be merged whenever the one fits in the other.
pub proof fn held_islands_that_fit_can_be_merged(slice: SliceView, donor: u32, recipient: u32)
    requires
        slice.holds(donor),
        slice.holds(recipient),
        donor != recipient,
        slice.cell(donor) matches CellView::Island(d) && slice.cell(recipient)
            matches CellView::Island(r) && can_merge(r, d),
    ensures
        slice.can_merge(donor, recipient),
{
}

/// Packets whose states are free are found where they are: nothing changes, and all is clear.
pub proof fn free_states_are_granted(store: StoreView, packets: Seq<WavePacket>)
    requires
        forall|i: int|
            0 <= i < packets.len() ==> store.state((#[trigger] packets[i]).state_handle)
                == CellState::Free,
    ensures
        settle(store, packets).0 == store,
        settle(store, packets).1 == packets,
        settle(store, packets).2 is Clear,
    decreases packets.len(),
{
    if packets.len() > 0 {
        let rest = packets.drop_first();
        assert(store.state(packets[0].state_handle) == CellState::Free);
        assert forall|i: int| 0 <= i < rest.len() implies store.state(
            (#[trigger] rest[i]).state_handle,
        ) == CellState::Free by {
            assert(rest[i] == packets[i + 1]);
        }
        free_states_are_granted(store, rest);
        assert(readdressed(packets[0], packets[0].state_handle) == packets[0]);
        assert(seq![packets[0]] + rest =~= packets);
    }
}

/// A packet that comes too late finds its state retired, and one whose state is held waits.
pub proof fn retired_states_are_stale(store: StoreView, wp: WavePacket)
    ensures
        store.state(wp.state_handle) == CellState::Retired ==> settle(store, seq![wp]).2 is Stale,
        store.state(wp.state_handle) == CellState::Locked ==> settle(store, seq![wp]).2 is Blocked,
{
}

/// What a worker holds is intact where each handle that it notes as moved is held and has a
/// tombstone.
pub proof fn a_slice_with_its_tombstones_is_intact(slice: SliceView)
    requires
        forall|i: int|
            0 <= i < slice.moved.len() ==> slice.holds(#[trigger] slice.moved[i]) && slice.cell(
                slice.moved[i],
            ) is Tombstone,
    ensures
        slice.is_intact(),
{
}

/// A store that needs more slots gets enough of them, a power of two and not one doubling too
/// many; one that has enough keeps those that it has.
pub proof fn a_store_grows_as_needed(store: StoreView, n: u32)
    requires
        0 <= store.registry.count(),
    ensures
        store.registry.count() + n <= store.cells.len() ==> slots_with(store, n)
            == store.cells.len(),
        store.registry.count() + n > store.cells.len() ==> {
            &&& slots_with(store, n) >= store.registry.count() + n
            &&& is_power_of_two(slots_with(store, n))
            &&& slots_with(store, n) == 1 || slots_with(store, n) / 2 < store.registry.count() + n
        },
{
    lemma_next_power((store.registry.count() + n) as nat);
}

/// There are results to read just where no packet's cell is held by a worker and each has
/// results; and they are complete just where each packet has one among those of its cell.
pub proof fn results_are_read_when_all_are_there(store: StoreView, packets: Seq<WavePacket>)
    ensures
        all_collapsed(store, packets) <==> forall|k: int|
            0 <= k < packets.len() ==> store.state((#[trigger] packets[k]).state_handle)
                != CellState::Locked && store.cell(packets[k].state_handle) is Result,
        all_known(store, packets) <==> forall|k: int|
            0 <= k < packets.len() ==> has_result(
                store.cell((#[trigger] packets[k]).state_handle)->Result_0,
                packets[k].snowflake,
            ),
{
    assert forall|k: int| 0 <= k < packets.len() implies is_known(store, #[trigger] packets[k])
        == has_result(
        store.cell(packets[k].state_handle)->Result_0,
        packets[k].snowflake,
    ) by {
        a_packet_is_seen_at_its_own_time(
            store.cell(packets[k].state_handle)->Result_0,
            packets[k],
        );
    }
    if all_known(store, packets) {
        assert forall|k: int| 0 <= k < packets.len() implies has_result(
            store.cell((#[trigger] packets[k]).state_handle)->Result_0,
            packets[k].snowflake,
        ) by {
            assert(is_known(store, packets[k]));
        }
    }
}

/// The results tell of the packet, whether it was seen or not.
pub open spec fn has_result(results: Seq<WpResult>, id: WpSnowflake) -> bool {
    was_seen(results, id) || was_missed(results, id)
}

} // verus!
