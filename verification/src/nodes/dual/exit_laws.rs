//! Which modes the packets have that come to a 2x2 component and that leave it.

use vstd::prelude::*;

use crate::concurrency::cell::{CellView, Tombstone};
use crate::concurrency::interaction_store::view::readdressed;
use crate::concurrency::island_laws::{
    a_registered_packet_has_a_new_mode, an_extracted_packet_is_gone, same_flight,
};
use crate::concurrency::operator::IslandView;
use crate::concurrency::slice::{
    lemma_led_keeps_islands, lemma_refs_left, refs_left, SliceView,
};
use crate::concurrency::snowflake::{
    lemma_ids_differ, snowflake_32, snowflakes_32_are_distinct,
};
use crate::nodes::dual::merge::Merging;
use crate::nodes::dual::sink::{every_packet_leaves_twice, left_turns, sink_pass, sink_turn, Modes};
use crate::nodes::packet::WavePacket;
use crate::nodes::turns::{is_turn, Turn};
use crate::types::WpSnowflake;

verus! {

/// A packet that came, the two that left for it, and their modes.
pub struct Split {
    pub wp: WavePacket,
    pub left: WavePacket,
    pub right: WavePacket,
    pub modes: Modes,
}

/// What became of the packets of the second pass, turn by turn.
pub open spec fn splits_of(m: Merging, order: Seq<Turn>, id: u8, count: int) -> Seq<Split>
    decreases order.len(),
{
    if order.len() == 0 {
        seq![]
    } else {
        let x = sink_pass(m, order, id, count)->0;
        let turn = order.last();
        splits_of(m, order.drop_last(), id, count).push(
            Split {
                wp: if turn.is_left {
                    x.left[turn.index as int]
                } else {
                    x.right[turn.index as int]
                },
                left: x.sink_left.last(),
                right: x.sink_right.last(),
                modes: if turn.is_left {
                    x.modes_left.last()
                } else {
                    x.modes_right.last()
                },
            },
        )
    }
}

/// Being led makes no island.
proof fn lemma_led_makes_no_island(slice: SliceView, handle: u32, other: u32)
    requires
        slice.wf(),
        slice.led_from(handle) is Some,
        slice.holds(other),
        (slice.led_from(handle)->0).0.cell(other) is Island,
    ensures
        slice.cell(other) is Island,
    decreases refs_left(slice.cells),
{
    if let CellView::Tombstone(tombstone) = slice.cell(handle) {
        let used = CellView::Tombstone(
            Tombstone {
                ref_cnt: (tombstone.ref_cnt - 1) as u8,
                move_destination: tombstone.move_destination,
            },
        );
        let p = slice.place(handle);
        assert(slice.indices[p] == handle);
        assert(slice.indices[slice.place(other)] == other);
        lemma_refs_left(slice.cells, p, used);
        let next = slice.with_cell(handle, used).noting_move(handle);
        assert(next.holds(other));
        lemma_led_makes_no_island(next, tombstone.move_destination, other);
    }
}

/// The ids tell all the packets apart, those that came and those that leave.
pub open spec fn tell_apart(splits: Seq<Split>) -> bool {
    &&& forall|s: int, t: int|
        0 <= s < t < splits.len() ==> (#[trigger] splits[s]).wp.snowflake != (
        #[trigger] splits[t]).wp.snowflake && splits[s].left.snowflake != splits[t].left.snowflake
            && splits[s].right.snowflake != splits[t].right.snowflake
    &&& forall|s: int, t: int|
        0 <= s < splits.len() && 0 <= t < splits.len() ==> {
            &&& (#[trigger] splits[s]).left.snowflake != (#[trigger] splits[t]).right.snowflake
            &&& splits[s].wp.snowflake != splits[t].left.snowflake
            &&& splits[s].wp.snowflake != splits[t].right.snowflake
        }
}

/// The island knows none of the packets that leave yet.
pub open spec fn are_new_to(island: IslandView, splits: Seq<Split>) -> bool {
    forall|t: int|
        0 <= t < splits.len() ==> !island.has_packet((#[trigger] splits[t]).left.snowflake)
            && !island.has_packet(splits[t].right.snowflake)
}

/// The id is that of a packet that came to the state behind the handle, or left it.
pub open spec fn is_split_id(splits: Seq<Split>, handle: u32, id: WpSnowflake) -> bool {
    exists|t: int|
        0 <= t < splits.len() && (#[trigger] splits[t]).wp.state_handle == handle && (
        splits[t].wp.snowflake == id || splits[t].left.snowflake == id || splits[t].right.snowflake
            == id)
}

/// The modes are that which the packet had, and new ones in which the two are that left.
pub open spec fn modes_fit(before: IslandView, after: IslandView, split: Split) -> bool {
    &&& before.has_packet(split.wp.snowflake)
    &&& split.modes.0 == before.mode_of(split.wp.snowflake)
    &&& after.has_packet(split.left.snowflake)
    &&& split.modes.1 == after.mode_of(split.left.snowflake)
    &&& after.has_packet(split.right.snowflake)
    &&& split.modes.2 == after.mode_of(split.right.snowflake)
    &&& before.mode_max <= split.modes.1 < after.mode_max
    &&& before.mode_max <= split.modes.2 < after.mode_max
    &&& split.modes.1 != split.modes.2
}

/// For each packet that came to the state behind the handle, two are in flight instead. All
/// else is as it was.
pub open spec fn has_split(
    before: IslandView,
    after: IslandView,
    splits: Seq<Split>,
    handle: u32,
) -> bool {
    &&& forall|t: int|
        0 <= t < splits.len() && (#[trigger] splits[t]).wp.state_handle == handle ==> modes_fit(
            before,
            after,
            splits[t],
        )
    &&& forall|s: int, t: int|
        0 <= s < t < splits.len() && (#[trigger] splits[s]).wp.state_handle == handle && (
        #[trigger] splits[t]).wp.state_handle == handle ==> {
            &&& splits[s].modes.1 != splits[t].modes.1
            &&& splits[s].modes.1 != splits[t].modes.2
            &&& splits[s].modes.2 != splits[t].modes.1
            &&& splits[s].modes.2 != splits[t].modes.2
        }
    &&& before.mode_max <= after.mode_max
    &&& after.operators == before.operators
    &&& forall|id: WpSnowflake|
        !is_split_id(splits, handle, id) ==> #[trigger] same_flight(before, after, id)
}

proof fn lemma_prefix_tells_apart(splits: Seq<Split>, island: IslandView)
    requires
        splits.len() > 0,
        tell_apart(splits),
    ensures
        tell_apart(splits.drop_last()),
        are_new_to(island, splits) ==> are_new_to(island, splits.drop_last()),
{
    let rest = splits.drop_last();
    assert(forall|i: int| 0 <= i < rest.len() ==> rest[i] == splits[i]);
}

/// The second pass splits every packet in the island that it is in.
pub proof fn packets_split_in_their_islands(
    m: Merging,
    order: Seq<Turn>,
    id: u8,
    count: int,
    handle: u32,
)
    requires
        m.slice.wf(),
        sink_pass(m, order, id, count) is Some,
        forall|i: int|
            0 <= i < order.len() ==> is_turn(#[trigger] order[i], m.left.len(), m.right.len()),
        m.slice.holds(handle),
        tell_apart(splits_of(m, order, id, count)),
        m.slice.cell(handle) matches CellView::Island(island) ==> are_new_to(
            island,
            splits_of(m, order, id, count),
        ),
    ensures
        ({
            let x = sink_pass(m, order, id, count)->0;
            let splits = splits_of(m, order, id, count);
            &&& x.slice.wf()
            &&& x.slice.indices == m.slice.indices
            &&& splits.len() == order.len()
            &&& match m.slice.cell(handle) {
                CellView::Island(island) => x.slice.cell(handle) matches CellView::Island(now)
                    && has_split(island, now, splits, handle),
                _ => !(x.slice.cell(handle) is Island) && forall|t: int|
                    0 <= t < splits.len() ==> (#[trigger] splits[t]).wp.state_handle != handle,
            }
        }),
    decreases order.len(),
{
    if order.len() > 0 {
        let rest = order.drop_last();
        let turn = order.last();
        let splits = splits_of(m, order, id, count);
        let earlier = splits_of(m, rest, id, count);
        assert(splits.drop_last() =~= earlier);
        if let CellView::Island(island) = m.slice.cell(handle) {
            lemma_prefix_tells_apart(splits, island);
        } else {
            lemma_prefix_tells_apart(
                splits,
                IslandView { operators: seq![], active_packets: seq![], mode_max: 0 },
            );
        }
        assert forall|i: int| 0 <= i < rest.len() implies is_turn(
            #[trigger] rest[i],
            m.left.len(),
            m.right.len(),
        ) by {
            assert(order[i] == rest[i]);
        }
        packets_split_in_their_islands(m, rest, id, count, handle);
        let sofar = sink_pass(m, rest, id, count)->0;
        let x = sink_turn(sofar, turn, id)->0;
        every_packet_leaves_twice(m, rest, id, count);
        every_packet_leaves_twice(m, order, id, count);
        assert(is_turn(order[order.len() - 1], m.left.len(), m.right.len()));
        let side = if turn.is_left {
            sofar.left
        } else {
            sofar.right
        };
        let from = side[turn.index as int].state_handle;
        lemma_led_keeps_islands(sofar.slice, from);
        let (led, end) = sofar.slice.led_from(from)->0;
        let source = readdressed(side[turn.index as int], end);
        let split = splits.last();
        assert(split.wp == source);
        assert(led.indices[led.place(end)] == end);
        assert(led.indices[led.place(handle)] == handle);
        assert(x.slice.indices == led.indices);
        if led.cell(handle) is Island {
            lemma_led_makes_no_island(sofar.slice, from, handle);
        }
        if sofar.slice.cell(handle) is Island {
            assert(led.cell(handle) == sofar.slice.cell(handle));
        }
        if end == handle {
            assert(m.slice.cell(handle) is Island);
            let island = m.slice.cell(handle)->Island_0;
            let then = sofar.slice.cell(handle)->Island_0;
            let now = x.slice.cell(handle)->Island_0;
            lemma_splits_on(island, then, earlier, split, handle, now);
            assert(splits =~= earlier.push(split));
        } else {
            assert(x.slice.cell(handle) == led.cell(handle));
            assert(split.wp.state_handle != handle);
            if m.slice.cell(handle) is Island {
                let island = m.slice.cell(handle)->Island_0;
                let now = x.slice.cell(handle)->Island_0;
                lemma_splits_elsewhere(island, now, earlier, split, handle);
                assert(splits =~= earlier.push(split));
            } else {
                assert forall|t: int| 0 <= t < splits.len() implies (
                #[trigger] splits[t]).wp.state_handle != handle by {
                    if t < earlier.len() {
                        assert(splits[t] == earlier[t]);
                    }
                }
            }
        }
    }
}

proof fn lemma_splits_elsewhere(
    before: IslandView,
    after: IslandView,
    earlier: Seq<Split>,
    split: Split,
    handle: u32,
)
    requires
        has_split(before, after, earlier, handle),
        split.wp.state_handle != handle,
    ensures
        has_split(before, after, earlier.push(split), handle),
{
    let all = earlier.push(split);
    assert(forall|i: int| 0 <= i < earlier.len() ==> all[i] == earlier[i]);
    assert forall|id: WpSnowflake| !is_split_id(all, handle, id) implies #[trigger] same_flight(
        before,
        after,
        id,
    ) by {
        if is_split_id(earlier, handle, id) {
            let t = choose|t: int|
                0 <= t < earlier.len() && (#[trigger] earlier[t]).wp.state_handle == handle && (
                earlier[t].wp.snowflake == id || earlier[t].left.snowflake == id
                    || earlier[t].right.snowflake == id);
            assert(all[t] == earlier[t]);
        }
    }
}

proof fn lemma_splits_on(
    before: IslandView,
    then: IslandView,
    earlier: Seq<Split>,
    split: Split,
    handle: u32,
    now: IslandView,
)
    requires
        has_split(before, then, earlier, handle),
        tell_apart(earlier.push(split)),
        are_new_to(before, earlier.push(split)),
        split.wp.state_handle == handle,
        then.has_packet(split.wp.snowflake),
        then.mode_max + 2 <= u16::MAX,
        split.modes.0 == then.mode_of(split.wp.snowflake),
        split.modes.1 == then.mode_max,
        split.modes.2 == then.mode_max + 1,
        now == then.without_packet(split.wp.snowflake).with_packet(
            split.left.snowflake,
        ).with_packet(split.right.snowflake),
    ensures
        has_split(before, now, earlier.push(split), handle),
{
    let all = earlier.push(split);
    let last = earlier.len() as int;
    let wp = split.wp.snowflake;
    let left = split.left.snowflake;
    let right = split.right.snowflake;
    let out = then.without_packet(wp);
    let half = out.with_packet(left);
    assert(all[last] == split);
    assert(forall|i: int| 0 <= i < earlier.len() ==> all[i] == earlier[i]);
    assert forall|t: int| 0 <= t < earlier.len() implies {
        let one = #[trigger] all[t];
        &&& one.wp.snowflake != wp && one.wp.snowflake != left && one.wp.snowflake != right
        &&& one.left.snowflake != wp && one.left.snowflake != left && one.left.snowflake != right
        &&& one.right.snowflake != wp && one.right.snowflake != left && one.right.snowflake
            != right
    } by {
        assert(all[t].wp.snowflake != all[last].wp.snowflake);
        assert(all[last].left.snowflake != all[t].right.snowflake);
        assert(all[last].wp.snowflake != all[t].left.snowflake);
    }
    assert(wp != left && wp != right && left != right) by {
        assert(all[last].left.snowflake != all[last].right.snowflake);
    }
    assert forall|id: WpSnowflake| id == wp || id == left || id == right implies !is_split_id(
        earlier,
        handle,
        id,
    ) by {
        if is_split_id(earlier, handle, id) {
            let t = choose|t: int|
                0 <= t < earlier.len() && (#[trigger] earlier[t]).wp.state_handle == handle && (
                earlier[t].wp.snowflake == id || earlier[t].left.snowflake == id
                    || earlier[t].right.snowflake == id);
            assert(all[t] == earlier[t]);
        }
    }
    assert(same_flight(before, then, wp));
    assert(same_flight(before, then, left));
    assert(same_flight(before, then, right));
    assert(!before.has_packet(left) && !before.has_packet(right)) by {
        assert(!before.has_packet(all[last].left.snowflake));
    }
    an_extracted_packet_is_gone(then, wp);
    assert(same_flight(then, out, left) && same_flight(then, out, right));
    a_registered_packet_has_a_new_mode(out, left);
    assert(same_flight(out, half, right));
    a_registered_packet_has_a_new_mode(half, right);
    assert(same_flight(half, now, left));
    assert forall|id: WpSnowflake| id != wp && id != left && id != right implies #[trigger]
        same_flight(then, now, id) by {
        assert(same_flight(then, out, id));
        assert(same_flight(out, half, id));
        assert(same_flight(half, now, id));
    }
    assert forall|t: int| 0 <= t < all.len() && (#[trigger] all[t]).wp.state_handle
        == handle implies modes_fit(before, now, all[t]) by {
        if t < last {
            assert(modes_fit(before, then, earlier[t]));
            assert(same_flight(then, now, all[t].left.snowflake));
            assert(same_flight(then, now, all[t].right.snowflake));
        }
    }
    assert forall|s: int, t: int|
        0 <= s < t < all.len() && (#[trigger] all[s]).wp.state_handle == handle && (
        #[trigger] all[t]).wp.state_handle == handle implies {
        &&& all[s].modes.1 != all[t].modes.1
        &&& all[s].modes.1 != all[t].modes.2
        &&& all[s].modes.2 != all[t].modes.1
        &&& all[s].modes.2 != all[t].modes.2
    } by {
        assert(modes_fit(before, then, earlier[s]));
        if t < last {
            assert(all[t] == earlier[t]);
        }
    }
    assert forall|id: WpSnowflake| !is_split_id(all, handle, id) implies #[trigger] same_flight(
        before,
        now,
        id,
    ) by {
        assert(all[last].wp.state_handle == handle);
        if is_split_id(earlier, handle, id) {
            let t = choose|t: int|
                0 <= t < earlier.len() && (#[trigger] earlier[t]).wp.state_handle == handle && (
                earlier[t].wp.snowflake == id || earlier[t].left.snowflake == id
                    || earlier[t].right.snowflake == id);
            assert(all[t] == earlier[t]);
        }
        assert(same_flight(before, then, id));
        assert(same_flight(then, now, id));
    }
}

/// The packet is the same, under another id.
pub open spec fn is_twin(one: WavePacket, other: WavePacket) -> bool {
    &&& one.time == other.time
    &&& one.time_sigma == other.time_sigma
    &&& one.wavelength_bits == other.wavelength_bits
    &&& one.wavelength_sigma_bits == other.wavelength_sigma_bits
    &&& one.state_handle == other.state_handle
}

/// In each turn the packet leaves through either exit: the same time, the same shape, the same
/// state.
pub proof fn both_exits_get_the_packet(
    m: Merging,
    order: Seq<Turn>,
    id: u8,
    count: int,
    t: int,
)
    requires
        m.slice.wf(),
        sink_pass(m, order, id, count) is Some,
        forall|i: int|
            0 <= i < order.len() ==> is_turn(#[trigger] order[i], m.left.len(), m.right.len()),
        0 <= t < order.len(),
    ensures
        ({
            let x = sink_pass(m, order, id, count)->0;
            let split = splits_of(m, order, id, count)[t];
            &&& splits_of(m, order, id, count).len() == order.len()
            &&& x.sink_left.len() == order.len()
            &&& x.sink_right.len() == order.len()
            &&& x.sink_left[t] == split.left
            &&& x.sink_right[t] == split.right
            &&& is_twin(split.left, split.wp)
            &&& is_twin(split.right, split.wp)
        }),
    decreases order.len(),
{
    let rest = order.drop_last();
    assert forall|i: int| 0 <= i < rest.len() implies is_turn(
        #[trigger] rest[i],
        m.left.len(),
        m.right.len(),
    ) by {
        assert(order[i] == rest[i]);
    }
    every_packet_leaves_twice(m, rest, id, count);
    every_packet_leaves_twice(m, order, id, count);
    assert(is_turn(order[order.len() - 1], m.left.len(), m.right.len()));
    lemma_splits_len(m, order, id, count);
    if t < rest.len() {
        both_exits_get_the_packet(m, rest, id, count, t);
    }
}

proof fn lemma_splits_len(m: Merging, order: Seq<Turn>, id: u8, count: int)
    ensures
        splits_of(m, order, id, count).len() == order.len(),
    decreases order.len(),
{
    if order.len() > 0 {
        lemma_splits_len(m, order.drop_last(), id, count);
    }
}

/// The packets that leave have ids of their own, as long as the batch does not take the
/// generator all the way round.
pub proof fn leaving_packets_have_their_own_ids(
    m: Merging,
    order: Seq<Turn>,
    id: u8,
    count: int,
    s: int,
    t: int,
)
    requires
        sink_pass(m, order, id, count) is Some,
        0 <= s < order.len(),
        0 <= t < order.len(),
        2 * order.len() <= 0x100_0000,
    ensures
        ({
            let x = sink_pass(m, order, id, count)->0;
            &&& x.sink_left[s].snowflake != x.sink_right[t].snowflake
            &&& s != t ==> x.sink_left[s].snowflake != x.sink_left[t].snowflake
            &&& s != t ==> x.sink_right[s].snowflake != x.sink_right[t].snowflake
            &&& x.sink_left[s].snowflake % 0x100 == id
            &&& x.sink_right[s].snowflake % 0x100 == id
        }),
{
    lemma_exit_ids(m, order, id, count, s);
    lemma_exit_ids(m, order, id, count, t);
    lemma_ids_differ(id, count + 2 * s + 1, count + 2 * t + 2);
    if s != t {
        lemma_ids_differ(id, count + 2 * s + 1, count + 2 * t + 1);
        lemma_ids_differ(id, count + 2 * s + 2, count + 2 * t + 2);
    }
    snowflakes_32_are_distinct(id, count + 2 * s + 1, id, count + 2 * s + 2);
    snowflakes_32_are_distinct(id, count + 2 * s + 2, id, count + 2 * s + 3);
}

proof fn lemma_exit_ids(m: Merging, order: Seq<Turn>, id: u8, count: int, t: int)
    requires
        sink_pass(m, order, id, count) is Some,
        0 <= t < order.len(),
    ensures
        ({
            let x = sink_pass(m, order, id, count)->0;
            &&& x.count == count + 2 * order.len()
            &&& x.sink_left.len() == order.len()
            &&& x.sink_right.len() == order.len()
            &&& x.sink_left[t].snowflake == snowflake_32(
                id,
                count + 2 * t + 1,
            ) as u32
            &&& x.sink_right[t].snowflake == snowflake_32(
                id,
                count + 2 * t + 2,
            ) as u32
        }),
    decreases order.len(),
{
    let rest = order.drop_last();
    reveal_with_fuel(sink_pass, 2);
    if rest.len() > 0 {
        lemma_exit_ids(
            m,
            rest,
            id,
            count,
            if t < rest.len() {
                t
            } else {
                0
            },
        );
    }
}

/// The packet of a turn, and its modes, as the pass leaves them.
pub proof fn lemma_split_of_turn(m: Merging, order: Seq<Turn>, id: u8, count: int, t: int)
    requires
        m.slice.wf(),
        sink_pass(m, order, id, count) is Some,
        forall|i: int|
            0 <= i < order.len() ==> is_turn(#[trigger] order[i], m.left.len(), m.right.len()),
        forall|i: int, k: int|
            0 <= i < k < order.len() && (#[trigger] order[i]).is_left == (
            #[trigger] order[k]).is_left ==> order[i].index != order[k].index,
        0 <= t < order.len(),
    ensures
        ({
            let x = sink_pass(m, order, id, count)->0;
            let split = splits_of(m, order, id, count)[t];
            let turn = order[t];
            let k = left_turns(order.take(t)) as int;
            &&& split.wp == (if turn.is_left {
                x.left[turn.index as int]
            } else {
                x.right[turn.index as int]
            })
            &&& turn.is_left ==> 0 <= k < x.modes_left.len() && split.modes == x.modes_left[k]
            &&& !turn.is_left ==> 0 <= t - k < x.modes_right.len() && split.modes
                == x.modes_right[t - k]
        }),
    decreases order.len(),
{
    let rest = order.drop_last();
    let last = order.last();
    assert forall|i: int| 0 <= i < rest.len() implies is_turn(
        #[trigger] rest[i],
        m.left.len(),
        m.right.len(),
    ) by {
        assert(order[i] == rest[i]);
    }
    every_packet_leaves_twice(m, rest, id, count);
    every_packet_leaves_twice(m, order, id, count);
    assert(is_turn(order[order.len() - 1], m.left.len(), m.right.len()));
    lemma_splits_len(m, order, id, count);
    lemma_left_turns_bound(order.take(t));
    if t < rest.len() {
        assert forall|i: int, k: int|
            0 <= i < k < rest.len() && (#[trigger] rest[i]).is_left == (
            #[trigger] rest[k]).is_left implies rest[i].index != rest[k].index by {
            assert(order[i] == rest[i] && order[k] == rest[k]);
        }
        lemma_split_of_turn(m, rest, id, count, t);
        assert(rest.take(t) =~= order.take(t));
        assert(rest[t] == order[t]);
        assert(order[t].is_left == order[order.len() - 1].is_left ==> order[t].index
            != order[order.len() - 1].index);
    } else {
        assert(order.take(t) =~= rest);
    }
}

proof fn lemma_left_turns_bound(order: Seq<Turn>)
    ensures
        left_turns(order) <= order.len(),
    decreases order.len(),
{
    if order.len() > 0 {
        lemma_left_turns_bound(order.drop_last());
    }
}

} // verus!
