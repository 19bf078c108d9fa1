//! What the operators of a 2x2 component join.

use vstd::prelude::*;

use crate::concurrency::cell::CellView;
use crate::concurrency::operator::{IslandView, Operator};
use crate::concurrency::slice::{lemma_led_keeps_islands, SliceView};
use crate::nodes::dual::exit_laws::{
    are_new_to, both_exits_get_the_packet, is_twin, lemma_split_of_turn, modes_fit,
    packets_split_in_their_islands, splits_of, tell_apart,
};
use crate::nodes::dual::meeting_laws::{lemma_turn_meetings, lemma_used};
use crate::nodes::dual::merge::{
    merge_pass, merging_keeps_the_slice, merging_only_readdresses, Merging,
};
use crate::nodes::dual::operate::{
    lemma_run, meetings_of, operate_pass, turn_others, turn_packet, turn_run,
};
use crate::nodes::dual::operate_laws::added_at;
use crate::nodes::dual::overlap_laws::operators_go_to_their_islands;
use crate::nodes::dual::sink::{left_turns, sink_pass, Modes, Sinking};
use crate::nodes::dual::state_laws::{lemma_same_run, lemma_turn_shares_a_state};
use crate::nodes::dual::worker::{
    lemma_left_turns_front, lemma_ready_to_operate, prepared, scene_of, weighed,
};
use crate::nodes::packet::{all_fit, WavePacket};
use crate::nodes::turns::{
    every_packet_has_its_turn, has_turn, is_turn, is_turn_of, left_is_next, turns_from, turns_of,
    Turn,
};
use crate::types::OpStoreHandle;

verus! {

/// The two batches when the states of packets that overlap have been merged.
pub open spec fn merged_of(
    left: Seq<WavePacket>,
    right: Seq<WavePacket>,
    slice: SliceView,
) -> Merging {
    merge_pass(Merging { left, right, slice }, turns_of(left, right))->0
}

/// The ids tell the packets apart, and no island knows those that leave yet.
pub open spec fn ids_are_new(
    left: Seq<WavePacket>,
    right: Seq<WavePacket>,
    slice: SliceView,
    id: u8,
    count: int,
) -> bool {
    let m = merged_of(left, right, slice);
    let splits = splits_of(m, turns_of(left, right), id, count);
    &&& tell_apart(splits)
    &&& forall|handle: u32| #[trigger]
        m.slice.holds(handle) ==> (m.slice.cell(handle) matches CellView::Island(island)
            ==> are_new_to(island, splits))
}

proof fn lemma_sink_keeps_the_handles(m: Merging, order: Seq<Turn>, id: u8, count: int)
    requires
        m.slice.wf(),
        sink_pass(m, order, id, count) is Some,
    ensures
        (sink_pass(m, order, id, count)->0).slice.indices == m.slice.indices,
        (sink_pass(m, order, id, count)->0).slice.wf(),
    decreases order.len(),
{
    if order.len() > 0 {
        let rest = order.drop_last();
        lemma_sink_keeps_the_handles(m, rest, id, count);
        let x = sink_pass(m, rest, id, count)->0;
        let turn = order.last();
        let side = if turn.is_left {
            x.left
        } else {
            x.right
        };
        lemma_led_keeps_islands(x.slice, side[turn.index as int].state_handle);
    }
}

/// The place of a packet is the number of turns that its port had before.
proof fn lemma_place_of_turn(
    left: Seq<WavePacket>,
    right: Seq<WavePacket>,
    l: int,
    r: int,
    t: int,
)
    requires
        0 <= l <= left.len() <= usize::MAX,
        0 <= r <= right.len() <= usize::MAX,
        0 <= t < turns_from(left, right, l, r).len(),
    ensures
        ({
            let all = turns_from(left, right, l, r);
            if all[t].is_left {
                all[t].index == l + left_turns(all.take(t))
            } else {
                all[t].index == r + t - left_turns(all.take(t))
            }
        }),
    decreases t,
{
    let all = turns_from(left, right, l, r);
    let is_left = left_is_next(left, right, l, r);
    let (l2, r2) = if is_left {
        (l + 1, r)
    } else {
        (l, r + 1)
    };
    assert(l < left.len() || r < right.len());
    let rest = turns_from(left, right, l2, r2);
    assert(all == seq![all[0]] + rest);
    if t > 0 {
        lemma_place_of_turn(left, right, l2, r2, t - 1);
        assert(all.take(t) =~= seq![all[0]] + rest.take(t - 1));
        lemma_left_turns_front(all[0], rest.take(t - 1));
        assert(all[t] == rest[t - 1]);
    } else {
        assert(all.take(0) =~= seq![]);
    }
}

/// The modes that a component has noted for the packet of a turn.
spec fn noted(x: Sinking, turn: Turn) -> Modes {
    if turn.is_left {
        x.modes_left[turn.index as int]
    } else {
        x.modes_right[turn.index as int]
    }
}

/// The packet of a turn was in the first of its modes when it came, and the packets that left
/// for it are in the other two: first that of the left exit, then that of the right.
pub open spec fn has_modes(
    came: IslandView,
    now: IslandView,
    x: Sinking,
    order: Seq<Turn>,
    t: int,
    modes: Modes,
) -> bool {
    let wp = turn_packet(x.left, x.right, order[t]);
    &&& came.has_packet(wp.snowflake)
    &&& modes.0 == came.mode_of(wp.snowflake)
    &&& now.has_packet(x.sink_left[t].snowflake)
    &&& modes.1 == now.mode_of(x.sink_left[t].snowflake)
    &&& now.has_packet(x.sink_right[t].snowflake)
    &&& modes.2 == now.mode_of(x.sink_right[t].snowflake)
    &&& is_twin(x.sink_left[t], wp)
    &&& is_twin(x.sink_right[t], wp)
}

proof fn lemma_modes_of_turn(
    left: Seq<WavePacket>,
    right: Seq<WavePacket>,
    slice: SliceView,
    id: u8,
    count: int,
    t: int,
)
    requires
        left.len() <= usize::MAX,
        right.len() <= usize::MAX,
        all_fit(left),
        all_fit(right),
        slice.wf(),
        prepared(left, right, slice, id, count) is Some,
        ids_are_new(left, right, slice, id, count),
        0 <= t < turns_of(left, right).len(),
    ensures
        ({
            let order = turns_of(left, right);
            let x = prepared(left, right, slice, id, count)->0;
            let m = merged_of(left, right, slice);
            let handle = turn_packet(x.left, x.right, order[t]).state_handle;
            &&& m.slice.holds(handle)
            &&& x.slice.holds(handle)
            &&& m.slice.cell(handle) is Island
            &&& x.slice.cell(handle) is Island
            &&& has_modes(
                m.slice.cell(handle)->Island_0,
                x.slice.cell(handle)->Island_0,
                x,
                order,
                t,
                noted(x, order[t]),
            )
        }),
{
    let order = turns_of(left, right);
    let start = Merging { left, right, slice };
    let m = merged_of(left, right, slice);
    let x = prepared(left, right, slice, id, count)->0;
    every_packet_has_its_turn(left, right, 0, 0);
    assert(order == turns_from(left, right, 0, 0));
    assert forall|i: int| 0 <= i < order.len() implies is_turn(
        #[trigger] order[i],
        left.len(),
        right.len(),
    ) by {
        assert(turns_from(left, right, 0, 0)[i] == order[i]);
    }
    merging_only_readdresses(start, order);
    merging_keeps_the_slice(start, order);
    lemma_ready_to_operate(left, right, slice, id, count);
    lemma_sink_keeps_the_handles(m, order, id, count);
    assert forall|i: int, k: int|
        0 <= i < k < order.len() && (#[trigger] order[i]).is_left == (
        #[trigger] order[k]).is_left implies order[i].index != order[k].index by {
        let a = turns_from(left, right, 0, 0)[i];
        let b = turns_from(left, right, 0, 0)[k];
        assert(a.index < b.index);
    }
    let turn = order[t];
    let handle = turn_packet(x.left, x.right, turn).state_handle;
    assert(is_turn(turn, left.len(), right.len()));
    assert(x.slice.holds(handle) && x.slice.cell(handle) is Island);
    assert(m.slice.holds(handle));
    lemma_split_of_turn(m, order, id, count, t);
    lemma_place_of_turn(left, right, 0, 0, t);
    both_exits_get_the_packet(m, order, id, count, t);
    packets_split_in_their_islands(m, order, id, count, handle);
    let split = splits_of(m, order, id, count)[t];
    assert(split.wp == turn_packet(x.left, x.right, turn));
    assert(split.wp.state_handle == handle);
    assert(m.slice.cell(handle) is Island);
    assert(modes_fit(m.slice.cell(handle)->Island_0, x.slice.cell(handle)->Island_0, split));
}

/// The operator leads the packet of turn `t` and that of turn `u` each from its mode to those
/// of the packets that left for it: sinks 0 and 1 are the left and the right exit of the one,
/// sinks 2 and 3 those of the other.
pub open spec fn joins(
    operator: Operator,
    came: IslandView,
    now: IslandView,
    x: Sinking,
    order: Seq<Turn>,
    t: int,
    u: int,
) -> bool {
    operator matches Operator::DualBivariate { source_modes, sink_modes, .. } && {
        &&& has_modes(came, now, x, order, t, (source_modes[0], sink_modes[0], sink_modes[1]))
        &&& has_modes(came, now, x, order, u, (source_modes[1], sink_modes[2], sink_modes[3]))
    }
}

/// The operator leads the packet of turn `t` from its mode to those of the packets that left
/// for it, left exit first.
pub open spec fn splits(
    operator: Operator,
    came: IslandView,
    now: IslandView,
    x: Sinking,
    order: Seq<Turn>,
    t: int,
) -> bool {
    operator matches Operator::DualUnivariate { source_modes, sink_modes, .. } && has_modes(
        came,
        now,
        x,
        order,
        t,
        (source_modes[0], sink_modes[0], sink_modes[1]),
    )
}

/// An operator for two packets is about the packet of its turn and the next of the other port
/// that it overlaps: it is that component, at the time of the packet whose turn it is, and was
/// weighed by those two.
pub open spec fn is_meeting_in<F: Fn(WavePacket, WavePacket) -> u64>(
    operator: Operator,
    weigh: F,
    early: WavePacket,
    late: WavePacket,
    seq: OpStoreHandle,
) -> bool {
    operator matches Operator::DualBivariate {
        store_handle,
        time,
        packet_indistinguishability_bits,
        ..
    } && {
        &&& store_handle == seq
        &&& time == early.time
        &&& weigh.ensures((early, late), packet_indistinguishability_bits)
    }
}

/// An operator for one packet is that component, at the time of the packet, and names the port
/// where it came in.
pub open spec fn is_lone_in(
    operator: Operator,
    wp: WavePacket,
    is_left: bool,
    seq: OpStoreHandle,
) -> bool {
    operator matches Operator::DualUnivariate { store_handle, time, incidence_port_id, .. } && {
        &&& store_handle == seq
        &&& time == wp.time
        &&& is_left ==> incidence_port_id == 0
        &&& !is_left ==> incidence_port_id == 1
    }
}

/// The operators of a component join the modes of its packets. Each that a turn records is for
/// the packet of the turn alone, or for it and a packet of the other port that it overlaps, in
/// the same state. It consumes the modes that these had when they came, and leads to the modes
/// that the packets have which left for them, those of the left exit before those of the
/// right.
pub proof fn operators_join_the_modes_of_their_packets<F: Fn(WavePacket, WavePacket) -> u64>(
    left: Seq<WavePacket>,
    right: Seq<WavePacket>,
    slice: SliceView,
    id: u8,
    count: int,
    seq: OpStoreHandle,
    weigh: F,
    weights: Seq<u64>,
    t: int,
    j: int,
)
    requires
        left.len() <= usize::MAX,
        right.len() <= usize::MAX,
        all_fit(left),
        all_fit(right),
        slice.wf(),
        prepared(left, right, slice, id, count) is Some,
        ids_are_new(left, right, slice, id, count),
        ({
            let x = prepared(left, right, slice, id, count)->0;
            weighed(weigh, meetings_of(x.left, x.right, turns_of(left, right)), weights)
        }),
        0 <= t < turns_of(left, right).len(),
        ({
            let x = prepared(left, right, slice, id, count)->0;
            0 <= j < added_at(
                scene_of(x),
                x.slice,
                turns_of(left, right),
                seq,
                weights,
                t,
            ).len()
        }),
    ensures
        ({
            let order = turns_of(left, right);
            let x = prepared(left, right, slice, id, count)->0;
            let after = operate_pass(scene_of(x), x.slice, order, seq, weights).slice;
            let operator = added_at(scene_of(x), x.slice, order, seq, weights, t)[j];
            let turn = order[t];
            let early = turn_packet(x.left, x.right, turn);
            let others = turn_others(x.left, x.right, turn);
            let came = merged_of(left, right, slice).slice.cell(early.state_handle)->Island_0;
            let now = after.cell(early.state_handle)->Island_0;
            &&& merged_of(left, right, slice).slice.cell(early.state_handle) is Island
            &&& after.cell(early.state_handle) is Island
            &&& operator is DualBivariate || operator is DualUnivariate
            &&& operator is DualBivariate ==> {
                let late = others[turn.other + j];
                &&& turn.other + j < others.len()
                &&& late.state_handle == early.state_handle
                &&& early.meets(late)
                &&& is_meeting_in(operator, weigh, early, late, seq)
                &&& exists|u: int|
                    0 <= u < order.len() && is_turn_of(
                        #[trigger] order[u],
                        !turn.is_left,
                        turn.other + j,
                    ) && joins(operator, came, now, x, order, t, u)
            }
            &&& operator is DualUnivariate ==> is_lone_in(operator, early, turn.is_left, seq)
                && splits(operator, came, now, x, order, t)
        }),
{
    let order = turns_of(left, right);
    let x = prepared(left, right, slice, id, count)->0;
    let scene = scene_of(x);
    let m = merged_of(left, right, slice);
    let turn = order[t];
    let early = turn_packet(x.left, x.right, turn);
    let others = turn_others(x.left, x.right, turn);
    let handle = early.state_handle;
    every_packet_has_its_turn(left, right, 0, 0);
    assert(order == turns_from(left, right, 0, 0));
    assert forall|i: int| 0 <= i < order.len() implies is_turn(
        #[trigger] order[i],
        left.len(),
        right.len(),
    ) by {
        assert(turns_from(left, right, 0, 0)[i] == order[i]);
    }
    assert(is_turn(turn, left.len(), right.len()));
    lemma_ready_to_operate(left, right, slice, id, count);
    lemma_modes_of_turn(left, right, slice, id, count, t);
    lemma_after(left, right, slice, id, count, seq, weights, handle);
    let after = operate_pass(scene, x.slice, order, seq, weights).slice;
    let came = m.slice.cell(handle)->Island_0;
    let then = x.slice.cell(handle)->Island_0;
    let now = after.cell(handle)->Island_0;
    let operator = added_at(scene, x.slice, order, seq, weights, t)[j];
    lemma_used(scene, x.slice, order, seq, weights, t);
    if turn_run(x.left, x.right, turn) > 0 {
        let k = turn.other + j;
        lemma_run(early, others, turn.other as int);
        lemma_same_run(left, right, x.left, x.right, turn);
        lemma_turn_shares_a_state(left, right, slice, id, count, t, j);
        lemma_turn_meetings(x.left, x.right, order, t, j);
        assert(early.meets(others[k]));
        assert(has_turn(order, !turn.is_left, k));
        let other_side = !turn.is_left;
        let u = choose|u: int|
            0 <= u < order.len() && #[trigger] is_turn_of(order[u], other_side, k);
        lemma_modes_of_turn(left, right, slice, id, count, u);
        assert(turn_packet(x.left, x.right, order[u]) == others[k]);
        assert(has_modes(came, then, x, order, u, noted(x, order[u])));
        assert(joins(operator, came, now, x, order, t, u));
        let at = (meetings_of(x.left, x.right, order.take(t)).len() + j) as int;
        assert(meetings_of(x.left, x.right, order)[at] == (early, others[k]));
        assert(is_meeting_in(operator, weigh, early, others[k], seq));
    } else {
        assert(splits(operator, came, now, x, order, t));
    }
}

/// The third pass leaves the packets of an island as they are.
proof fn lemma_after(
    left: Seq<WavePacket>,
    right: Seq<WavePacket>,
    slice: SliceView,
    id: u8,
    count: int,
    seq: OpStoreHandle,
    weights: Seq<u64>,
    handle: u32,
)
    requires
        left.len() <= usize::MAX,
        right.len() <= usize::MAX,
        all_fit(left),
        all_fit(right),
        slice.wf(),
        prepared(left, right, slice, id, count) is Some,
        (prepared(left, right, slice, id, count)->0).slice.holds(handle),
        (prepared(left, right, slice, id, count)->0).slice.cell(handle) is Island,
    ensures
        ({
            let x = prepared(left, right, slice, id, count)->0;
            let order = turns_of(left, right);
            let after = operate_pass(scene_of(x), x.slice, order, seq, weights).slice;
            let then = x.slice.cell(handle)->Island_0;
            &&& after.cell(handle) is Island
            &&& (after.cell(handle)->Island_0).active_packets == then.active_packets
            &&& (after.cell(handle)->Island_0).mode_max == then.mode_max
        }),
{
    let order = turns_of(left, right);
    let x = prepared(left, right, slice, id, count)->0;
    lemma_ready_to_operate(left, right, slice, id, count);
    every_packet_has_its_turn(left, right, 0, 0);
    assert forall|i: int| 0 <= i < order.len() implies is_turn(
        #[trigger] order[i],
        x.left.len(),
        x.right.len(),
    ) by {
        assert(turns_from(left, right, 0, 0)[i] == order[i]);
    }
    let n = order.len() as int;
    operators_go_to_their_islands(scene_of(x), x.slice, order, seq, weights, handle, n);
    assert(order.take(n) =~= order);
}

} // verus!
