//! What a 2x2 component records for packets that overlap, and for those that do not.

use vstd::prelude::*;

use crate::concurrency::cell::CellView;
use crate::concurrency::operator::Operator;
use crate::concurrency::slice::SliceView;
use crate::nodes::dual::meeting_laws::{
    alone_in, every_meeting_has_its_operator, lemma_turn_meetings, meets_none,
    operators_follow_the_meetings, takes, together_in,
};
use crate::nodes::dual::merge::same_but_handles;
use crate::nodes::dual::operate::{
    in_islands, meetings_of, operate_pass, turn_others, turn_packet, turn_run, Scene,
};
use crate::nodes::dual::operate_laws::added_at;
use crate::nodes::dual::state_laws::packets_that_meet_share_a_state;
use crate::nodes::dual::worker::{lemma_ready_to_operate, prepared, scene_of};
use crate::nodes::packet::{alike, all_fit, in_step, WavePacket};
use crate::nodes::pairing_laws::in_order;
use crate::nodes::turns::{
    every_packet_has_its_turn, is_turn, left_is_next, turns_from, turns_of, Turn,
};
use crate::types::OpStoreHandle;

verus! {

proof fn lemma_same_turns(
    left: Seq<WavePacket>,
    right: Seq<WavePacket>,
    left2: Seq<WavePacket>,
    right2: Seq<WavePacket>,
    l: int,
    r: int,
)
    requires
        same_but_handles(left, left2),
        same_but_handles(right, right2),
        0 <= l <= left.len(),
        0 <= r <= right.len(),
    ensures
        turns_from(left, right, l, r) == turns_from(left2, right2, l, r),
    decreases left.len() - l + right.len() - r,
{
    if l < left.len() || r < right.len() {
        assert(l < left.len() ==> left2[l].time == left[l].time);
        assert(r < right.len() ==> right2[r].time == right[r].time);
        if left_is_next(left, right, l, r) {
            lemma_same_turns(left, right, left2, right2, l + 1, r);
        } else {
            lemma_same_turns(left, right, left2, right2, l, r + 1);
        }
    }
}

/// Packets keep their places in time under new handles.
proof fn lemma_same_times(before: Seq<WavePacket>, after: Seq<WavePacket>)
    requires
        same_but_handles(before, after),
    ensures
        in_step(before) ==> in_step(after),
        in_order(before) ==> in_order(after),
        forall|k: int|
            0 <= k < before.len() ==> (#[trigger] after[k]).lead() == before[k].lead()
                && after[k].trail() == before[k].trail() && after[k].time_sigma
                == before[k].time_sigma,
{
    if in_step(before) {
        assert forall|i: int, k: int| 0 <= i <= k < after.len() implies (#[trigger] after[i]).time
            <= (#[trigger] after[k]).time && after[i].lead() <= after[k].lead() by {
            assert(before[i].time <= before[k].time);
        }
    }
    if in_order(before) {
        assert forall|i: int, k: int| 0 <= i <= k < after.len() implies (
        #[trigger] after[i]).lead() <= (#[trigger] after[k]).lead() && after[i].trail()
            <= after[k].trail() by {
            assert(before[i].lead() <= before[k].lead());
        }
    }
}

/// What the first `n` turns add to the island behind a handle, turn after turn.
pub open spec fn added_to(
    x: Scene,
    slice: SliceView,
    order: Seq<Turn>,
    seq: OpStoreHandle,
    weights: Seq<u64>,
    handle: u32,
    n: int,
) -> Seq<Operator>
    decreases n,
{
    if n <= 0 {
        seq![]
    } else {
        added_to(x, slice, order, seq, weights, handle, n - 1) + if turn_packet(
            x.left,
            x.right,
            order[n - 1],
        ).state_handle == handle {
            added_at(x, slice, order, seq, weights, n - 1)
        } else {
            seq![]
        }
    }
}

/// The third pass adds to each island what the turns of its packets add, in their order,
/// and changes nothing else.
pub proof fn operators_go_to_their_islands(
    x: Scene,
    slice: SliceView,
    order: Seq<Turn>,
    seq: OpStoreHandle,
    weights: Seq<u64>,
    handle: u32,
    n: int,
)
    requires
        slice.wf(),
        in_islands(slice, x.left),
        in_islands(slice, x.right),
        forall|i: int|
            0 <= i < order.len() ==> is_turn(#[trigger] order[i], x.left.len(), x.right.len()),
        0 <= n <= order.len(),
        slice.holds(handle),
    ensures
        ({
            let after = operate_pass(x, slice, order.take(n), seq, weights).slice;
            &&& after.indices == slice.indices
            &&& after.cells.len() == slice.cells.len()
            &&& match slice.cell(handle) {
                CellView::Island(island) => after.cell(handle) == CellView::Island(
                    island.with_operators(added_to(x, slice, order, seq, weights, handle, n)),
                ),
                _ => after.cell(handle) == slice.cell(handle),
            }
        }),
    decreases n,
{
    if n == 0 {
        if let CellView::Island(island) = slice.cell(handle) {
            assert(island.operators + Seq::<Operator>::empty() =~= island.operators);
        }
    } else {
        assert(order.take(n).drop_last() =~= order.take(n - 1));
        let turn = order[n - 1];
        assert(order.take(n).last() == turn);
        assert(is_turn(turn, x.left.len(), x.right.len()));
        let early = turn_packet(x.left, x.right, turn);
        let h = early.state_handle;
        assert(slice.holds(h) && slice.cell(h) is Island);
        operators_go_to_their_islands(x, slice, order, seq, weights, handle, n - 1);
        operators_go_to_their_islands(x, slice, order, seq, weights, h, n - 1);
        let before = operate_pass(x, slice, order.take(n - 1), seq, weights).slice;
        let after = operate_pass(x, slice, order.take(n), seq, weights).slice;
        let p = slice.place(handle);
        let q = slice.place(h);
        assert(slice.indices[p] == handle && slice.indices[q] == h);
        assert(before.place(handle) == p && before.place(h) == q);
        assert(after.place(handle) == p);
        if let CellView::Island(island) = slice.cell(handle) {
            let had = added_to(x, slice, order, seq, weights, handle, n - 1);
            let more = added_at(x, slice, order, seq, weights, n - 1);
            assert((island.operators + had) + more =~= island.operators + (had + more));
            assert(had + Seq::<Operator>::empty() =~= had);
        }
    }
}

proof fn lemma_added(
    x: Scene,
    slice: SliceView,
    order: Seq<Turn>,
    seq: OpStoreHandle,
    weights: Seq<u64>,
    n: int,
    t: int,
    j: int,
)
    requires
        0 <= t < n <= order.len(),
        0 <= j < added_at(x, slice, order, seq, weights, t).len(),
    ensures
        added_to(
            x,
            slice,
            order,
            seq,
            weights,
            turn_packet(x.left, x.right, order[t]).state_handle,
            n,
        ).contains(added_at(x, slice, order, seq, weights, t)[j]),
    decreases n,
{
    let handle = turn_packet(x.left, x.right, order[t]).state_handle;
    let had = added_to(x, slice, order, seq, weights, handle, n - 1);
    let all = added_to(x, slice, order, seq, weights, handle, n);
    let operator = added_at(x, slice, order, seq, weights, t)[j];
    if t < n - 1 {
        lemma_added(x, slice, order, seq, weights, n - 1, t, j);
        let i = had.index_of(operator);
        assert(all[i] == operator);
    } else {
        assert(all[had.len() + j] == operator);
    }
}

/// The island behind the handle holds the operator.
pub open spec fn is_recorded(slice: SliceView, handle: u32, operator: Operator) -> bool {
    slice.cell(handle) matches CellView::Island(island) && island.operators.contains(operator)
}

/// In its turn, one of two packets brings an operator for both, weighed as that pair, into
/// the island that both are in.
pub open spec fn is_recorded_with(
    x: Scene,
    order: Seq<Turn>,
    slice: SliceView,
    seq: OpStoreHandle,
    weights: Seq<u64>,
    t: int,
    l: int,
    r: int,
) -> bool {
    let turn = order[t];
    let k = if turn.is_left {
        r
    } else {
        l
    };
    let w = meetings_of(x.left, x.right, order.take(t)).len() + k - turn.other;
    &&& takes(x.left, x.right, turn, l, r)
    &&& meetings_of(x.left, x.right, order)[w] == (
        turn_packet(x.left, x.right, turn),
        turn_others(x.left, x.right, turn)[k],
    )
    &&& is_recorded(slice, x.left[l].state_handle, together_in(x, turn, k, seq, weights[w]))
    &&& is_recorded(slice, x.right[r].state_handle, together_in(x, turn, k, seq, weights[w]))
}

/// The third pass of a component works on the packets that came, under new handles.
proof fn lemma_scene(
    left: Seq<WavePacket>,
    right: Seq<WavePacket>,
    slice: SliceView,
    id: u8,
    count: int,
)
    requires
        left.len() <= usize::MAX,
        right.len() <= usize::MAX,
        in_step(left),
        in_step(right),
        in_order(left),
        in_order(right),
        alike(left, right),
        all_fit(left),
        all_fit(right),
        slice.wf(),
        prepared(left, right, slice, id, count) is Some,
    ensures
        ({
            let x = prepared(left, right, slice, id, count)->0;
            &&& x.slice.wf()
            &&& same_but_handles(left, x.left)
            &&& same_but_handles(right, x.right)
            &&& in_step(x.left)
            &&& in_step(x.right)
            &&& in_order(x.left)
            &&& in_order(x.right)
            &&& alike(x.left, x.right)
            &&& in_islands(x.slice, x.left)
            &&& in_islands(x.slice, x.right)
            &&& turns_of(x.left, x.right) == turns_of(left, right)
            &&& forall|i: int|
                0 <= i < turns_of(left, right).len() ==> is_turn(
                    #[trigger] turns_of(left, right)[i],
                    left.len(),
                    right.len(),
                )
        }),
{
    let x = prepared(left, right, slice, id, count)->0;
    lemma_ready_to_operate(left, right, slice, id, count);
    lemma_same_times(left, x.left);
    lemma_same_times(right, x.right);
    lemma_same_turns(left, right, x.left, x.right, 0, 0);
    every_packet_has_its_turn(left, right, 0, 0);
    assert(alike(x.left, x.right)) by {
        assert forall|l: int, r: int| 0 <= l < x.left.len() && 0 <= r < x.right.len() implies ((
        #[trigger] x.left[l]).time_sigma > 0) == ((#[trigger] x.right[r]).time_sigma > 0) by {
            assert((left[l].time_sigma > 0) == (right[r].time_sigma > 0));
        }
    }
    assert forall|i: int| 0 <= i < turns_of(left, right).len() implies is_turn(
        #[trigger] turns_of(left, right)[i],
        left.len(),
        right.len(),
    ) by {
        assert(turns_from(left, right, 0, 0)[i] == turns_of(left, right)[i]);
    }
}

/// Two packets that overlap interact: exactly one turn takes them both, and it brings an
/// operator for the two into the island that both are in.
pub proof fn packets_that_overlap_interact(
    left: Seq<WavePacket>,
    right: Seq<WavePacket>,
    slice: SliceView,
    id: u8,
    count: int,
    seq: OpStoreHandle,
    weights: Seq<u64>,
    l: int,
    r: int,
)
    requires
        left.len() <= usize::MAX,
        right.len() <= usize::MAX,
        in_step(left),
        in_step(right),
        in_order(left),
        in_order(right),
        alike(left, right),
        all_fit(left),
        all_fit(right),
        slice.wf(),
        prepared(left, right, slice, id, count) is Some,
        0 <= l < left.len(),
        0 <= r < right.len(),
        left[l].meets(right[r]),
    ensures
        ({
            let x = prepared(left, right, slice, id, count)->0;
            let order = turns_of(left, right);
            let after = operate_pass(scene_of(x), x.slice, order, seq, weights).slice;
            &&& x.left[l].state_handle == x.right[r].state_handle
            &&& exists|t: int|
                0 <= t < order.len() && #[trigger] is_recorded_with(
                    scene_of(x),
                    order,
                    after,
                    seq,
                    weights,
                    t,
                    l,
                    r,
                )
            &&& forall|t: int, u: int|
                0 <= t < order.len() && 0 <= u < order.len() && takes(
                    x.left,
                    x.right,
                    #[trigger] order[t],
                    l,
                    r,
                ) && takes(x.left, x.right, #[trigger] order[u], l, r) ==> t == u
        }),
{
    let x = prepared(left, right, slice, id, count)->0;
    let scene = scene_of(x);
    let order = turns_of(left, right);
    let after = operate_pass(scene, x.slice, order, seq, weights).slice;
    lemma_scene(left, right, slice, id, count);
    packets_that_meet_share_a_state(left, right, slice, id, count, l, r);
    lemma_same_times(left, x.left);
    lemma_same_times(right, x.right);
    assert(x.left[l].meets(x.right[r]));
    every_meeting_has_its_operator(x.left, x.right, l, r);
    let t = choose|t: int|
        0 <= t < order.len() && takes(x.left, x.right, #[trigger] order[t], l, r);
    let turn = order[t];
    let k = if turn.is_left {
        r
    } else {
        l
    };
    let j = k - turn.other;
    lemma_turn_meetings(x.left, x.right, order, t, j);
    operators_follow_the_meetings(scene, x.slice, seq, weights, t);
    assert(turn_packet(x.left, x.right, turn).meets(turn_others(x.left, x.right, turn)[k]));
    let added = added_at(scene, x.slice, order, seq, weights, t);
    assert(added.len() == turn_run(x.left, x.right, turn));
    let n = order.len() as int;
    lemma_added(scene, x.slice, order, seq, weights, n, t, j);
    let h = x.left[l].state_handle;
    assert(x.slice.holds(h) && x.slice.cell(h) is Island);
    operators_go_to_their_islands(scene, x.slice, order, seq, weights, h, n);
    assert(order.take(n) =~= order);
    let island = x.slice.cell(h)->Island_0;
    lemma_contains_after(
        island.operators,
        added_to(scene, x.slice, order, seq, weights, h, n),
        added[j],
    );
    assert(is_recorded_with(scene, order, after, seq, weights, t, l, r));
}

proof fn lemma_contains_after(first: Seq<Operator>, second: Seq<Operator>, operator: Operator)
    requires
        second.contains(operator),
    ensures
        (first + second).contains(operator),
{
    let i = second.index_of(operator);
    assert((first + second)[first.len() + i] == operator);
}

/// A packet that overlaps none of the other port gets an operator of its own, in its turn;
/// no other packet does.
pub proof fn packets_apart_act_alone(
    left: Seq<WavePacket>,
    right: Seq<WavePacket>,
    slice: SliceView,
    id: u8,
    count: int,
    seq: OpStoreHandle,
    weights: Seq<u64>,
    t: int,
)
    requires
        left.len() <= usize::MAX,
        right.len() <= usize::MAX,
        in_step(left),
        in_step(right),
        in_order(left),
        in_order(right),
        alike(left, right),
        all_fit(left),
        all_fit(right),
        slice.wf(),
        prepared(left, right, slice, id, count) is Some,
        0 <= t < turns_of(left, right).len(),
    ensures
        ({
            let x = prepared(left, right, slice, id, count)->0;
            let order = turns_of(left, right);
            let added = added_at(scene_of(x), x.slice, order, seq, weights, t);
            let after = operate_pass(scene_of(x), x.slice, order, seq, weights).slice;
            let alone = alone_in(scene_of(x), order[t], seq);
            &&& meets_none(left, right, order[t]) ==> added == seq![alone] && is_recorded(
                after,
                turn_packet(x.left, x.right, order[t]).state_handle,
                alone,
            )
            &&& !meets_none(left, right, order[t]) ==> forall|j: int|
                0 <= j < added.len() ==> (#[trigger] added[j]) is DualBivariate
        }),
{
    let x = prepared(left, right, slice, id, count)->0;
    let scene = scene_of(x);
    let order = turns_of(left, right);
    let turn = order[t];
    lemma_scene(left, right, slice, id, count);
    lemma_same_times(left, x.left);
    lemma_same_times(right, x.right);
    assert(is_turn(turn, left.len(), right.len()));
    let early = turn_packet(left, right, turn);
    let others = turn_others(left, right, turn);
    let early2 = turn_packet(x.left, x.right, turn);
    let others2 = turn_others(x.left, x.right, turn);
    if meets_none(left, right, turn) {
        assert forall|k: int| 0 <= k < others2.len() implies !early2.meets(
            #[trigger] others2[k],
        ) by {
            assert(!early.meets(others[k]));
        }
    } else {
        let k = choose|k: int| 0 <= k < others.len() && early.meets(#[trigger] others[k]);
        assert(early2.meets(others2[k]));
    }
    operators_follow_the_meetings(scene, x.slice, seq, weights, t);
    if meets_none(left, right, turn) {
        let n = order.len() as int;
        lemma_added(scene, x.slice, order, seq, weights, n, t, 0);
        let h = turn_packet(x.left, x.right, turn).state_handle;
        assert(x.slice.holds(h) && x.slice.cell(h) is Island);
        operators_go_to_their_islands(scene, x.slice, order, seq, weights, h, n);
        assert(order.take(n) =~= order);
        lemma_contains_after(
            (x.slice.cell(h)->Island_0).operators,
            added_to(scene, x.slice, order, seq, weights, h, n),
            alone_in(scene, turn, seq),
        );
    }
}

} // verus!
