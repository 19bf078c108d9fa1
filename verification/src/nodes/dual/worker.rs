//! A 2x2 component: packets of two entry ports leave through two exit ports.

use vstd::prelude::*;

use crate::concurrency::slice::{InteractionStoreSlice, SliceView};
use crate::concurrency::snowflake::Generator32;
use crate::nodes::dual::merge::{
    merge_pass, merge_states, merging_keeps_the_slice, merging_only_readdresses,
    same_but_handles, Merging,
};
use crate::nodes::dual::operate::{
    in_islands, meetings, meetings_of, operate_pass, register_operators, Scene,
};
use crate::nodes::dual::sink::{
    every_packet_leaves_twice, left_turns, sink_packets, sink_pass, turn_in_island, Sinking,
};
use crate::nodes::packet::{all_fit, BatchView, WavePacket, WpBatch};
use crate::nodes::ports::{RxPort, TxPort};
use crate::nodes::turns::{
    every_packet_has_its_turn, has_turn, is_turn, is_turn_of, turns, turns_from, turns_of, Turn,
};
use crate::types::{BatchConstraint, BatchPolicy, OpStoreHandle, PortId, Time};

verus! {

pub struct DualPortWorker<S> {
    pub sink_left: Option<TxPort<S>>,
    pub sink_right: Option<TxPort<S>>,
    pub seq: OpStoreHandle,
}

pub open spec fn earlier(a: Time, b: Time) -> Time {
    if a <= b {
        a
    } else {
        b
    }
}

/// The two batches after the first and the second pass, if both go through.
pub open spec fn prepared(
    left: Seq<WavePacket>,
    right: Seq<WavePacket>,
    slice: SliceView,
    id: u8,
    count: int,
) -> Option<Sinking> {
    match merge_pass(Merging { left, right, slice }, turns_of(left, right)) {
        None => None,
        Some(merged) => sink_pass(merged, turns_of(left, right), id, count),
    }
}

pub open spec fn scene_of(x: Sinking) -> Scene {
    Scene { left: x.left, right: x.right, modes_left: x.modes_left, modes_right: x.modes_right }
}

/// The weights are what `weigh` makes of the pairs.
pub open spec fn weighed<F: Fn(WavePacket, WavePacket) -> u64>(
    weigh: F,
    pairs: Seq<(WavePacket, WavePacket)>,
    weights: Seq<u64>,
) -> bool {
    &&& weights.len() == pairs.len()
    &&& forall|k: int|
        0 <= k < pairs.len() ==> weigh.ensures(
            ((#[trigger] pairs[k]).0, pairs[k].1),
            weights[k],
        )
}

proof fn lemma_left_turns(left: Seq<WavePacket>, right: Seq<WavePacket>, l: int, r: int)
    requires
        0 <= l <= left.len(),
        0 <= r <= right.len(),
    ensures
        left_turns(turns_from(left, right, l, r)) == left.len() - l,
    decreases left.len() - l + right.len() - r,
{
    if l < left.len() || r < right.len() {
        let all = turns_from(left, right, l, r);
        if crate::nodes::turns::left_is_next(left, right, l, r) {
            lemma_left_turns(left, right, l + 1, r);
            let first = Turn { is_left: true, index: l as usize, other: r as usize };
            lemma_left_turns_front(first, turns_from(left, right, l + 1, r));
        } else {
            lemma_left_turns(left, right, l, r + 1);
            let first = Turn { is_left: false, index: r as usize, other: l as usize };
            lemma_left_turns_front(first, turns_from(left, right, l, r + 1));
        }
    }
}

pub proof fn lemma_left_turns_front(first: Turn, rest: Seq<Turn>)
    ensures
        left_turns(seq![first] + rest) == left_turns(rest) + (if first.is_left {
            1nat
        } else {
            0nat
        }),
    decreases rest.len(),
{
    let all = seq![first] + rest;
    if rest.len() == 0 {
        assert(all.drop_last() =~= seq![]);
        assert(all.last() == first);
        reveal_with_fuel(left_turns, 2);
    } else {
        lemma_left_turns_front(first, rest.drop_last());
        assert(all.drop_last() =~= seq![first] + rest.drop_last());
        assert(all.last() == rest.last());
    }
}

/// What the second pass leaves is what the third needs.
pub proof fn lemma_ready_to_operate(
    left: Seq<WavePacket>,
    right: Seq<WavePacket>,
    slice: SliceView,
    id: u8,
    count: int,
)
    requires
        left.len() <= usize::MAX,
        right.len() <= usize::MAX,
        slice.wf(),
        all_fit(left),
        all_fit(right),
        prepared(left, right, slice, id, count) is Some,
    ensures
        ({
            let x = prepared(left, right, slice, id, count)->0;
            &&& x.slice.wf()
            &&& same_but_handles(left, x.left)
            &&& same_but_handles(right, x.right)
            &&& all_fit(x.left)
            &&& all_fit(x.right)
            &&& in_islands(x.slice, x.left)
            &&& in_islands(x.slice, x.right)
            &&& x.modes_left.len() == left.len()
            &&& x.modes_right.len() == right.len()
        }),
{
    let order = turns_of(left, right);
    let m = Merging { left, right, slice };
    let merged = merge_pass(m, order)->0;
    let x = prepared(left, right, slice, id, count)->0;
    every_packet_has_its_turn(left, right, 0, 0);
    assert forall|i: int| 0 <= i < order.len() implies is_turn(
        #[trigger] order[i],
        left.len(),
        right.len(),
    ) by {
        assert(turns_from(left, right, 0, 0)[i] == order[i]);
    }
    merging_only_readdresses(m, order);
    merging_keeps_the_slice(m, order);
    every_packet_leaves_twice(merged, order, id, count);
    lemma_left_turns(left, right, 0, 0);
    assert forall|k: int| 0 <= k < x.left.len() implies x.slice.holds(
        (#[trigger] x.left[k]).state_handle,
    ) && x.slice.cell(x.left[k].state_handle) is Island by {
        assert(has_turn(order, true, k));
        let i = choose|i: int| 0 <= i < order.len() && #[trigger] is_turn_of(order[i], true, k);
        assert(turn_in_island(x, order[i]));
    }
    assert forall|k: int| 0 <= k < x.right.len() implies x.slice.holds(
        (#[trigger] x.right[k]).state_handle,
    ) && x.slice.cell(x.right[k].state_handle) is Island by {
        assert(has_turn(order, false, k));
        let i = choose|i: int| 0 <= i < order.len() && #[trigger] is_turn_of(order[i], false, k);
        assert(turn_in_island(x, order[i]));
    }
    assert forall|k: int| 0 <= k < x.left.len() implies (#[trigger] x.left[k]).fits() by {
        assert(left[k].fits() && merged.left[k].time == left[k].time);
    }
    assert forall|k: int| 0 <= k < x.right.len() implies (#[trigger] x.right[k]).fits() by {
        assert(right[k].fits() && merged.right[k].time == right[k].time);
    }
}

impl<S> DualPortWorker<S> {
    pub fn new(seq: OpStoreHandle) -> (worker: Self)
        ensures
            worker == (DualPortWorker::<S> { sink_left: None, sink_right: None, seq }),
    {
        Self { sink_left: None, sink_right: None, seq }
    }

    /// Connects one of the two exits. There are none but 0 and 1: the answer is whether
    /// the port has such a number.
    pub fn handle_connection(&mut self, exit_port_id: PortId, tx_port: TxPort<S>) -> (connected:
        bool)
        ensures
            connected == (exit_port_id <= 1),
            *final(self) == (if exit_port_id == 0 {
                DualPortWorker { sink_left: Some(tx_port), ..*old(self) }
            } else if exit_port_id == 1 {
                DualPortWorker { sink_right: Some(tx_port), ..*old(self) }
            } else {
                *old(self)
            }),
    {
        match exit_port_id {
            0 => {
                self.sink_left = Some(tx_port);
                true
            },
            1 => {
                self.sink_right = Some(tx_port);
                true
            },
            _ => false,
        }
    }

    /// What both entry ports may take, by the clock of the one that lags behind.
    pub fn common_constraint(policy: &BatchPolicy, left: &RxPort, right: &RxPort) -> (constraint:
        BatchConstraint)
        requires
            earlier(left@.current_time, right@.current_time) + policy.period <= u64::MAX,
        ensures
            constraint.timeout == earlier(left@.current_time, right@.current_time)
                + policy.period,
            constraint.timeout <= left@.current_time + policy.period,
            constraint.timeout <= right@.current_time + policy.period,
            constraint.timeout == left@.current_time + policy.period || constraint.timeout
                == right@.current_time + policy.period,
            constraint.max_size == policy.max_size,
    {
        let left_time: u64 = left.current_time();
        let right_time: u64 = right.current_time();
        policy.get_constraint(
            if left_time <= right_time {
                left_time
            } else {
                right_time
            },
        )
    }

    /// The time that the batches which leave cover, from those that came: up to where
    /// both are complete.
    pub fn common_span(left: &WpBatch, right: &WpBatch) -> (span: (Time, Time))
        ensures
            span == (
                earlier(left.start_time, right.start_time),
                earlier(left.end_time, right.end_time),
            ),
            span.0 <= left.start_time && span.0 <= right.start_time,
            span.0 == left.start_time || span.0 == right.start_time,
            span.1 <= left.end_time && span.1 <= right.end_time,
            span.1 == left.end_time || span.1 == right.end_time,
    {
        (
            if left.start_time <= right.start_time {
                left.start_time
            } else {
                right.start_time
            },
            if left.end_time <= right.end_time {
                left.end_time
            } else {
                right.end_time
            },
        )
    }

    /// Lets the packets of two batches through the component: merges the states of those
    /// that meet, makes the packets that leave, and records the operators. `weigh` gives
    /// the bit pattern of the indistinguishability of two packets, and `span` is the time
    /// that the batches which leave cover.
    ///
    /// Nothing leaves where a packet's state is no island that knows it, or islands run
    /// out of modes.
    pub fn process_batch<F: Fn(WavePacket, WavePacket) -> u64>(
        &self,
        span: (Time, Time),
        left: &mut Vec<WavePacket>,
        right: &mut Vec<WavePacket>,
        slice: &mut InteractionStoreSlice,
        generator: &mut Generator32,
        weigh: &F,
    ) -> (sinks: Option<(WpBatch, WpBatch)>)
        requires
            all_fit(old(left)@),
            all_fit(old(right)@),
            old(slice).wf(),
            forall|a: WavePacket, b: WavePacket| #[trigger] weigh.requires((a, b)),
        ensures
            final(slice).wf(),
            final(generator).id == old(generator).id,
            sinks is Some <==> prepared(
                old(left)@,
                old(right)@,
                old(slice)@,
                old(generator).id,
                old(generator).counter as int,
            ) is Some,
            sinks matches Some(s) ==> ({
                let order = turns_of(old(left)@, old(right)@);
                let x = prepared(
                    old(left)@,
                    old(right)@,
                    old(slice)@,
                    old(generator).id,
                    old(generator).counter as int,
                )->0;
                &&& final(left)@ == x.left
                &&& final(right)@ == x.right
                &&& s.0@ == (BatchView {
                    start_time: span.0,
                    end_time: span.1,
                    packets: x.sink_left,
                })
                &&& s.1@ == (BatchView {
                    start_time: span.0,
                    end_time: span.1,
                    packets: x.sink_right,
                })
                &&& final(generator).counter == x.count % 0x1_0000_0000
                &&& exists|weights: Seq<u64>| #[trigger]
                    weighed(*weigh, meetings_of(x.left, x.right, order), weights) && final(slice)@
                        == operate_pass(scene_of(x), x.slice, order, self.seq, weights).slice
            }),
    {
        let order = turns(left, right);
        let ghost start = Merging { left: left@, right: right@, slice: slice@ };
        let ghost id = generator.id;
        let ghost count = generator.counter as int;
        let lefts: usize = left.len();
        let rights: usize = right.len();
        proof {
            slice.handles_are_held_once();
        }
        // first pass: merge all the states
        if !merge_states(left, right, &order, slice) {
            return None;
        }
        // second pass: update the sink packets and record the modes
        let out = match sink_packets(left, right, &order, slice, generator) {
            Some(out) => out,
            None => {
                return None;
            },
        };
        // third pass: register operators for all the packets and pairs
        proof {
            lemma_ready_to_operate(start.left, start.right, start.slice, id, count);
        }
        let pairs = meetings(left, right, &order);
        let mut weights: Vec<u64> = Vec::new();
        while weights.len() < pairs.len()
            invariant
                forall|a: WavePacket, b: WavePacket| #[trigger] weigh.requires((a, b)),
                weights@.len() <= pairs@.len(),
                forall|k: int|
                    0 <= k < weights@.len() ==> weigh.ensures(
                        ((#[trigger] pairs@[k]).0, pairs@[k].1),
                        weights@[k],
                    ),
            decreases pairs@.len() - weights@.len(),
        {
            let (early, late) = pairs[weights.len()];
            let weight: u64 = weigh(early, late);
            weights.push(weight);
        }
        assert(weighed(*weigh, pairs@, weights@));
        register_operators(
            left,
            right,
            &out.modes_left,
            &out.modes_right,
            &order,
            slice,
            self.seq,
            &weights,
        );
        Some(
            (
                WpBatch { start_time: span.0, end_time: span.1, batch: out.sink_left },
                WpBatch { start_time: span.0, end_time: span.1, batch: out.sink_right },
            ),
        )
    }
}

} // verus!
