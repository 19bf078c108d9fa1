//! What single-port components and detectors record in the islands of their packets.

use vstd::prelude::*;

use crate::concurrency::cell::CellView;
use crate::concurrency::island_laws::{
    a_registered_packet_has_a_new_mode, an_extracted_packet_is_gone, lemma_registering_keeps,
    same_flight,
};
use crate::concurrency::operator::{IslandView, Operator};
use crate::concurrency::slice::SliceView;
use crate::concurrency::snowflake::{snowflake_32, snowflakes_32_are_distinct};
use crate::nodes::dual::sink::can_leave;
use crate::nodes::packet::WavePacket;
use crate::nodes::single_port::{every_packet_is_delayed, pass_all, pass_on};
use crate::nodes::spd::{detect, detect_all};
use crate::types::{ModeIndex, OpStoreHandle, WpSnowflake};

verus! {

/// Those of the packets whose state is behind the handle, in order.
pub open spec fn packets_of(packets: Seq<WavePacket>, handle: u32) -> Seq<WavePacket> {
    packets.filter(|wp: WavePacket| wp.state_handle == handle)
}

/// No two of the packets have the same id.
pub open spec fn have_own_ids(packets: Seq<WavePacket>) -> bool {
    forall|i: int, k: int|
        0 <= i < k < packets.len() ==> (#[trigger] packets[i]).snowflake != (
        #[trigger] packets[k]).snowflake
}

/// One of the packets has the id.
pub open spec fn is_id_of(packets: Seq<WavePacket>, id: WpSnowflake) -> bool {
    exists|i: int| 0 <= i < packets.len() && (#[trigger] packets[i]).snowflake == id
}

/// The operator is that detector, which consumes the mode, and saw the packet.
pub open spec fn is_detection_of(
    operator: Operator,
    spd_id: u16,
    wp: WavePacket,
    mode: ModeIndex,
) -> bool {
    operator matches Operator::SPD { id, wp_snowflake, time, source_modes, .. } && {
        &&& id == spd_id
        &&& wp_snowflake == wp.snowflake
        &&& time == wp.time
        &&& source_modes[0] == mode
    }
}

/// The packets have ended in the detector: the island has one more operator for each, in their
/// order, which consumes the mode that the packet had, and the packets are in flight no more.
/// All else is as it was.
pub open spec fn has_detected(
    before: IslandView,
    after: IslandView,
    packets: Seq<WavePacket>,
    spd_id: u16,
) -> bool {
    let n = before.operators.len();
    &&& after.operators.len() == n + packets.len()
    &&& forall|i: int| 0 <= i < n ==> #[trigger] after.operators[i] == before.operators[i]
    &&& forall|j: int|
        0 <= j < packets.len() ==> before.has_packet((#[trigger] packets[j]).snowflake)
            && is_detection_of(
            after.operators[n + j],
            spd_id,
            packets[j],
            before.mode_of(packets[j].snowflake),
        )
    &&& after.mode_max == before.mode_max
    &&& after.active_packets.len() == before.active_packets.len() - packets.len()
    &&& forall|id: WpSnowflake|
        !is_id_of(packets, id) ==> #[trigger] same_flight(before, after, id)
}

/// Detectors consume the modes that their packets had: every island takes note of just the
/// packets that ended there, and no other state is touched.
pub proof fn detectors_consume_the_modes_of_their_packets(
    slice: SliceView,
    packets: Seq<WavePacket>,
    spd_id: u16,
    handle: u32,
)
    requires
        slice.wf(),
        detect_all(slice, packets, spd_id) is Some,
        slice.holds(handle),
        have_own_ids(packets_of(packets, handle)),
    ensures
        ({
            let after = detect_all(slice, packets, spd_id)->0;
            &&& after.wf()
            &&& after.indices == slice.indices
            &&& after.retired == slice.retired
            &&& after.moved == slice.moved
            &&& match slice.cell(handle) {
                CellView::Island(island) => after.cell(handle) matches CellView::Island(now)
                    && has_detected(island, now, packets_of(packets, handle), spd_id),
                _ => after.cell(handle) == slice.cell(handle) && packets_of(packets, handle).len()
                    == 0,
            }
        }),
    decreases packets.len(),
{
    let mine = packets_of(packets, handle);
    reveal(Seq::filter);
    if packets.len() > 0 {
        let rest = packets.drop_last();
        let wp = packets.last();
        let sofar = detect_all(slice, rest, spd_id)->0;
        let earlier = packets_of(rest, handle);
        if wp.state_handle == handle {
            assert(mine == earlier.push(wp));
            assert forall|i: int, k: int| 0 <= i < k < earlier.len() implies (
            #[trigger] earlier[i]).snowflake != (#[trigger] earlier[k]).snowflake by {
                assert(mine[i] == earlier[i] && mine[k] == earlier[k]);
            }
        } else {
            assert(mine == earlier);
        }
        detectors_consume_the_modes_of_their_packets(slice, rest, spd_id, handle);
        let after = detect(sofar, wp, spd_id)->0;
        assert(sofar.indices[sofar.place(wp.state_handle)] == wp.state_handle);
        assert(sofar.indices[sofar.place(handle)] == handle);
        if wp.state_handle == handle {
            let before = slice.cell(handle)->Island_0;
            let then = sofar.cell(handle)->Island_0;
            let now = after.cell(handle)->Island_0;
            assert(slice.cell(handle) is Island);
            assert(!is_id_of(earlier, wp.snowflake)) by {
                if is_id_of(earlier, wp.snowflake) {
                    let i = choose|i: int|
                        0 <= i < earlier.len() && (#[trigger] earlier[i]).snowflake
                            == wp.snowflake;
                    assert(mine[i] == earlier[i] && mine[earlier.len() as int] == wp);
                }
            }
            assert(same_flight(before, then, wp.snowflake));
            an_extracted_packet_is_gone(then, wp.snowflake);
            let n = before.operators.len();
            assert forall|j: int| 0 <= j < mine.len() implies before.has_packet(
                (#[trigger] mine[j]).snowflake,
            ) && is_detection_of(
                now.operators[n + j],
                spd_id,
                mine[j],
                before.mode_of(mine[j].snowflake),
            ) by {
                if j < earlier.len() {
                    assert(mine[j] == earlier[j]);
                    assert(now.operators[n + j] == then.operators[n + j]);
                }
            }
            assert forall|i: int| 0 <= i < n implies #[trigger] now.operators[i]
                == before.operators[i] by {
                assert(then.operators[i] == before.operators[i]);
            }
            assert forall|id: WpSnowflake| !is_id_of(mine, id) implies #[trigger] same_flight(
                before,
                now,
                id,
            ) by {
                assert(mine[earlier.len() as int].snowflake == wp.snowflake);
                assert(!is_id_of(earlier, id)) by {
                    if is_id_of(earlier, id) {
                        let i = choose|i: int|
                            0 <= i < earlier.len() && (#[trigger] earlier[i]).snowflake == id;
                        assert(mine[i].snowflake == id);
                    }
                }
                assert(same_flight(before, then, id));
                assert(same_flight(then, then.without_packet(wp.snowflake), id));
            }
            assert(has_detected(before, now, mine, spd_id));
        } else {
            assert(after.cell(handle) == sofar.cell(handle));
        }
    }
}

/// The packets whose state is behind the handle, each with the one that leaves for it.
pub open spec fn passages_of(
    packets: Seq<WavePacket>,
    sinks: Seq<WavePacket>,
    handle: u32,
) -> Seq<(WavePacket, WavePacket)>
    decreases packets.len(),
{
    if packets.len() == 0 {
        seq![]
    } else {
        let earlier = passages_of(packets.drop_last(), sinks.drop_last(), handle);
        if packets.last().state_handle == handle {
            earlier.push((packets.last(), sinks.last()))
        } else {
            earlier
        }
    }
}

/// The ids tell all the packets apart, and those of the packets that leave are new to the
/// island.
pub open spec fn are_told_apart(
    island: IslandView,
    passages: Seq<(WavePacket, WavePacket)>,
) -> bool {
    &&& forall|i: int, k: int|
        0 <= i < k < passages.len() ==> (#[trigger] passages[i]).0.snowflake != (
        #[trigger] passages[k]).0.snowflake && passages[i].1.snowflake != passages[k].1.snowflake
    &&& forall|i: int, k: int|
        0 <= i < passages.len() && 0 <= k < passages.len() ==> (
        #[trigger] passages[i]).0.snowflake != (#[trigger] passages[k]).1.snowflake
    &&& forall|i: int|
        0 <= i < passages.len() ==> !island.has_packet((#[trigger] passages[i]).1.snowflake)
}

/// The operator is that component, at the time of the packet, between the two modes.
pub open spec fn is_passage_of(
    operator: Operator,
    seq: OpStoreHandle,
    wp: WavePacket,
    from: ModeIndex,
    to: ModeIndex,
) -> bool {
    operator matches Operator::Single { store_handle, time, source_modes, sink_modes } && {
        &&& store_handle == seq
        &&& time == wp.time
        &&& source_modes[0] == from
        &&& sink_modes[0] == to
    }
}

/// The id is that of a packet that came or left.
pub open spec fn is_id_in(passages: Seq<(WavePacket, WavePacket)>, id: WpSnowflake) -> bool {
    exists|i: int|
        0 <= i < passages.len() && ((#[trigger] passages[i]).0.snowflake == id
            || passages[i].1.snowflake == id)
}

/// The packets have passed: the island has one more operator for each, in their order, from
/// the mode that the packet had to the mode of the one that left for it. The modes of those
/// that left are new, each its own. All else is as it was.
pub open spec fn has_passed(
    before: IslandView,
    after: IslandView,
    passages: Seq<(WavePacket, WavePacket)>,
    seq: OpStoreHandle,
) -> bool {
    let n = before.operators.len();
    &&& after.operators.len() == n + passages.len()
    &&& forall|i: int| 0 <= i < n ==> #[trigger] after.operators[i] == before.operators[i]
    &&& forall|j: int|
        0 <= j < passages.len() ==> before.has_packet((#[trigger] passages[j]).0.snowflake)
            && after.has_packet(passages[j].1.snowflake) && is_passage_of(
            after.operators[n + j],
            seq,
            passages[j].0,
            before.mode_of(passages[j].0.snowflake),
            after.mode_of(passages[j].1.snowflake),
        )
    &&& forall|j: int|
        0 <= j < passages.len() ==> before.mode_max <= after.mode_of(
            (#[trigger] passages[j]).1.snowflake,
        ) < after.mode_max
    &&& forall|i: int, k: int|
        0 <= i < k < passages.len() ==> after.mode_of((#[trigger] passages[i]).1.snowflake)
            != after.mode_of((#[trigger] passages[k]).1.snowflake)
    &&& after.mode_max == before.mode_max + passages.len()
    &&& after.active_packets.len() == before.active_packets.len()
    &&& forall|id: WpSnowflake|
        !is_id_in(passages, id) ==> #[trigger] same_flight(before, after, id)
}

/// A component leads from the mode of the packet that came to the mode of the one that leaves:
/// every island takes note of just the packets that passed there, and no other state is
/// touched.
pub proof fn components_lead_from_mode_to_mode(
    slice: SliceView,
    packets: Seq<WavePacket>,
    delay: u64,
    seq: OpStoreHandle,
    id: u8,
    count: int,
    handle: u32,
)
    requires
        slice.wf(),
        pass_all(slice, packets, delay, seq, id, count) is Some,
        slice.holds(handle),
        ({
            let sinks = (pass_all(slice, packets, delay, seq, id, count)->0).sinks;
            slice.cell(handle) matches CellView::Island(island) ==> are_told_apart(
                island,
                passages_of(packets, sinks, handle),
            )
        }),
    ensures
        ({
            let x = pass_all(slice, packets, delay, seq, id, count)->0;
            let passages = passages_of(packets, x.sinks, handle);
            &&& x.slice.wf()
            &&& x.slice.indices == slice.indices
            &&& x.slice.retired == slice.retired
            &&& x.slice.moved == slice.moved
            &&& match slice.cell(handle) {
                CellView::Island(island) => x.slice.cell(handle) matches CellView::Island(now)
                    && has_passed(island, now, passages, seq),
                _ => x.slice.cell(handle) == slice.cell(handle) && passages.len() == 0,
            }
        }),
    decreases packets.len(),
{
    if packets.len() > 0 {
        let rest = packets.drop_last();
        let wp = packets.last();
        let sofar = pass_all(slice, rest, delay, seq, id, count)->0;
        let x = pass_on(sofar, wp, delay, seq, id)->0;
        every_packet_is_delayed(slice, packets, delay, seq, id, count);
        every_packet_is_delayed(slice, rest, delay, seq, id, count);
        assert(x.sinks.drop_last() =~= sofar.sinks);
        let earlier = passages_of(rest, sofar.sinks, handle);
        let all = passages_of(packets, x.sinks, handle);
        if let CellView::Island(island) = slice.cell(handle) {
            assert(are_told_apart(island, earlier)) by {
                assert(forall|i: int| 0 <= i < earlier.len() ==> all[i] == earlier[i]);
            }
        }
        components_lead_from_mode_to_mode(slice, rest, delay, seq, id, count, handle);
        assert(sofar.slice.indices[sofar.slice.place(wp.state_handle)] == wp.state_handle);
        assert(sofar.slice.indices[sofar.slice.place(handle)] == handle);
        if wp.state_handle == handle {
            assert(slice.cell(handle) is Island);
            assert((x.slice.cell(handle)->Island_0).operators.drop_last()
                =~= (sofar.slice.cell(handle)->Island_0).operators);
            lemma_passes_on(
                slice.cell(handle)->Island_0,
                sofar.slice.cell(handle)->Island_0,
                earlier,
                wp,
                x.sinks.last(),
                seq,
                x.slice.cell(handle)->Island_0,
            );
        } else {
            assert(x.slice.cell(handle) == sofar.slice.cell(handle));
        }
    }
}

proof fn lemma_passes_on(
    before: IslandView,
    then: IslandView,
    earlier: Seq<(WavePacket, WavePacket)>,
    wp: WavePacket,
    sink: WavePacket,
    seq: OpStoreHandle,
    now: IslandView,
)
    requires
        has_passed(before, then, earlier, seq),
        are_told_apart(before, earlier.push((wp, sink))),
        then.has_packet(wp.snowflake),
        then.mode_max + 1 <= u16::MAX,
        now.operators.len() == then.operators.len() + 1,
        now.operators.drop_last() == then.operators,
        is_passage_of(
            now.operators.last(),
            seq,
            wp,
            then.mode_of(wp.snowflake),
            then.mode_max,
        ),
        now.active_packets == then.without_packet(wp.snowflake).with_packet(
            sink.snowflake,
        ).active_packets,
        now.mode_max == then.mode_max + 1,
    ensures
        has_passed(before, now, earlier.push((wp, sink)), seq),
{
    let all = earlier.push((wp, sink));
    let n = before.operators.len();
    let last = earlier.len() as int;
    let out = then.without_packet(wp.snowflake);
    let back = out.with_packet(sink.snowflake);
    assert(all[last] == (wp, sink));
    assert(forall|i: int| 0 <= i < earlier.len() ==> all[i] == earlier[i]);
    assert(!is_id_in(earlier, wp.snowflake)) by {
        if is_id_in(earlier, wp.snowflake) {
            let i = choose|i: int|
                0 <= i < earlier.len() && ((#[trigger] earlier[i]).0.snowflake == wp.snowflake
                    || earlier[i].1.snowflake == wp.snowflake);
            assert(all[i] == earlier[i]);
            assert(all[i].0.snowflake != all[last].0.snowflake);
            assert(all[last].0.snowflake != all[i].1.snowflake);
        }
    }
    assert(!is_id_in(earlier, sink.snowflake)) by {
        if is_id_in(earlier, sink.snowflake) {
            let i = choose|i: int|
                0 <= i < earlier.len() && ((#[trigger] earlier[i]).0.snowflake == sink.snowflake
                    || earlier[i].1.snowflake == sink.snowflake);
            assert(all[i] == earlier[i]);
            assert(all[i].1.snowflake != all[last].1.snowflake);
            assert(all[i].0.snowflake != all[last].1.snowflake);
        }
    }
    assert(wp.snowflake != sink.snowflake) by {
        assert(all[last].0.snowflake != all[last].1.snowflake);
    }
    assert(!before.has_packet(sink.snowflake)) by {
        assert(!before.has_packet(all[last].1.snowflake));
    }
    assert(same_flight(before, then, wp.snowflake));
    assert(same_flight(before, then, sink.snowflake));
    an_extracted_packet_is_gone(then, wp.snowflake);
    assert(same_flight(then, out, sink.snowflake));
    a_registered_packet_has_a_new_mode(out, sink.snowflake);
    assert(now.has_packet(sink.snowflake) && now.mode_of(sink.snowflake) == then.mode_max);
    assert forall|id: WpSnowflake| id != wp.snowflake && id != sink.snowflake implies #[trigger]
        same_flight(then, now, id) by {
        assert(same_flight(then, out, id));
        assert(same_flight(out, back, id));
    }
    assert forall|j: int| 0 <= j < earlier.len() implies same_flight(
        then,
        now,
        (#[trigger] all[j]).1.snowflake,
    ) by {
        assert(all[j] == earlier[j]);
        assert(all[last].0.snowflake != all[j].1.snowflake);
        assert(all[j].1.snowflake != all[last].1.snowflake);
    }
    assert forall|i: int| 0 <= i < then.operators.len() implies #[trigger] now.operators[i]
        == then.operators[i] by {
        assert(now.operators.drop_last()[i] == then.operators[i]);
    }
    assert forall|j: int| 0 <= j < all.len() implies before.has_packet(
        (#[trigger] all[j]).0.snowflake,
    ) && now.has_packet(all[j].1.snowflake) && is_passage_of(
        now.operators[n + j],
        seq,
        all[j].0,
        before.mode_of(all[j].0.snowflake),
        now.mode_of(all[j].1.snowflake),
    ) by {
        if j < last {
            assert(all[j] == earlier[j]);
            assert(now.operators[n + j] == then.operators[n + j]);
            assert(same_flight(then, now, all[j].1.snowflake));
        } else {
            assert(now.operators[n + j] == now.operators.last());
        }
    }
    assert forall|j: int| 0 <= j < all.len() implies before.mode_max <= now.mode_of(
        (#[trigger] all[j]).1.snowflake,
    ) < now.mode_max by {
        if j < last {
            assert(all[j] == earlier[j]);
            assert(same_flight(then, now, all[j].1.snowflake));
        }
    }
    assert forall|i: int, k: int| 0 <= i < k < all.len() implies now.mode_of(
        (#[trigger] all[i]).1.snowflake,
    ) != now.mode_of((#[trigger] all[k]).1.snowflake) by {
        assert(all[i] == earlier[i]);
        assert(same_flight(then, now, all[i].1.snowflake));
        if k < last {
            assert(all[k] == earlier[k]);
            assert(same_flight(then, now, all[k].1.snowflake));
        }
    }
    assert forall|i: int| 0 <= i < n implies #[trigger] now.operators[i]
        == before.operators[i] by {
        assert(then.operators[i] == before.operators[i]);
    }
    assert forall|id: WpSnowflake| !is_id_in(all, id) implies #[trigger] same_flight(
        before,
        now,
        id,
    ) by {
        assert(all[last].0.snowflake != id && all[last].1.snowflake != id);
        assert(!is_id_in(earlier, id)) by {
            if is_id_in(earlier, id) {
                let i = choose|i: int|
                    0 <= i < earlier.len() && ((#[trigger] earlier[i]).0.snowflake == id
                        || earlier[i].1.snowflake == id);
                assert(all[i] == earlier[i]);
            }
        }
        assert(same_flight(before, then, id));
        assert(same_flight(then, now, id));
    }
}

/// The packets that leave have ids of their own, as long as the batch does not take the
/// generator all the way round.
pub proof fn passed_packets_have_their_own_ids(
    slice: SliceView,
    packets: Seq<WavePacket>,
    delay: u64,
    seq: OpStoreHandle,
    id: u8,
    count: int,
    i: int,
    k: int,
)
    requires
        pass_all(slice, packets, delay, seq, id, count) is Some,
        0 <= i < k < packets.len() <= 0x100_0000,
    ensures
        ({
            let x = pass_all(slice, packets, delay, seq, id, count)->0;
            &&& x.sinks[i].snowflake != x.sinks[k].snowflake
            &&& x.sinks[i].snowflake % 0x100 == id
            &&& x.sinks[k].snowflake % 0x100 == id
            &&& x.count == count + packets.len()
        }),
{
    lemma_sink_ids(slice, packets, delay, seq, id, count, i);
    lemma_sink_ids(slice, packets, delay, seq, id, count, k);
    snowflakes_32_are_distinct(id, count + i + 1, id, count + k + 1);
    snowflakes_32_are_distinct(id, count + k + 1, id, count + k + 2);
}

proof fn lemma_sink_ids(
    slice: SliceView,
    packets: Seq<WavePacket>,
    delay: u64,
    seq: OpStoreHandle,
    id: u8,
    count: int,
    i: int,
)
    requires
        pass_all(slice, packets, delay, seq, id, count) is Some,
        0 <= i < packets.len(),
    ensures
        ({
            let x = pass_all(slice, packets, delay, seq, id, count)->0;
            &&& x.count == count + packets.len()
            &&& x.sinks.len() == packets.len()
            &&& x.sinks[i].snowflake == snowflake_32(id, count + i + 1) as u32
        }),
    decreases packets.len(),
{
    reveal_with_fuel(pass_all, 2);
    let rest = packets.drop_last();
    if rest.len() > 0 {
        lemma_sink_ids(
            slice,
            rest,
            delay,
            seq,
            id,
            count,
            if i < rest.len() {
                i
            } else {
                0
            },
        );
    }
}

/// The state of the packet is an island that is held and knows it.
pub open spec fn is_known(slice: SliceView, wp: WavePacket) -> bool {
    &&& slice.holds(wp.state_handle)
    &&& slice.cell(wp.state_handle) matches CellView::Island(island) && island.has_packet(
        wp.snowflake,
    )
}

/// No two packets of one state have the same id.
pub open spec fn own_ids_by_state(packets: Seq<WavePacket>) -> bool {
    forall|handle: u32| have_own_ids(#[trigger] packets_of(packets, handle))
}

proof fn lemma_packets_of(packets: Seq<WavePacket>, handle: u32)
    requires
        packets.len() > 0,
    ensures
        packets_of(packets, handle) == (if packets.last().state_handle == handle {
            packets_of(packets.drop_last(), handle).push(packets.last())
        } else {
            packets_of(packets.drop_last(), handle)
        }),
{
    reveal(Seq::filter);
}

proof fn lemma_own_ids_earlier(packets: Seq<WavePacket>)
    requires
        packets.len() > 0,
        own_ids_by_state(packets),
    ensures
        own_ids_by_state(packets.drop_last()),
        !is_id_of(
            packets_of(packets.drop_last(), packets.last().state_handle),
            packets.last().snowflake,
        ),
{
    let rest = packets.drop_last();
    assert forall|handle: u32| have_own_ids(#[trigger] packets_of(rest, handle)) by {
        lemma_packets_of(packets, handle);
        let all = packets_of(packets, handle);
        let earlier = packets_of(rest, handle);
        assert(have_own_ids(all));
        assert forall|i: int, k: int| 0 <= i < k < earlier.len() implies (
        #[trigger] earlier[i]).snowflake != (#[trigger] earlier[k]).snowflake by {
            assert(all[i] == earlier[i] && all[k] == earlier[k]);
        }
    }
    let wp = packets.last();
    lemma_packets_of(packets, wp.state_handle);
    let all = packets_of(packets, wp.state_handle);
    let earlier = packets_of(rest, wp.state_handle);
    assert(have_own_ids(all));
    if is_id_of(earlier, wp.snowflake) {
        let i = choose|i: int|
            0 <= i < earlier.len() && (#[trigger] earlier[i]).snowflake == wp.snowflake;
        assert(all[i] == earlier[i] && all[earlier.len() as int] == wp);
    }
}

/// Packets that their islands know are detected, all of them.
pub proof fn known_packets_are_detected(slice: SliceView, packets: Seq<WavePacket>, spd_id: u16)
    requires
        slice.wf(),
        own_ids_by_state(packets),
        forall|i: int| 0 <= i < packets.len() ==> is_known(slice, #[trigger] packets[i]),
    ensures
        detect_all(slice, packets, spd_id) is Some,
    decreases packets.len(),
{
    if packets.len() > 0 {
        let rest = packets.drop_last();
        let wp = packets.last();
        lemma_own_ids_earlier(packets);
        assert forall|i: int| 0 <= i < rest.len() implies is_known(slice, #[trigger] rest[i]) by {
            assert(rest[i] == packets[i]);
        }
        known_packets_are_detected(slice, rest, spd_id);
        assert(is_known(slice, packets[packets.len() - 1]));
        assert(have_own_ids(packets_of(rest, wp.state_handle)));
        detectors_consume_the_modes_of_their_packets(slice, rest, spd_id, wp.state_handle);
        let before = slice.cell(wp.state_handle)->Island_0;
        let sofar = detect_all(slice, rest, spd_id)->0;
        let then = sofar.cell(wp.state_handle)->Island_0;
        assert(same_flight(before, then, wp.snowflake));
    }
}

/// A packet that is not let through stays in flight, and each that is takes one mode more.
proof fn lemma_others_stay(
    slice: SliceView,
    packets: Seq<WavePacket>,
    delay: u64,
    seq: OpStoreHandle,
    id: u8,
    count: int,
    wp: WavePacket,
)
    requires
        slice.wf(),
        pass_all(slice, packets, delay, seq, id, count) is Some,
        is_known(slice, wp),
        !is_id_of(packets_of(packets, wp.state_handle), wp.snowflake),
    ensures
        ({
            let after = (pass_all(slice, packets, delay, seq, id, count)->0).slice;
            &&& after.wf()
            &&& after.indices == slice.indices
            &&& is_known(after, wp)
            &&& (after.cell(wp.state_handle)->Island_0).mode_max == (slice.cell(
                wp.state_handle,
            )->Island_0).mode_max + packets_of(packets, wp.state_handle).len()
        }),
    decreases packets.len(),
{
    let handle = wp.state_handle;
    if packets.len() > 0 {
        let rest = packets.drop_last();
        let last = packets.last();
        lemma_packets_of(packets, handle);
        let all = packets_of(packets, handle);
        let earlier = packets_of(rest, handle);
        if is_id_of(earlier, wp.snowflake) {
            let i = choose|i: int|
                0 <= i < earlier.len() && (#[trigger] earlier[i]).snowflake == wp.snowflake;
            assert(all[i] == earlier[i]);
        }
        lemma_others_stay(slice, rest, delay, seq, id, count, wp);
        let sofar = pass_all(slice, rest, delay, seq, id, count)->0;
        let x = pass_on(sofar, last, delay, seq, id)->0;
        assert(sofar.slice.indices[sofar.slice.place(last.state_handle)] == last.state_handle);
        assert(sofar.slice.indices[sofar.slice.place(handle)] == handle);
        if last.state_handle == handle {
            assert(all[earlier.len() as int] == last);
            let then = sofar.slice.cell(handle)->Island_0;
            let out = then.without_packet(last.snowflake);
            an_extracted_packet_is_gone(then, last.snowflake);
            assert(same_flight(then, out, wp.snowflake));
            let sink = x.sinks.last().snowflake;
            lemma_registering_keeps(out, sink, wp.snowflake);
        } else {
            assert(x.slice.cell(handle) == sofar.slice.cell(handle));
        }
    } else {
        reveal(Seq::filter);
    }
}

/// Packets that their islands know are let through, all of them, where the islands have a mode
/// for each and the times fit.
pub proof fn known_packets_are_let_through(
    slice: SliceView,
    packets: Seq<WavePacket>,
    delay: u64,
    seq: OpStoreHandle,
    id: u8,
    count: int,
)
    requires
        slice.wf(),
        own_ids_by_state(packets),
        forall|i: int|
            0 <= i < packets.len() ==> is_known(slice, #[trigger] packets[i]) && packets[i].time
                + delay <= u64::MAX && (slice.cell(packets[i].state_handle)->Island_0).mode_max
                + packets_of(packets, packets[i].state_handle).len() <= u16::MAX,
    ensures
        pass_all(slice, packets, delay, seq, id, count) is Some,
    decreases packets.len(),
{
    if packets.len() > 0 {
        let rest = packets.drop_last();
        let wp = packets.last();
        lemma_own_ids_earlier(packets);
        assert forall|i: int| 0 <= i < rest.len() implies is_known(slice, #[trigger] rest[i])
            && rest[i].time + delay <= u64::MAX && (slice.cell(
            rest[i].state_handle,
        )->Island_0).mode_max + packets_of(rest, rest[i].state_handle).len() <= u16::MAX by {
            assert(rest[i] == packets[i]);
            lemma_packets_of(packets, rest[i].state_handle);
        }
        known_packets_are_let_through(slice, rest, delay, seq, id, count);
        assert(is_known(slice, packets[packets.len() - 1]));
        lemma_packets_of(packets, wp.state_handle);
        lemma_others_stay(slice, rest, delay, seq, id, count, wp);
    }
}

/// A 2x2 component lets a packet through that its island knows, where the island has two modes
/// for those that leave.
pub proof fn a_known_packet_can_leave(slice: SliceView, wp: WavePacket)
    ensures
        can_leave(slice, wp) <==> is_known(slice, wp) && (slice.cell(
            wp.state_handle,
        )->Island_0).mode_max + 2 <= u16::MAX,
{
}

} // verus!
