//! The second pass over two batches: packets leave for those that came.

use vstd::prelude::*;

use crate::concurrency::cell::{CellView, InteractionCell};
use crate::concurrency::interaction_store::view::readdressed;
use crate::concurrency::operator::IslandView;
use crate::concurrency::slice::{lemma_led_keeps_islands, InteractionStoreSlice, SliceView};
use crate::concurrency::snowflake::{next_u32, snowflake_32, Generator32};
use crate::nodes::dual::merge::{same_but_handles, Merging};
use crate::nodes::packet::WavePacket;
use crate::nodes::turns::{is_turn, Turn};
use crate::types::ModeIndex;

verus! {

/// The mode of a packet that came in, and those of the two packets that leave for it.
pub type Modes = (ModeIndex, ModeIndex, ModeIndex);

/// How far the second pass has come: the packets that leave, and the modes of those that
/// came, by port. `count` is how far the generator of ids has counted.
#[verifier::ext_equal]
pub struct Sinking {
    pub left: Seq<WavePacket>,
    pub right: Seq<WavePacket>,
    pub slice: SliceView,
    pub sink_left: Seq<WavePacket>,
    pub sink_right: Seq<WavePacket>,
    pub modes_left: Seq<Modes>,
    pub modes_right: Seq<Modes>,
    pub count: int,
}

/// The packet can leave: its state is an island that knows it and has room for two more
/// modes.
pub open spec fn can_leave(slice: SliceView, wp: WavePacket) -> bool {
    &&& slice.holds(wp.state_handle)
    &&& slice.cell(wp.state_handle) matches CellView::Island(island) && island.has_packet(
        wp.snowflake,
    ) && island.mode_max + 2 <= u16::MAX
}

/// The island after the packet came in and two left for it.
pub open spec fn split_in_two(
    island: IslandView,
    wp: WavePacket,
    first: u32,
    second: u32,
) -> IslandView {
    island.without_packet(wp.snowflake).with_packet(first).with_packet(second)
}

/// One turn of the second pass: for the packet, one packet leaves through each exit, under
/// an id of its own, and its mode is recorded with theirs.
pub open spec fn sink_turn(x: Sinking, turn: Turn, id: u8) -> Option<Sinking> {
    let side = if turn.is_left {
        x.left
    } else {
        x.right
    };
    let i = turn.index as int;
    match x.slice.led_from(side[i].state_handle) {
        None => None,
        Some((led, handle)) => {
            let source = readdressed(side[i], handle);
            let first = snowflake_32(id, x.count + 1) as u32;
            let second = snowflake_32(id, x.count + 2) as u32;
            if can_leave(led, source) {
                let island = led.cell(handle)->Island_0;
                let modes = (
                    island.mode_of(source.snowflake),
                    island.mode_max,
                    (island.mode_max + 1) as u16,
                );
                let slice = led.with_cell(
                    handle,
                    CellView::Island(split_in_two(island, source, first, second)),
                );
                Some(
                    Sinking {
                        left: if turn.is_left {
                            x.left.update(i, source)
                        } else {
                            x.left
                        },
                        right: if turn.is_left {
                            x.right
                        } else {
                            x.right.update(i, source)
                        },
                        slice,
                        sink_left: x.sink_left.push(WavePacket { snowflake: first, ..source }),
                        sink_right: x.sink_right.push(WavePacket { snowflake: second, ..source }),
                        modes_left: if turn.is_left {
                            x.modes_left.push(modes)
                        } else {
                            x.modes_left
                        },
                        modes_right: if turn.is_left {
                            x.modes_right
                        } else {
                            x.modes_right.push(modes)
                        },
                        count: x.count + 2,
                    },
                )
            } else {
                None
            }
        },
    }
}

/// The second pass, from where the first has ended.
pub open spec fn sink_pass(m: Merging, order: Seq<Turn>, id: u8, count: int) -> Option<Sinking>
    decreases order.len(),
{
    if order.len() == 0 {
        Some(
            Sinking {
                left: m.left,
                right: m.right,
                slice: m.slice,
                sink_left: seq![],
                sink_right: seq![],
                modes_left: seq![],
                modes_right: seq![],
                count,
            },
        )
    } else {
        match sink_pass(m, order.drop_last(), id, count) {
            None => None,
            Some(so_far) => sink_turn(so_far, order.last(), id),
        }
    }
}

proof fn lemma_sink_fails(m: Merging, order: Seq<Turn>, id: u8, count: int, n: int)
    requires
        0 <= n <= order.len(),
        sink_pass(m, order.take(n), id, count) is None,
    ensures
        sink_pass(m, order, id, count) is None,
    decreases order.len() - n,
{
    if n < order.len() {
        assert(order.take(n + 1).drop_last() =~= order.take(n));
        lemma_sink_fails(m, order, id, count, n + 1);
    } else {
        assert(order.take(n) =~= order);
    }
}

/// The packets that leave, and the modes of those that came, while they are made.
pub struct Outgoing {
    pub sink_left: Vec<WavePacket>,
    pub sink_right: Vec<WavePacket>,
    pub modes_left: Vec<Modes>,
    pub modes_right: Vec<Modes>,
}

pub open spec fn sinking(
    left: Seq<WavePacket>,
    right: Seq<WavePacket>,
    slice: SliceView,
    out: Outgoing,
    count: int,
) -> Sinking {
    Sinking {
        left,
        right,
        slice,
        sink_left: out.sink_left@,
        sink_right: out.sink_right@,
        modes_left: out.modes_left@,
        modes_right: out.modes_right@,
        count,
    }
}

/// Lets one packet come in and two leave, and gives the modes.
fn leave(
    wp: &mut WavePacket,
    slice: &mut InteractionStoreSlice,
    generator: &mut Generator32,
    sink_left: &mut Vec<WavePacket>,
    sink_right: &mut Vec<WavePacket>,
    Ghost(count): Ghost<int>,
) -> (modes: Option<Modes>)
    requires
        old(slice).wf(),
        count >= 0,
        old(generator).counter == count % 0x1_0000_0000,
    ensures
        final(slice).wf(),
        final(generator).id == old(generator).id,
        ({
            let led = old(slice)@.led_from(old(wp).state_handle);
            &&& modes is Some <==> led is Some && can_leave(
                (led->0).0,
                readdressed(*old(wp), (led->0).1),
            )
            &&& modes matches Some(m) ==> {
                let source = readdressed(*old(wp), (led->0).1);
                let island = (led->0).0.cell(source.state_handle)->Island_0;
                let first = snowflake_32(old(generator).id, count + 1) as u32;
                let second = snowflake_32(old(generator).id, count + 2) as u32;
                &&& *final(wp) == source
                &&& m == (
                    island.mode_of(source.snowflake),
                    island.mode_max,
                    (island.mode_max + 1) as u16,
                )
                &&& final(slice)@ == (led->0).0.with_cell(
                    source.state_handle,
                    CellView::Island(split_in_two(island, source, first, second)),
                )
                &&& final(sink_left)@ == old(sink_left)@.push(
                    WavePacket { snowflake: first, ..source },
                )
                &&& final(sink_right)@ == old(sink_right)@.push(
                    WavePacket { snowflake: second, ..source },
                )
                &&& final(generator).counter == (count + 2) % 0x1_0000_0000
            }
        }),
{
    if !slice.correct_state_handle_if_tombstone(wp) {
        return None;
    }
    let source = *wp;
    if !slice.holds(source.state_handle) {
        return None;
    }
    let able = match slice.get(source.state_handle) {
        InteractionCell::IslandOfInteraction(island) => island.has_packet(&source)
            && island.mode_max <= 0xfffd,
        _ => false,
    };
    if !able {
        return None;
    }
    let id_left: u32 = next_u32(generator);
    let id_right: u32 = next_u32(generator);
    let sink_left_wp = source.set_snowflake(id_left);
    let sink_right_wp = source.set_snowflake(id_right);
    let cell = slice.get_mut(source.state_handle);
    match cell {
        InteractionCell::IslandOfInteraction(island) => {
            let early_mode: u16 = island.extract_wavepacket(&source);
            let sink_left_mode: u16 = island.register_wavepacket(&sink_left_wp);
            let sink_right_mode: u16 = island.register_wavepacket(&sink_right_wp);
            sink_left.push(sink_left_wp);
            sink_right.push(sink_right_wp);
            Some((early_mode, sink_left_mode, sink_right_mode))
        },
        _ => None,
    }
}

/// Updates the packets, and records the modes of those that come and of those that leave.
pub fn sink_packets(
    left: &mut Vec<WavePacket>,
    right: &mut Vec<WavePacket>,
    order: &Vec<Turn>,
    slice: &mut InteractionStoreSlice,
    generator: &mut Generator32,
) -> (out: Option<Outgoing>)
    requires
        old(slice).wf(),
        forall|i: int|
            0 <= i < order@.len() ==> is_turn(
                #[trigger] order@[i],
                old(left)@.len(),
                old(right)@.len(),
            ),
    ensures
        final(slice).wf(),
        final(generator).id == old(generator).id,
        ({
            let before = Merging { left: old(left)@, right: old(right)@, slice: old(slice)@ };
            let pass = sink_pass(
                before,
                order@,
                old(generator).id,
                old(generator).counter as int,
            );
            &&& out is Some <==> pass is Some
            &&& out matches Some(o) ==> pass == Some(
                sinking(final(left)@, final(right)@, final(slice)@, o, (pass->0).count),
            ) && final(generator).counter == (pass->0).count % 0x1_0000_0000
        }),
{
    let ghost before = Merging { left: left@, right: right@, slice: slice@ };
    let ghost id = generator.id;
    let ghost start = generator.counter as int;
    let ghost mut count: int = start;
    let mut out = Outgoing {
        sink_left: Vec::new(),
        sink_right: Vec::new(),
        modes_left: Vec::new(),
        modes_right: Vec::new(),
    };
    let n: usize = order.len();
    let mut k: usize = 0;
    assert(order@.take(0) =~= seq![]);
    assert(sinking(left@, right@, slice@, out, count) =~= sink_pass(
        before,
        seq![],
        id,
        start,
    )->0);
    while k < n
        invariant
            n == order@.len(),
            k <= n,
            slice.wf(),
            before == (Merging { left: old(left)@, right: old(right)@, slice: old(slice)@ }),
            id == old(generator).id,
            start == old(generator).counter,
            generator.id == id,
            count >= 0,
            generator.counter == count % 0x1_0000_0000,
            left@.len() == before.left.len(),
            right@.len() == before.right.len(),
            forall|i: int|
                0 <= i < order@.len() ==> is_turn(
                    #[trigger] order@[i],
                    before.left.len(),
                    before.right.len(),
                ),
            sink_pass(before, order@.take(k as int), id, start) == Some(
                sinking(left@, right@, slice@, out, count),
            ),
        decreases n - k,
    {
        let turn = order[k];
        let ghost so_far = sinking(left@, right@, slice@, out, count);
        assert(is_turn(order@[k as int], before.left.len(), before.right.len()));
        assert(order@.take(k + 1).drop_last() =~= order@.take(k as int));
        assert(order@.take(k + 1).last() == turn);
        let mut wp = if turn.is_left {
            left[turn.index]
        } else {
            right[turn.index]
        };
        match leave(
            &mut wp,
            slice,
            generator,
            &mut out.sink_left,
            &mut out.sink_right,
            Ghost(count),
        ) {
            Some(modes) => {
                if turn.is_left {
                    left.set(turn.index, wp);
                    out.modes_left.push(modes);
                } else {
                    right.set(turn.index, wp);
                    out.modes_right.push(modes);
                }
                proof {
                    count = count + 2;
                    assert(sinking(left@, right@, slice@, out, count) =~= sink_turn(
                        so_far,
                        turn,
                        id,
                    )->0);
                }
            },
            None => {
                proof {
                    assert(sink_turn(so_far, turn, id) is None);
                    lemma_sink_fails(before, order@, id, start, k + 1);
                }
                return None;
            },
        }
        k += 1;
    }
    assert(order@.take(n as int) =~= order@);
    Some(out)
}

/// How many of the turns are those of left packets.
pub open spec fn left_turns(order: Seq<Turn>) -> nat
    decreases order.len(),
{
    if order.len() == 0 {
        0
    } else {
        left_turns(order.drop_last()) + (if order.last().is_left {
            1nat
        } else {
            0nat
        })
    }
}

/// The packet of the turn is in an island that is held.
pub open spec fn turn_in_island(x: Sinking, turn: Turn) -> bool {
    let handle = if turn.is_left {
        x.left[turn.index as int].state_handle
    } else {
        x.right[turn.index as int].state_handle
    };
    x.slice.holds(handle) && x.slice.cell(handle) is Island
}

/// After the second pass, the packets are the same but for their handles; each is in an
/// island; and as many packets leave on either side as came in all, each with its modes.
pub proof fn every_packet_leaves_twice(m: Merging, order: Seq<Turn>, id: u8, count: int)
    requires
        m.slice.wf(),
        sink_pass(m, order, id, count) is Some,
        forall|i: int|
            0 <= i < order.len() ==> is_turn(#[trigger] order[i], m.left.len(), m.right.len()),
    ensures
        ({
            let x = sink_pass(m, order, id, count)->0;
            &&& x.slice.wf()
            &&& same_but_handles(m.left, x.left)
            &&& same_but_handles(m.right, x.right)
            &&& x.sink_left.len() == order.len()
            &&& x.sink_right.len() == order.len()
            &&& x.modes_left.len() == left_turns(order)
            &&& x.modes_right.len() == order.len() - left_turns(order)
            &&& x.count == count + 2 * order.len()
            &&& forall|i: int| 0 <= i < order.len() ==> turn_in_island(x, #[trigger] order[i])
        }),
    decreases order.len(),
{
    if order.len() > 0 {
        let rest = order.drop_last();
        let turn = order.last();
        assert forall|i: int| 0 <= i < rest.len() implies is_turn(
            #[trigger] rest[i],
            m.left.len(),
            m.right.len(),
        ) by {
            assert(order[i] == rest[i]);
        }
        every_packet_leaves_twice(m, rest, id, count);
        let before = sink_pass(m, rest, id, count)->0;
        let x = sink_pass(m, order, id, count)->0;
        assert(is_turn(order[order.len() - 1], m.left.len(), m.right.len()));
        let side = if turn.is_left {
            before.left
        } else {
            before.right
        };
        let i0 = turn.index as int;
        lemma_led_keeps_islands(before.slice, side[i0].state_handle);
        let (led, handle) = before.slice.led_from(side[i0].state_handle)->0;
        let q = led.place(handle);
        assert(led.indices[q] == handle);
        assert forall|i: int| 0 <= i < order.len() implies turn_in_island(
            x,
            #[trigger] order[i],
        ) by {
            let t = order[i];
            if t.is_left == turn.is_left && t.index == turn.index {
                assert(x.slice.cell(handle) is Island);
            } else {
                assert(rest[i] == t);
                assert(turn_in_island(before, rest[i]));
                let h = if t.is_left {
                    before.left[t.index as int].state_handle
                } else {
                    before.right[t.index as int].state_handle
                };
                assert(is_turn(t, m.left.len(), m.right.len()));
                assert(led.cell(h) == before.slice.cell(h));
                let p = led.place(h);
                assert(led.indices[p] == h);
            }
        }
        assert forall|k: int| 0 <= k < m.left.len() implies (#[trigger] x.left[k]) == readdressed(
            m.left[k],
            x.left[k].state_handle,
        ) by {
            assert(before.left[k] == readdressed(m.left[k], before.left[k].state_handle));
        }
        assert forall|k: int| 0 <= k < m.right.len() implies (#[trigger] x.right[k])
            == readdressed(m.right[k], x.right[k].state_handle) by {
            assert(before.right[k] == readdressed(m.right[k], before.right[k].state_handle));
        }
    }
}

/// A packet is let through in its turn just where it is led to an island that knows it and has
/// two modes for those that leave.
pub proof fn a_packet_is_let_through_where_it_is_known(x: Sinking, turn: Turn, id: u8)
    ensures
        ({
            let wp = if turn.is_left {
                x.left[turn.index as int]
            } else {
                x.right[turn.index as int]
            };
            sink_turn(x, turn, id) is Some <==> (x.slice.led_from(wp.state_handle) matches Some((
                led,
                handle,
            )) && led.holds(handle) && (led.cell(handle) matches CellView::Island(island)
                && island.has_packet(wp.snowflake) && island.mode_max + 2 <= u16::MAX))
        }),
{
}

} // verus!
