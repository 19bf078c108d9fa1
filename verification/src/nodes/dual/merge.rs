//! The first pass over two batches: states are merged, turn by turn.

use vstd::prelude::*;

use crate::concurrency::interaction_store::view::readdressed;
use crate::concurrency::slice::{lemma_led_keeps_islands, InteractionStoreSlice, SliceView};
use crate::nodes::packet::{all_fit, WavePacket};
use crate::nodes::turns::{is_turn, Turn};

verus! {

/// The packets of both ports, and the cells of their states.
#[verifier::ext_equal]
pub struct Merging {
    pub left: Seq<WavePacket>,
    pub right: Seq<WavePacket>,
    pub slice: SliceView,
}

/// The states of the late packets, from place `i` on as long as they overlap the early
/// one, merged into its state. None where a tombstone leads nowhere or two states are no
/// islands that can be merged.
pub open spec fn late_merged(
    early: WavePacket,
    late: Seq<WavePacket>,
    i: int,
    slice: SliceView,
) -> Option<(Seq<WavePacket>, SliceView)>
    decreases late.len() - i,
{
    if !(0 <= i < late.len()) || !early.meets(late[i]) {
        Some((late, slice))
    } else {
        match slice.led_from(late[i].state_handle) {
            None => None,
            Some((led, handle)) => {
                let now = late.update(i, readdressed(late[i], handle));
                if handle == early.state_handle {
                    late_merged(early, now, i + 1, led)
                } else if led.can_merge(handle, early.state_handle) {
                    late_merged(early, now, i + 1, led.merged(handle, early.state_handle))
                } else {
                    None
                }
            },
        }
    }
}

/// One turn of the first pass: the state of the packet takes in those that it meets.
pub open spec fn merge_turn(m: Merging, turn: Turn) -> Option<Merging> {
    let (early_side, late_side) = if turn.is_left {
        (m.left, m.right)
    } else {
        (m.right, m.left)
    };
    let i = turn.index as int;
    match m.slice.led_from(early_side[i].state_handle) {
        None => None,
        Some((led, handle)) => {
            let early = readdressed(early_side[i], handle);
            match late_merged(early, late_side, turn.other as int, led) {
                None => None,
                Some((late, slice)) => Some(
                    if turn.is_left {
                        Merging { left: early_side.update(i, early), right: late, slice }
                    } else {
                        Merging { left: late, right: early_side.update(i, early), slice }
                    },
                ),
            }
        },
    }
}

/// The first pass, turn by turn: each packet takes in the states of those that it overlaps
/// in a row, from where the other port stands.
pub open spec fn merge_pass(m: Merging, order: Seq<Turn>) -> Option<Merging>
    decreases order.len(),
{
    if order.len() == 0 {
        Some(m)
    } else {
        match merge_pass(m, order.drop_last()) {
            None => None,
            Some(so_far) => merge_turn(so_far, order.last()),
        }
    }
}

proof fn lemma_late_merged(early: WavePacket, late: Seq<WavePacket>, i: int, slice: SliceView)
    requires
        late_merged(early, late, i, slice) is Some,
        0 <= i,
    ensures
        ({
            let after = (late_merged(early, late, i, slice)->0).0;
            &&& after.len() == late.len()
            &&& forall|k: int|
                0 <= k < late.len() ==> (#[trigger] after[k]) == readdressed(
                    late[k],
                    after[k].state_handle,
                )
        }),
    decreases late.len() - i,
{
    if i < late.len() && early.meets(late[i]) {
        let (led, handle) = slice.led_from(late[i].state_handle)->0;
        let now = late.update(i, readdressed(late[i], handle));
        if handle == early.state_handle {
            lemma_late_merged(early, now, i + 1, led);
        } else {
            lemma_late_merged(early, now, i + 1, led.merged(handle, early.state_handle));
        }
        let after = (late_merged(early, late, i, slice)->0).0;
        assert forall|k: int| 0 <= k < late.len() implies (#[trigger] after[k]) == readdressed(
            late[k],
            after[k].state_handle,
        ) by {
            assert(after[k] == readdressed(now[k], after[k].state_handle));
        }
    }
}

/// The packets differ in their handles at most.
pub open spec fn same_but_handles(before: Seq<WavePacket>, after: Seq<WavePacket>) -> bool {
    &&& after.len() == before.len()
    &&& forall|k: int|
        0 <= k < before.len() ==> (#[trigger] after[k]) == readdressed(
            before[k],
            after[k].state_handle,
        )
}

/// The first pass only readdresses packets.
pub proof fn merging_only_readdresses(m: Merging, order: Seq<Turn>)
    requires
        merge_pass(m, order) is Some,
        forall|i: int|
            0 <= i < order.len() ==> is_turn(#[trigger] order[i], m.left.len(), m.right.len()),
    ensures
        same_but_handles(m.left, (merge_pass(m, order)->0).left),
        same_but_handles(m.right, (merge_pass(m, order)->0).right),
    decreases order.len(),
{
    if order.len() > 0 {
        let turn = order.last();
        assert forall|i: int| 0 <= i < order.drop_last().len() implies is_turn(
            #[trigger] order.drop_last()[i],
            m.left.len(),
            m.right.len(),
        ) by {
            assert(order[i] == order.drop_last()[i]);
        }
        merging_only_readdresses(m, order.drop_last());
        let so_far = merge_pass(m, order.drop_last())->0;
        assert(is_turn(order[order.len() - 1], m.left.len(), m.right.len()));
        let (early_side, late_side) = if turn.is_left {
            (so_far.left, so_far.right)
        } else {
            (so_far.right, so_far.left)
        };
        let (led, handle) = so_far.slice.led_from(early_side[turn.index as int].state_handle)->0;
        let early = readdressed(early_side[turn.index as int], handle);
        lemma_late_merged(early, late_side, turn.other as int, led);
        let after = merge_pass(m, order)->0;
        assert forall|k: int| 0 <= k < m.left.len() implies (#[trigger] after.left[k])
            == readdressed(m.left[k], after.left[k].state_handle) by {
            assert(so_far.left[k] == readdressed(m.left[k], so_far.left[k].state_handle));
        }
        assert forall|k: int| 0 <= k < m.right.len() implies (#[trigger] after.right[k])
            == readdressed(m.right[k], after.right[k].state_handle) by {
            assert(so_far.right[k] == readdressed(m.right[k], so_far.right[k].state_handle));
        }
    }
}

fn merge_late(
    early: &WavePacket,
    late: &mut Vec<WavePacket>,
    from: usize,
    slice: &mut InteractionStoreSlice,
) -> (merged: bool)
    requires
        early.fits(),
        all_fit(old(late)@),
        old(slice).wf(),
    ensures
        final(slice).wf(),
        all_fit(final(late)@),
        final(late)@.len() == old(late)@.len(),
        merged == (late_merged(*early, old(late)@, from as int, old(slice)@) is Some),
        merged ==> late_merged(*early, old(late)@, from as int, old(slice)@) == Some(
            (final(late)@, final(slice)@),
        ),
{
    let ghost goal = late_merged(*early, late@, from as int, slice@);
    let n: usize = late.len();
    let mut i: usize = from;
    while i < n
        invariant_except_break
            goal == late_merged(*early, late@, i as int, slice@),
        invariant
            slice.wf(),
            early.fits(),
            all_fit(late@),
            n == late@.len(),
            n == old(late)@.len(),
            goal == late_merged(*early, old(late)@, from as int, old(slice)@),
        ensures
            goal == Some((late@, slice@)),
        decreases n - i,
    {
        let mut wp = late[i];
        assert(wp == late@[i as int] && wp.fits());
        if !early.overlaps(&wp) {
            break;
        }
        if !slice.correct_state_handle_if_tombstone(&mut wp) {
            return false;
        }
        late.set(i, wp);
        if early.state_handle != wp.state_handle {
            // merge late to early
            if !slice.merge_islands(wp.state_handle, early.state_handle) {
                return false;
            }
        }
        i += 1;
    }
    true
}

/// Merges the states of all packets that meet.
pub fn merge_states(
    left: &mut Vec<WavePacket>,
    right: &mut Vec<WavePacket>,
    order: &Vec<Turn>,
    slice: &mut InteractionStoreSlice,
) -> (merged: bool)
    requires
        all_fit(old(left)@),
        all_fit(old(right)@),
        old(slice).wf(),
        forall|i: int|
            0 <= i < order@.len() ==> is_turn(
                #[trigger] order@[i],
                old(left)@.len(),
                old(right)@.len(),
            ),
    ensures
        final(slice).wf(),
        final(left)@.len() == old(left)@.len(),
        final(right)@.len() == old(right)@.len(),
        all_fit(final(left)@),
        all_fit(final(right)@),
        ({
            let before = Merging { left: old(left)@, right: old(right)@, slice: old(slice)@ };
            let after = Merging { left: final(left)@, right: final(right)@, slice: final(slice)@ };
            &&& merged == (merge_pass(before, order@) is Some)
            &&& merged ==> merge_pass(before, order@) == Some(after)
        }),
{
    let ghost before = Merging { left: left@, right: right@, slice: slice@ };
    let n: usize = order.len();
    let mut k: usize = 0;
    assert(order@.take(0) =~= seq![]);
    while k < n
        invariant
            n == order@.len(),
            k <= n,
            slice.wf(),
            before == (Merging { left: old(left)@, right: old(right)@, slice: old(slice)@ }),
            left@.len() == before.left.len(),
            right@.len() == before.right.len(),
            all_fit(left@),
            all_fit(right@),
            forall|i: int|
                0 <= i < order@.len() ==> is_turn(
                    #[trigger] order@[i],
                    before.left.len(),
                    before.right.len(),
                ),
            merge_pass(before, order@.take(k as int)) == Some(
                (Merging { left: left@, right: right@, slice: slice@ }),
            ),
        decreases n - k,
    {
        let turn = order[k];
        assert(is_turn(order@[k as int], before.left.len(), before.right.len()));
        assert(order@.take(k + 1).drop_last() =~= order@.take(k as int));
        assert(order@.take(k + 1).last() == turn);
        let ok = if turn.is_left {
            merge_turn_in(left, right, turn, slice)
        } else {
            merge_turn_in(right, left, turn, slice)
        };
        if !ok {
            proof {
                lemma_merge_fails(before, order@, k + 1);
            }
            return false;
        }
        k += 1;
    }
    assert(order@.take(n as int) =~= order@);
    true
}

fn merge_turn_in(
    early_side: &mut Vec<WavePacket>,
    late_side: &mut Vec<WavePacket>,
    turn: Turn,
    slice: &mut InteractionStoreSlice,
) -> (ok: bool)
    requires
        all_fit(old(early_side)@),
        all_fit(old(late_side)@),
        old(slice).wf(),
        turn.index < old(early_side)@.len(),
    ensures
        final(slice).wf(),
        all_fit(final(early_side)@),
        all_fit(final(late_side)@),
        final(early_side)@.len() == old(early_side)@.len(),
        final(late_side)@.len() == old(late_side)@.len(),
        ({
            let before = if turn.is_left {
                Merging { left: old(early_side)@, right: old(late_side)@, slice: old(slice)@ }
            } else {
                Merging { left: old(late_side)@, right: old(early_side)@, slice: old(slice)@ }
            };
            let after = if turn.is_left {
                Merging { left: final(early_side)@, right: final(late_side)@, slice: final(slice)@ }
            } else {
                Merging { left: final(late_side)@, right: final(early_side)@, slice: final(slice)@ }
            };
            &&& ok == (merge_turn(before, turn) is Some)
            &&& ok ==> merge_turn(before, turn) == Some(after)
        }),
{
    let mut early = early_side[turn.index];
    assert(early == early_side@[turn.index as int] && early.fits());
    if !slice.correct_state_handle_if_tombstone(&mut early) {
        return false;
    }
    early_side.set(turn.index, early);
    merge_late(&early, late_side, turn.other, slice)
}

proof fn lemma_merge_fails(m: Merging, order: Seq<Turn>, n: int)
    requires
        0 <= n <= order.len(),
        merge_pass(m, order.take(n)) is None,
    ensures
        merge_pass(m, order) is None,
    decreases order.len() - n,
{
    if n < order.len() {
        assert(order.take(n + 1).drop_last() =~= order.take(n));
        lemma_merge_fails(m, order, n + 1);
    } else {
        assert(order.take(n) =~= order);
    }
}

proof fn lemma_late_keeps_the_slice(
    early: WavePacket,
    late: Seq<WavePacket>,
    i: int,
    slice: SliceView,
)
    requires
        slice.wf(),
        late_merged(early, late, i, slice) is Some,
    ensures
        (late_merged(early, late, i, slice)->0).1.wf(),
        (late_merged(early, late, i, slice)->0).1.indices == slice.indices,
    decreases late.len() - i,
{
    if 0 <= i < late.len() && early.meets(late[i]) {
        lemma_led_keeps_islands(slice, late[i].state_handle);
        let (led, handle) = slice.led_from(late[i].state_handle)->0;
        let now = late.update(i, readdressed(late[i], handle));
        if handle == early.state_handle {
            lemma_late_keeps_the_slice(early, now, i + 1, led);
        } else {
            lemma_late_keeps_the_slice(
                early,
                now,
                i + 1,
                led.merged(handle, early.state_handle),
            );
        }
    }
}

/// The first pass changes what is in cells, not which cells are held.
pub proof fn merging_keeps_the_slice(m: Merging, order: Seq<Turn>)
    requires
        m.slice.wf(),
        merge_pass(m, order) is Some,
    ensures
        (merge_pass(m, order)->0).slice.wf(),
        (merge_pass(m, order)->0).slice.indices == m.slice.indices,
    decreases order.len(),
{
    if order.len() > 0 {
        merging_keeps_the_slice(m, order.drop_last());
        let so_far = merge_pass(m, order.drop_last())->0;
        let turn = order.last();
        let (early_side, late_side) = if turn.is_left {
            (so_far.left, so_far.right)
        } else {
            (so_far.right, so_far.left)
        };
        let i = turn.index as int;
        lemma_led_keeps_islands(so_far.slice, early_side[i].state_handle);
        let (led, handle) = so_far.slice.led_from(early_side[i].state_handle)->0;
        lemma_late_keeps_the_slice(
            readdressed(early_side[i], handle),
            late_side,
            turn.other as int,
            led,
        );
    }
}

/// What the early packet's state takes in leaves it where it is.
proof fn lemma_early_stays(early: WavePacket, late: Seq<WavePacket>, i: int, slice: SliceView)
    requires
        slice.wf(),
        slice.holds(early.state_handle),
        !(slice.cell(early.state_handle) is Tombstone),
        late_merged(early, late, i, slice) is Some,
    ensures
        ({
            let after = (late_merged(early, late, i, slice)->0).1;
            &&& after.wf()
            &&& after.holds(early.state_handle)
            &&& !(after.cell(early.state_handle) is Tombstone)
        }),
    decreases late.len() - i,
{
    if 0 <= i < late.len() && early.meets(late[i]) {
        lemma_led_keeps_islands(slice, late[i].state_handle);
        let (led, handle) = slice.led_from(late[i].state_handle)->0;
        let now = late.update(i, readdressed(late[i], handle));
        assert(led.cell(early.state_handle) == slice.cell(early.state_handle));
        if handle == early.state_handle {
            lemma_early_stays(early, now, i + 1, led);
        } else {
            let merged = led.merged(handle, early.state_handle);
            assert(led.indices[led.place(handle)] == handle);
            assert(led.indices[led.place(early.state_handle)] == early.state_handle);
            assert(merged.cell(early.state_handle) is Island);
            lemma_early_stays(early, now, i + 1, merged);
        }
    }
}

/// The packet whose turn it is keeps its state, and that state stays where it is: those that
/// it meets come to it, not it to them.
pub proof fn states_come_to_the_packet_whose_turn_it_is(m: Merging, turn: Turn)
    requires
        m.slice.wf(),
        is_turn(turn, m.left.len(), m.right.len()),
        merge_turn(m, turn) is Some,
    ensures
        ({
            let after = merge_turn(m, turn)->0;
            let i = turn.index as int;
            let (before, now) = if turn.is_left {
                (m.left[i], after.left[i])
            } else {
                (m.right[i], after.right[i])
            };
            &&& m.slice.led_from(before.state_handle) is Some
            &&& now.state_handle == (m.slice.led_from(before.state_handle)->0).1
            &&& after.slice.holds(now.state_handle)
            &&& !(after.slice.cell(now.state_handle) is Tombstone)
        }),
{
    let (early_side, late_side) = if turn.is_left {
        (m.left, m.right)
    } else {
        (m.right, m.left)
    };
    let i = turn.index as int;
    lemma_led_keeps_islands(m.slice, early_side[i].state_handle);
    let (led, handle) = m.slice.led_from(early_side[i].state_handle)->0;
    let early = readdressed(early_side[i], handle);
    lemma_early_stays(early, late_side, turn.other as int, led);
}

/// A late packet that the early one does not overlap ends its row. One that it overlaps is led
/// to its state, which comes to that of the early one unless it is there already, and the next
/// is looked at.
pub proof fn a_late_packet_joins_the_early_one(
    early: WavePacket,
    late: Seq<WavePacket>,
    i: int,
    slice: SliceView,
)
    requires
        0 <= i < late.len(),
    ensures
        !early.meets(late[i]) ==> late_merged(early, late, i, slice) == Some((late, slice)),
        early.meets(late[i]) && slice.led_from(late[i].state_handle) is Some ==> {
            let (led, handle) = slice.led_from(late[i].state_handle)->0;
            let now = late.update(i, WavePacket { state_handle: handle, ..late[i] });
            &&& handle == early.state_handle ==> late_merged(early, late, i, slice) == late_merged(
                early,
                now,
                i + 1,
                led,
            )
            &&& handle != early.state_handle && led.can_merge(handle, early.state_handle)
                ==> late_merged(early, late, i, slice) == late_merged(
                early,
                now,
                i + 1,
                led.merged(handle, early.state_handle),
            )
        },
{
}

} // verus!
