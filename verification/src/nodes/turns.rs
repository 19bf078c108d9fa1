//! The order in which the packets of two ports are taken.

use vstd::prelude::*;

use crate::nodes::packet::WavePacket;

verus! {

/// A packet and the place from which the other port is still to come.
#[derive(Clone, Copy, Debug, PartialEq, Eq, Structural)]
pub struct Turn {
    pub is_left: bool,
    pub index: usize,
    pub other: usize,
}

/// The left packet is next: it is there, and it is no later than the right one.
pub open spec fn left_is_next(
    left: Seq<WavePacket>,
    right: Seq<WavePacket>,
    l: int,
    r: int,
) -> bool {
    l < left.len() && (r >= right.len() || left[l].time <= right[r].time)
}

/// The packets by time, from those places on; left ones first where times agree.
pub open spec fn turns_from(
    left: Seq<WavePacket>,
    right: Seq<WavePacket>,
    l: int,
    r: int,
) -> Seq<Turn>
    decreases left.len() - l + right.len() - r,
    when 0 <= l <= left.len() && 0 <= r <= right.len()
{
    if l >= left.len() && r >= right.len() {
        seq![]
    } else if left_is_next(left, right, l, r) {
        seq![Turn { is_left: true, index: l as usize, other: r as usize }] + turns_from(
            left,
            right,
            l + 1,
            r,
        )
    } else {
        seq![Turn { is_left: false, index: r as usize, other: l as usize }] + turns_from(
            left,
            right,
            l,
            r + 1,
        )
    }
}

pub open spec fn turns_of(left: Seq<WavePacket>, right: Seq<WavePacket>) -> Seq<Turn> {
    turns_from(left, right, 0, 0)
}

/// A turn speaks of a packet that there is.
pub open spec fn is_turn(turn: Turn, lefts: nat, rights: nat) -> bool {
    if turn.is_left {
        turn.index < lefts && turn.other <= rights
    } else {
        turn.index < rights && turn.other <= lefts
    }
}

pub fn turns(left: &Vec<WavePacket>, right: &Vec<WavePacket>) -> (order: Vec<Turn>)
    ensures
        order@ == turns_of(left@, right@),
        forall|i: int|
            0 <= i < order@.len() ==> is_turn(#[trigger] order@[i], left@.len(), right@.len()),
{
    let ghost all = turns_of(left@, right@);
    let mut order: Vec<Turn> = Vec::new();
    let mut l: usize = 0;
    let mut r: usize = 0;
    let lefts: usize = left.len();
    let rights: usize = right.len();
    assert(seq![] + turns_from(left@, right@, 0, 0) =~= all);
    while l < lefts || r < rights
        invariant
            lefts == left@.len(),
            rights == right@.len(),
            l <= lefts,
            r <= rights,
            order@ + turns_from(left@, right@, l as int, r as int) == all,
            forall|i: int|
                0 <= i < order@.len() ==> is_turn(#[trigger] order@[i], left@.len(), right@.len()),
        decreases lefts - l + rights - r,
    {
        let ghost before = order@;
        if l < lefts && (r >= rights || left[l].time <= right[r].time) {
            order.push(Turn { is_left: true, index: l, other: r });
            let ghost rest = turns_from(left@, right@, l + 1, r as int);
            assert(before + (seq![order@.last()] + rest) =~= order@ + rest);
            l += 1;
        } else {
            order.push(Turn { is_left: false, index: r, other: l });
            let ghost rest = turns_from(left@, right@, l as int, r + 1);
            assert(before + (seq![order@.last()] + rest) =~= order@ + rest);
            r += 1;
        }
    }
    assert(order@ + Seq::<Turn>::empty() =~= order@);
    order
}

/// The turn of a packet, by its port and place.
pub open spec fn is_turn_of(turn: Turn, is_left: bool, index: int) -> bool {
    turn.is_left == is_left && turn.index == index
}

pub open spec fn has_turn(turns: Seq<Turn>, is_left: bool, index: int) -> bool {
    exists|i: int| 0 <= i < turns.len() && #[trigger] is_turn_of(turns[i], is_left, index)
}

/// Every packet has its turn, and only one; a turn looks at what has not had its turn on
/// the other port.
pub proof fn every_packet_has_its_turn(
    left: Seq<WavePacket>,
    right: Seq<WavePacket>,
    l: int,
    r: int,
)
    requires
        0 <= l <= left.len() <= usize::MAX,
        0 <= r <= right.len() <= usize::MAX,
    ensures
        turns_from(left, right, l, r).len() == left.len() - l + right.len() - r,
        forall|k: int|
            l <= k < left.len() ==> #[trigger] has_turn(turns_from(left, right, l, r), true, k),
        forall|k: int|
            r <= k < right.len() ==> #[trigger] has_turn(turns_from(left, right, l, r), false, k),
        forall|i: int|
            0 <= i < turns_from(left, right, l, r).len() ==> ({
                let turn = #[trigger] turns_from(left, right, l, r)[i];
                if turn.is_left {
                    l <= turn.index < left.len() && r <= turn.other <= right.len()
                } else {
                    r <= turn.index < right.len() && l <= turn.other <= left.len()
                }
            }),
        forall|i: int, k: int|
            0 <= i < k < turns_from(left, right, l, r).len() ==> ({
                let a = #[trigger] turns_from(left, right, l, r)[i];
                let b = #[trigger] turns_from(left, right, l, r)[k];
                if a.is_left == b.is_left {
                    a.index < b.index && a.other <= b.other
                } else {
                    a.index < b.other && a.other <= b.index
                }
            }),
    decreases left.len() - l + right.len() - r,
{
    if l < left.len() || r < right.len() {
        let is_left = left_is_next(left, right, l, r);
        let (l2, r2) = if is_left {
            (l + 1, r)
        } else {
            (l, r + 1)
        };
        let first = if is_left {
            Turn { is_left: true, index: l as usize, other: r as usize }
        } else {
            Turn { is_left: false, index: r as usize, other: l as usize }
        };
        every_packet_has_its_turn(left, right, l2, r2);
        let rest = turns_from(left, right, l2, r2);
        let all = turns_from(left, right, l, r);
        assert(all == seq![first] + rest);
        assert forall|k: int| l <= k < left.len() implies #[trigger] has_turn(all, true, k) by {
            if k == l && is_left {
                assert(is_turn_of(all[0], true, k));
            } else {
                assert(has_turn(rest, true, k));
                let i = choose|i: int|
                    0 <= i < rest.len() && #[trigger] is_turn_of(rest[i], true, k);
                assert(is_turn_of(all[i + 1], true, k));
            }
        }
        assert forall|k: int| r <= k < right.len() implies #[trigger] has_turn(all, false, k) by {
            if k == r && !is_left {
                assert(is_turn_of(all[0], false, k));
            } else {
                assert(has_turn(rest, false, k));
                let i = choose|i: int|
                    0 <= i < rest.len() && #[trigger] is_turn_of(rest[i], false, k);
                assert(is_turn_of(all[i + 1], false, k));
            }
        }
        assert forall|i: int, k: int| 0 <= i < k < all.len() implies ({
            let a = #[trigger] all[i];
            let b = #[trigger] all[k];
            if a.is_left == b.is_left {
                a.index < b.index && a.other <= b.other
            } else {
                a.index < b.other && a.other <= b.index
            }
        }) by {
            assert(all[k] == rest[k - 1]);
            if i > 0 {
                assert(all[i] == rest[i - 1]);
            }
        }
    }
}

/// The time of the packet whose turn it is.
pub open spec fn turn_time(left: Seq<WavePacket>, right: Seq<WavePacket>, turn: Turn) -> u64 {
    if turn.is_left {
        left[turn.index as int].time
    } else {
        right[turn.index as int].time
    }
}

/// Packets come to their turns in the order of time, and left ones first where times agree.
pub proof fn turns_come_in_the_order_of_time(
    left: Seq<WavePacket>,
    right: Seq<WavePacket>,
    l: int,
    r: int,
    i: int,
    k: int,
)
    requires
        0 <= l <= left.len() <= usize::MAX,
        0 <= r <= right.len() <= usize::MAX,
        forall|a: int, b: int|
            0 <= a <= b < left.len() ==> (#[trigger] left[a]).time <= (#[trigger] left[b]).time,
        forall|a: int, b: int|
            0 <= a <= b < right.len() ==> (#[trigger] right[a]).time <= (#[trigger] right[b]).time,
        0 <= i < k < turns_from(left, right, l, r).len(),
    ensures
        ({
            let a = turns_from(left, right, l, r)[i];
            let b = turns_from(left, right, l, r)[k];
            &&& turn_time(left, right, a) <= turn_time(left, right, b)
            &&& turn_time(left, right, a) == turn_time(left, right, b) && a.is_left != b.is_left
                ==> a.is_left
        }),
    decreases i,
{
    let is_left = left_is_next(left, right, l, r);
    let (l2, r2) = if is_left {
        (l + 1, r)
    } else {
        (l, r + 1)
    };
    let all = turns_from(left, right, l, r);
    let rest = turns_from(left, right, l2, r2);
    assert(l < left.len() || r < right.len());
    assert(all == seq![all[0]] + rest);
    assert(all[k] == rest[k - 1]);
    if i > 0 {
        turns_come_in_the_order_of_time(left, right, l2, r2, i - 1, k - 1);
        assert(all[i] == rest[i - 1]);
    } else {
        every_packet_has_its_turn(left, right, l2, r2);
        let b = rest[k - 1];
        if b.is_left {
            assert(left[l].time <= left[b.index as int].time);
        } else {
            assert(right[r].time <= right[b.index as int].time);
        }
    }
}

} // verus!
