//! Which packets interact in a 2x2 component: those that overlap, and no others.

use vstd::prelude::*;

use crate::concurrency::operator::Operator;
use crate::concurrency::slice::SliceView;
use crate::nodes::dual::operate::{
    lemma_run, lone_operator, meeting_operator, meetings_of, operate_pass, run_of, turn_others,
    turn_packet, turn_run, Scene,
};
use crate::nodes::dual::operate_laws::{added_at, lemma_marks, reaches};
use crate::nodes::dual::sink::Modes;
use crate::nodes::packet::{alike, in_step, WavePacket};
use crate::nodes::pairing_laws::in_order;
use crate::nodes::turns::{
    every_packet_has_its_turn, has_turn, is_turn, is_turn_of, left_is_next, turns_from, turns_of,
    Turn,
};
use crate::types::OpStoreHandle;

verus! {

/// In its turn, one of the two packets acts together with the other.
pub open spec fn takes(
    left: Seq<WavePacket>,
    right: Seq<WavePacket>,
    turn: Turn,
    l: int,
    r: int,
) -> bool {
    let end = turn.other + turn_run(left, right, turn);
    if turn.is_left {
        turn.index == l && turn.other <= r < end
    } else {
        turn.index == r && turn.other <= l < end
    }
}

/// What comes after a turn on the other port is no earlier than its packet.
spec fn is_timely(left: Seq<WavePacket>, right: Seq<WavePacket>, turn: Turn) -> bool {
    turn.other < turn_others(left, right, turn).len() ==> turn_packet(left, right, turn).time
        <= turn_others(left, right, turn)[turn.other as int].time
}

proof fn lemma_timely(left: Seq<WavePacket>, right: Seq<WavePacket>, l: int, r: int)
    requires
        0 <= l <= left.len() <= usize::MAX,
        0 <= r <= right.len() <= usize::MAX,
    ensures
        forall|t: int|
            0 <= t < turns_from(left, right, l, r).len() ==> is_timely(
                left,
                right,
                #[trigger] turns_from(left, right, l, r)[t],
            ),
    decreases left.len() - l + right.len() - r,
{
    if l < left.len() || r < right.len() {
        let is_left = left_is_next(left, right, l, r);
        let (l2, r2) = if is_left {
            (l + 1, r)
        } else {
            (l, r + 1)
        };
        lemma_timely(left, right, l2, r2);
        let all = turns_from(left, right, l, r);
        let rest = turns_from(left, right, l2, r2);
        assert forall|t: int| 0 <= t < all.len() implies is_timely(
            left,
            right,
            #[trigger] all[t],
        ) by {
            if t > 0 {
                assert(all[t] == rest[t - 1]);
            }
        }
    }
}

proof fn lemma_run_goes_on(early: WavePacket, late: Seq<WavePacket>, i: int, k: int)
    requires
        0 <= i <= k < late.len(),
        forall|j: int| i <= j <= k ==> early.meets(#[trigger] late[j]),
    ensures
        k < i + run_of(early, late, i),
    decreases k - i,
{
    assert(early.meets(late[i]));
    if i < k {
        lemma_run_goes_on(early, late, i + 1, k);
    }
}

/// From its turn on, a packet acts together with a later one exactly when they meet.
proof fn lemma_run_is_complete(early: WavePacket, late: Seq<WavePacket>, i: int, k: int)
    requires
        0 <= i <= k < late.len(),
        in_step(late),
        early.time <= late[i].time,
        forall|j: int|
            0 <= j < late.len() ==> (early.time_sigma > 0) == ((#[trigger] late[j]).time_sigma
                > 0),
    ensures
        k < i + run_of(early, late, i) <==> early.meets(late[k]),
{
    lemma_run(early, late, i);
    if early.meets(late[k]) {
        assert forall|j: int| i <= j <= k implies early.meets(#[trigger] late[j]) by {
            assert(late[i].time <= late[j].time);
            assert(late[j].lead() <= late[k].lead());
        }
        lemma_run_goes_on(early, late, i, k);
    }
}

/// Two packets act together in some turn exactly when they overlap, and in one turn only.
pub proof fn every_meeting_has_its_operator(
    left: Seq<WavePacket>,
    right: Seq<WavePacket>,
    l: int,
    r: int,
)
    requires
        left.len() <= usize::MAX,
        right.len() <= usize::MAX,
        in_step(left),
        in_step(right),
        alike(left, right),
        0 <= l < left.len(),
        0 <= r < right.len(),
    ensures
        left[l].meets(right[r]) <==> exists|t: int|
            0 <= t < turns_of(left, right).len() && takes(
                left,
                right,
                #[trigger] turns_of(left, right)[t],
                l,
                r,
            ),
        forall|t: int, u: int|
            0 <= t < turns_of(left, right).len() && 0 <= u < turns_of(left, right).len() && takes(
                left,
                right,
                #[trigger] turns_of(left, right)[t],
                l,
                r,
            ) && takes(left, right, #[trigger] turns_of(left, right)[u], l, r) ==> t == u,
{
    let order = turns_of(left, right);
    every_packet_has_its_turn(left, right, 0, 0);
    lemma_timely(left, right, 0, 0);
    assert(order == turns_from(left, right, 0, 0));
    assert(has_turn(order, true, l) && has_turn(order, false, r));
    let a = choose|t: int| 0 <= t < order.len() && #[trigger] is_turn_of(order[t], true, l);
    let b = choose|t: int| 0 <= t < order.len() && #[trigger] is_turn_of(order[t], false, r);
    assert(is_timely(left, right, order[a]) && is_timely(left, right, order[b]));
    assert forall|t: int|
        0 <= t < order.len() && takes(left, right, #[trigger] order[t], l, r) implies t == a || t
        == b by {
        if order[t].is_left {
            assert(order[t].is_left == order[a].is_left);
        } else {
            assert(order[t].is_left == order[b].is_left);
        }
    }
    if a < b {
        lemma_run_is_complete(left[l], right, order[a].other as int, r);
    } else {
        lemma_run_is_complete(right[r], left, order[b].other as int, l);
    }
}

/// Every turn speaks of packets that there are.
proof fn lemma_turns(left: Seq<WavePacket>, right: Seq<WavePacket>)
    requires
        left.len() <= usize::MAX,
        right.len() <= usize::MAX,
    ensures
        forall|t: int|
            0 <= t < turns_of(left, right).len() ==> is_turn(
                #[trigger] turns_of(left, right)[t],
                left.len(),
                right.len(),
            ) && is_timely(left, right, turns_of(left, right)[t]),
{
    every_packet_has_its_turn(left, right, 0, 0);
    lemma_timely(left, right, 0, 0);
    assert forall|t: int| 0 <= t < turns_of(left, right).len() implies is_turn(
        #[trigger] turns_of(left, right)[t],
        left.len(),
        right.len(),
    ) && is_timely(left, right, turns_of(left, right)[t]) by {
        assert(turns_from(left, right, 0, 0)[t] == turns_of(left, right)[t]);
    }
}

/// The marks never fall behind: the packets of a later turn reach as far as those of an
/// earlier one of the same port.
proof fn lemma_reach_grows(left: Seq<WavePacket>, right: Seq<WavePacket>, t: int, u: int)
    requires
        left.len() <= usize::MAX,
        right.len() <= usize::MAX,
        in_step(left),
        in_step(right),
        in_order(left),
        in_order(right),
        alike(left, right),
        0 <= t < u < turns_of(left, right).len(),
        turns_of(left, right)[t].is_left == turns_of(left, right)[u].is_left,
    ensures
        ({
            let a = turns_of(left, right)[t];
            let b = turns_of(left, right)[u];
            turn_run(left, right, a) > 0 ==> a.other + turn_run(left, right, a) <= b.other
                + turn_run(left, right, b)
        }),
{
    let a = turns_of(left, right)[t];
    let b = turns_of(left, right)[u];
    let others = turn_others(left, right, a);
    every_packet_has_its_turn(left, right, 0, 0);
    lemma_turns(left, right);
    assert(turns_from(left, right, 0, 0)[t] == a && turns_from(left, right, 0, 0)[u] == b);
    let early = turn_packet(left, right, a);
    let later = turn_packet(left, right, b);
    let k = b.other + turn_run(left, right, b);
    lemma_run(early, others, a.other as int);
    lemma_run(later, others, b.other as int);
    if k < a.other + turn_run(left, right, a) {
        lemma_run_is_complete(later, others, b.other as int, k);
        assert(early.meets(others[k]));
        assert(others[b.other as int].time <= others[k].time);
        assert(early.trail() <= later.trail());
        assert(later.meets(others[k]));
        assert(false);
    }
}

/// The marks are past every packet that was met so far.
proof fn lemma_marks_are_past(
    x: Scene,
    slice: SliceView,
    seq: OpStoreHandle,
    weights: Seq<u64>,
    n: int,
    t: int,
)
    requires
        x.left.len() <= usize::MAX,
        x.right.len() <= usize::MAX,
        in_step(x.left),
        in_step(x.right),
        in_order(x.left),
        in_order(x.right),
        alike(x.left, x.right),
        0 <= t < n <= turns_of(x.left, x.right).len(),
        turn_run(x.left, x.right, turns_of(x.left, x.right)[t]) > 0,
    ensures
        ({
            let order = turns_of(x.left, x.right);
            let marks = operate_pass(x, slice, order.take(n), seq, weights);
            let end = order[t].other + turn_run(x.left, x.right, order[t]);
            if order[t].is_left {
                end <= marks.right_mark
            } else {
                end <= marks.left_mark
            }
        }),
    decreases n,
{
    let order = turns_of(x.left, x.right);
    assert(order.take(n).drop_last() =~= order.take(n - 1));
    assert(order.take(n).last() == order[n - 1]);
    if t < n - 1 {
        lemma_marks_are_past(x, slice, seq, weights, n - 1, t);
        if order[t].is_left == order[n - 1].is_left {
            lemma_reach_grows(x.left, x.right, t, n - 1);
        }
    }
}

/// The packet of the turn overlaps none of the other port.
pub open spec fn meets_none(left: Seq<WavePacket>, right: Seq<WavePacket>, turn: Turn) -> bool {
    forall|k: int|
        0 <= k < turn_others(left, right, turn).len() ==> !turn_packet(left, right, turn).meets(
            #[trigger] turn_others(left, right, turn)[k],
        )
}

/// The modes of the packets of a turn, and of those of the other port.
pub open spec fn turn_modes(x: Scene, turn: Turn) -> (Seq<Modes>, Seq<Modes>) {
    if turn.is_left {
        (x.modes_left, x.modes_right)
    } else {
        (x.modes_right, x.modes_left)
    }
}

/// The operator that a turn makes for a packet alone.
pub open spec fn alone_in(x: Scene, turn: Turn, seq: OpStoreHandle) -> Operator {
    lone_operator(
        seq,
        turn_packet(x.left, x.right, turn),
        if turn.is_left {
            0
        } else {
            1
        },
        turn_modes(x, turn).0[turn.index as int],
    )
}

/// The operator that a turn makes for its packet and the one at place `k` of the other port.
pub open spec fn together_in(
    x: Scene,
    turn: Turn,
    k: int,
    seq: OpStoreHandle,
    weight: u64,
) -> Operator {
    meeting_operator(
        seq,
        turn_packet(x.left, x.right, turn),
        turn_modes(x, turn).0[turn.index as int],
        turn_modes(x, turn).1[k],
        weight,
    )
}

/// A packet that meets none is marked by no turn.
proof fn lemma_unmarked(
    x: Scene,
    slice: SliceView,
    seq: OpStoreHandle,
    weights: Seq<u64>,
    t: int,
)
    requires
        x.left.len() <= usize::MAX,
        x.right.len() <= usize::MAX,
        0 <= t < turns_of(x.left, x.right).len(),
        meets_none(x.left, x.right, turns_of(x.left, x.right)[t]),
    ensures
        ({
            let order = turns_of(x.left, x.right);
            let marks = operate_pass(x, slice, order.take(t), seq, weights);
            &&& turn_run(x.left, x.right, order[t]) == 0
            &&& (if order[t].is_left {
                marks.left_mark
            } else {
                marks.right_mark
            }) <= order[t].index
        }),
{
    let order = turns_of(x.left, x.right);
    let turn = order[t];
    let marks = operate_pass(x, slice, order.take(t), seq, weights);
    lemma_turns(x.left, x.right);
    every_packet_has_its_turn(x.left, x.right, 0, 0);
    assert(order == turns_from(x.left, x.right, 0, 0));
    lemma_run(
        turn_packet(x.left, x.right, turn),
        turn_others(x.left, x.right, turn),
        turn.other as int,
    );
    if turn_run(x.left, x.right, turn) > 0 {
        assert(turn_packet(x.left, x.right, turn).meets(
            turn_others(x.left, x.right, turn)[turn.other as int],
        ));
    }
    lemma_marks(x, slice, order, seq, weights, t);
    let is_other = !turn.is_left;
    let mark = if turn.is_left {
        marks.left_mark
    } else {
        marks.right_mark
    };
    if mark > turn.index {
        let u = choose|u: int| 0 <= u < t && #[trigger] reaches(x, order[u], is_other, mark);
        let other = order[u];
        assert(other.is_left != turn.is_left);
        assert(other.other <= turn.index);
        lemma_run(
            turn_packet(x.left, x.right, other),
            turn_others(x.left, x.right, other),
            other.other as int,
        );
        assert(turn_packet(x.left, x.right, other).meets(
            turn_others(x.left, x.right, other)[turn.index as int],
        ));
        assert(turn_others(x.left, x.right, turn)[other.index as int] == turn_packet(
            x.left,
            x.right,
            other,
        ));
        assert(false);
    }
}

/// A packet that meets some is met in its turn or was met before.
proof fn lemma_marked(
    x: Scene,
    slice: SliceView,
    seq: OpStoreHandle,
    weights: Seq<u64>,
    t: int,
    k: int,
)
    requires
        x.left.len() <= usize::MAX,
        x.right.len() <= usize::MAX,
        in_step(x.left),
        in_step(x.right),
        in_order(x.left),
        in_order(x.right),
        alike(x.left, x.right),
        0 <= t < turns_of(x.left, x.right).len(),
        0 <= k < turn_others(x.left, x.right, turns_of(x.left, x.right)[t]).len(),
        turn_packet(x.left, x.right, turns_of(x.left, x.right)[t]).meets(
            turn_others(x.left, x.right, turns_of(x.left, x.right)[t])[k],
        ),
    ensures
        ({
            let order = turns_of(x.left, x.right);
            let marks = operate_pass(x, slice, order.take(t), seq, weights);
            turn_run(x.left, x.right, order[t]) > 0 || order[t].index < (if order[t].is_left {
                marks.left_mark
            } else {
                marks.right_mark
            })
        }),
{
    let order = turns_of(x.left, x.right);
    let turn = order[t];
    lemma_turns(x.left, x.right);
    every_packet_has_its_turn(x.left, x.right, 0, 0);
    assert(order == turns_from(x.left, x.right, 0, 0));
    let (l, r) = if turn.is_left {
        (turn.index as int, k)
    } else {
        (k, turn.index as int)
    };
    every_meeting_has_its_operator(x.left, x.right, l, r);
    let u = choose|u: int|
        0 <= u < order.len() && takes(x.left, x.right, #[trigger] order[u], l, r);
    if order[u].is_left != turn.is_left {
        assert(u < t);
        lemma_marks_are_past(x, slice, seq, weights, t, u);
    } else {
        assert(u == t);
    }
}

/// A turn adds one operator for its packet alone exactly when the packet overlaps none of
/// the other port. Otherwise it adds one for each packet of the other port that it acts
/// together with, weighed as that pair is.
pub proof fn operators_follow_the_meetings(
    x: Scene,
    slice: SliceView,
    seq: OpStoreHandle,
    weights: Seq<u64>,
    t: int,
)
    requires
        x.left.len() <= usize::MAX,
        x.right.len() <= usize::MAX,
        in_step(x.left),
        in_step(x.right),
        in_order(x.left),
        in_order(x.right),
        alike(x.left, x.right),
        0 <= t < turns_of(x.left, x.right).len(),
    ensures
        ({
            let order = turns_of(x.left, x.right);
            let turn = order[t];
            let added = added_at(x, slice, order, seq, weights, t);
            let used = meetings_of(x.left, x.right, order.take(t)).len();
            if meets_none(x.left, x.right, turn) {
                added == seq![alone_in(x, turn, seq)]
            } else {
                &&& added.len() == turn_run(x.left, x.right, turn)
                &&& forall|j: int|
                    0 <= j < added.len() ==> #[trigger] added[j] == together_in(
                        x,
                        turn,
                        turn.other + j,
                        seq,
                        weights[used + j],
                    )
            }
        }),
{
    let order = turns_of(x.left, x.right);
    let turn = order[t];
    lemma_used(x, slice, order, seq, weights, t);
    if meets_none(x.left, x.right, turn) {
        lemma_unmarked(x, slice, seq, weights, t);
    } else {
        let k = choose|k: int|
            0 <= k < turn_others(x.left, x.right, turn).len() && turn_packet(
                x.left,
                x.right,
                turn,
            ).meets(#[trigger] turn_others(x.left, x.right, turn)[k]);
        lemma_marked(x, slice, seq, weights, t, k);
    }
}

/// As many weights are used as pairs have met.
pub proof fn lemma_used(
    x: Scene,
    slice: SliceView,
    order: Seq<Turn>,
    seq: OpStoreHandle,
    weights: Seq<u64>,
    n: int,
)
    requires
        0 <= n <= order.len(),
    ensures
        operate_pass(x, slice, order.take(n), seq, weights).used == meetings_of(
            x.left,
            x.right,
            order.take(n),
        ).len(),
    decreases n,
{
    if n > 0 {
        assert(order.take(n).drop_last() =~= order.take(n - 1));
        lemma_used(x, slice, order, seq, weights, n - 1);
    }
}

/// The weights of a turn are those of the pairs that it makes.
pub proof fn lemma_turn_meetings(
    left: Seq<WavePacket>,
    right: Seq<WavePacket>,
    order: Seq<Turn>,
    t: int,
    j: int,
)
    requires
        0 <= t < order.len(),
        0 <= j < turn_run(left, right, order[t]),
    ensures
        ({
            let at = meetings_of(left, right, order.take(t)).len() + j;
            &&& at < meetings_of(left, right, order).len()
            &&& meetings_of(left, right, order)[at] == (
                turn_packet(left, right, order[t]),
                turn_others(left, right, order[t])[order[t].other + j],
            )
        }),
    decreases order.len(),
{
    if t < order.len() - 1 {
        assert(order.drop_last().take(t) =~= order.take(t));
        lemma_turn_meetings(left, right, order.drop_last(), t, j);
    } else {
        assert(order.drop_last() =~= order.take(t));
    }
}

} // verus!
