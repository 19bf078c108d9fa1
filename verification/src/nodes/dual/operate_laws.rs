//! What the third pass does for each packet.

use vstd::prelude::*;

use crate::concurrency::operator::Operator;
use crate::concurrency::slice::SliceView;
use crate::nodes::dual::operate::{
    operate_pass, turn_operators, turn_run, Scene,
};
use crate::nodes::packet::WavePacket;
use crate::nodes::turns::{
    every_packet_has_its_turn, has_turn, is_turn_of, turns_from, turns_of, Turn,
};
use crate::types::{ModeIndex, OpStoreHandle};

verus! {

/// The operators that one turn of the third pass adds, to the island of its packet.
pub open spec fn added_at(
    x: Scene,
    slice: SliceView,
    order: Seq<Turn>,
    seq: OpStoreHandle,
    weights: Seq<u64>,
    t: int,
) -> Seq<Operator> {
    turn_operators(x, operate_pass(x, slice, order.take(t), seq, weights), order[t], seq, weights)
}

/// One of the operators consumes the mode.
pub open spec fn consumes(operators: Seq<Operator>, mode: ModeIndex) -> bool {
    exists|j: int| 0 <= j < operators.len() && has_source(#[trigger] operators[j], mode)
}

pub open spec fn has_source(operator: Operator, mode: ModeIndex) -> bool {
    exists|s: int| 0 <= s < operator.sources().len() && #[trigger] operator.sources()[s] == mode
}

/// A turn of that port meets packets up to, not including, the place.
pub open spec fn reaches(x: Scene, turn: Turn, is_left: bool, place: int) -> bool {
    &&& turn.is_left == is_left
    &&& turn_run(x.left, x.right, turn) > 0
    &&& turn.other + turn_run(x.left, x.right, turn) == place
}

pub proof fn lemma_marks(
    x: Scene,
    slice: SliceView,
    order: Seq<Turn>,
    seq: OpStoreHandle,
    weights: Seq<u64>,
    n: int,
)
    requires
        0 <= n <= order.len(),
    ensures
        ({
            let marks = operate_pass(x, slice, order.take(n), seq, weights);
            &&& marks.right_mark > 0 ==> exists|t: int|
                0 <= t < n && #[trigger] reaches(x, order[t], true, marks.right_mark)
            &&& marks.left_mark > 0 ==> exists|t: int|
                0 <= t < n && #[trigger] reaches(x, order[t], false, marks.left_mark)
        }),
    decreases n,
{
    if n > 0 {
        lemma_marks(x, slice, order, seq, weights, n - 1);
        assert(order.take(n).drop_last() =~= order.take(n - 1));
        let before = operate_pass(x, slice, order.take(n - 1), seq, weights);
        let marks = operate_pass(x, slice, order.take(n), seq, weights);
        let turn = order[n - 1];
        assert(order.take(n).last() == turn);
        if turn_run(x.left, x.right, turn) > 0 && turn.is_left {
            assert(reaches(x, order[n - 1], true, marks.right_mark));
        } else if marks.right_mark > 0 {
            let t = choose|t: int|
                0 <= t < n - 1 && #[trigger] reaches(x, order[t], true, before.right_mark);
            assert(reaches(x, order[t], true, marks.right_mark));
        }
        if turn_run(x.left, x.right, turn) > 0 && !turn.is_left {
            assert(reaches(x, order[n - 1], false, marks.left_mark));
        } else if marks.left_mark > 0 {
            let t = choose|t: int|
                0 <= t < n - 1 && #[trigger] reaches(x, order[t], false, before.left_mark);
            assert(reaches(x, order[t], false, marks.left_mark));
        }
    }
}

/// Every packet of the two batches is acted on: some turn adds an operator that consumes
/// its mode, whether it meets others or none.
pub proof fn every_packet_is_acted_on(
    left: Seq<WavePacket>,
    right: Seq<WavePacket>,
    x: Scene,
    slice: SliceView,
    seq: OpStoreHandle,
    weights: Seq<u64>,
    is_left: bool,
    k: int,
)
    requires
        left.len() == x.left.len() <= usize::MAX,
        right.len() == x.right.len() <= usize::MAX,
        x.wf(),
        is_left ==> 0 <= k < x.left.len(),
        !is_left ==> 0 <= k < x.right.len(),
    ensures
        ({
            let order = turns_of(left, right);
            let mode = if is_left {
                x.modes_left[k].0
            } else {
                x.modes_right[k].0
            };
            exists|t: int|
                0 <= t < order.len() && consumes(
                    #[trigger] added_at(x, slice, order, seq, weights, t),
                    mode,
                )
        }),
{
    let order = turns_of(left, right);
    every_packet_has_its_turn(left, right, 0, 0);
    assert(has_turn(order, is_left, k));
    let t = choose|t: int| 0 <= t < order.len() && #[trigger] is_turn_of(order[t], is_left, k);
    let marks = operate_pass(x, slice, order.take(t), seq, weights);
    let mark = if is_left {
        marks.left_mark
    } else {
        marks.right_mark
    };
    if turn_run(x.left, x.right, order[t]) > 0 || mark <= k {
        lemma_acts_itself(x, slice, order, seq, weights, t);
    } else {
        lemma_marks(x, slice, order, seq, weights, t);
        let is_right = !is_left;
        let u = choose|u: int| 0 <= u < t && #[trigger] reaches(x, order[u], is_right, mark);
        assert(order[u].other <= k) by {
            let a = turns_from(left, right, 0, 0)[u];
            let b = turns_from(left, right, 0, 0)[t];
            assert(a.is_left != b.is_left);
        }
        lemma_is_acted_on(x, slice, order, seq, weights, u, k);
    }
}

/// A turn that adds anything consumes the mode of its packet.
proof fn lemma_acts_itself(
    x: Scene,
    slice: SliceView,
    order: Seq<Turn>,
    seq: OpStoreHandle,
    weights: Seq<u64>,
    t: int,
)
    requires
        0 <= t < order.len(),
        ({
            let marks = operate_pass(x, slice, order.take(t), seq, weights);
            turn_run(x.left, x.right, order[t]) > 0 || (if order[t].is_left {
                marks.left_mark
            } else {
                marks.right_mark
            }) <= order[t].index
        }),
    ensures
        consumes(
            added_at(x, slice, order, seq, weights, t),
            if order[t].is_left {
                x.modes_left[order[t].index as int].0
            } else {
                x.modes_right[order[t].index as int].0
            },
        ),
{
    let mode = if order[t].is_left {
        x.modes_left[order[t].index as int].0
    } else {
        x.modes_right[order[t].index as int].0
    };
    let added = added_at(x, slice, order, seq, weights, t);
    assert(added[0].sources()[0] == mode);
    assert(has_source(added[0], mode));
}

/// A turn consumes the modes of the packets in its row.
proof fn lemma_is_acted_on(
    x: Scene,
    slice: SliceView,
    order: Seq<Turn>,
    seq: OpStoreHandle,
    weights: Seq<u64>,
    u: int,
    k: int,
)
    requires
        0 <= u < order.len(),
        order[u].other <= k < order[u].other + turn_run(x.left, x.right, order[u]),
    ensures
        consumes(
            added_at(x, slice, order, seq, weights, u),
            if order[u].is_left {
                x.modes_right[k].0
            } else {
                x.modes_left[k].0
            },
        ),
{
    let mode = if order[u].is_left {
        x.modes_right[k].0
    } else {
        x.modes_left[k].0
    };
    let added = added_at(x, slice, order, seq, weights, u);
    let j = k - order[u].other;
    assert(added[j].sources()[1] == mode);
    assert(has_source(added[j], mode));
}

} // verus!
