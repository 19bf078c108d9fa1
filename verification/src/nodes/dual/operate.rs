//! The third pass over two batches: operators are recorded, turn by turn.

use vstd::prelude::*;

use crate::concurrency::cell::{CellView, InteractionCell};
use crate::concurrency::operator::{IslandView, Operator};
use crate::concurrency::slice::{InteractionStoreSlice, SliceView};
use crate::nodes::dual::sink::Modes;
use crate::nodes::packet::{all_fit, WavePacket};
use crate::nodes::turns::{is_turn, Turn};
use crate::types::{OpStoreHandle, PortId};

verus! {

/// How many packets in a row, from place `i` on, overlap the early one.
pub open spec fn run_of(early: WavePacket, late: Seq<WavePacket>, i: int) -> nat
    decreases late.len() - i,
{
    if 0 <= i < late.len() && early.meets(late[i]) {
        1 + run_of(early, late, i + 1)
    } else {
        0
    }
}

pub proof fn lemma_run(early: WavePacket, late: Seq<WavePacket>, i: int)
    requires
        0 <= i <= late.len(),
    ensures
        i + run_of(early, late, i) <= late.len(),
        forall|k: int|
            i <= k < i + run_of(early, late, i) ==> early.meets(#[trigger] late[k]),
    decreases late.len() - i,
{
    if i < late.len() && early.meets(late[i]) {
        lemma_run(early, late, i + 1);
    }
}

fn count_run(early: &WavePacket, late: &Vec<WavePacket>, from: usize) -> (n: usize)
    requires
        early.fits(),
        all_fit(late@),
        from <= late@.len(),
    ensures
        n == run_of(*early, late@, from as int),
        from + n <= late@.len(),
{
    let len: usize = late.len();
    let mut i: usize = from;
    while i < len
        invariant
            early.fits(),
            all_fit(late@),
            len == late@.len(),
            from <= i <= len,
            run_of(*early, late@, from as int) == i - from + run_of(*early, late@, i as int),
        decreases len - i,
    {
        let wp = late[i];
        assert(wp == late@[i as int] && wp.fits());
        if !early.overlaps(&wp) {
            return i - from;
        }
        i += 1;
    }
    i - from
}

/// The packet of a turn, and the packets of the other port.
pub open spec fn turn_packet(left: Seq<WavePacket>, right: Seq<WavePacket>, turn: Turn) -> WavePacket {
    if turn.is_left {
        left[turn.index as int]
    } else {
        right[turn.index as int]
    }
}

pub open spec fn turn_others(left: Seq<WavePacket>, right: Seq<WavePacket>, turn: Turn) -> Seq<
    WavePacket,
> {
    if turn.is_left {
        right
    } else {
        left
    }
}

/// How many packets in a row, from where the other port stands, overlap that of the turn.
pub open spec fn turn_run(left: Seq<WavePacket>, right: Seq<WavePacket>, turn: Turn) -> nat {
    run_of(
        turn_packet(left, right, turn),
        turn_others(left, right, turn),
        turn.other as int,
    )
}

/// The packets that act together in some turn, pair by pair; the one whose turn it is first.
pub open spec fn meetings_of(
    left: Seq<WavePacket>,
    right: Seq<WavePacket>,
    order: Seq<Turn>,
) -> Seq<(WavePacket, WavePacket)>
    decreases order.len(),
{
    if order.len() == 0 {
        seq![]
    } else {
        let turn = order.last();
        meetings_of(left, right, order.drop_last()) + Seq::new(
            turn_run(left, right, turn),
            |k: int|
                (
                    turn_packet(left, right, turn),
                    turn_others(left, right, turn)[turn.other + k],
                ),
        )
    }
}

proof fn lemma_meetings_grow(
    left: Seq<WavePacket>,
    right: Seq<WavePacket>,
    order: Seq<Turn>,
    n: int,
)
    requires
        0 <= n <= order.len(),
    ensures
        meetings_of(left, right, order.take(n)).len() <= meetings_of(left, right, order).len(),
    decreases order.len(),
{
    if n < order.len() {
        assert(order.drop_last().take(n) =~= order.take(n));
        lemma_meetings_grow(left, right, order.drop_last(), n);
    } else {
        assert(order.take(n) =~= order);
    }
}

/// The packets that act together, pair by pair.
pub fn meetings(left: &Vec<WavePacket>, right: &Vec<WavePacket>, order: &Vec<Turn>) -> (pairs: Vec<
    (WavePacket, WavePacket),
>)
    requires
        all_fit(left@),
        all_fit(right@),
        forall|i: int|
            0 <= i < order@.len() ==> is_turn(#[trigger] order@[i], left@.len(), right@.len()),
    ensures
        pairs@ == meetings_of(left@, right@, order@),
{
    let mut pairs: Vec<(WavePacket, WavePacket)> = Vec::new();
    let n: usize = order.len();
    let mut k: usize = 0;
    assert(order@.take(0) =~= seq![]);
    while k < n
        invariant
            all_fit(left@),
            all_fit(right@),
            n == order@.len(),
            k <= n,
            forall|i: int|
                0 <= i < order@.len() ==> is_turn(#[trigger] order@[i], left@.len(), right@.len()),
            pairs@ == meetings_of(left@, right@, order@.take(k as int)),
        decreases n - k,
    {
        let turn = order[k];
        assert(is_turn(order@[k as int], left@.len(), right@.len()));
        assert(order@.take(k + 1).drop_last() =~= order@.take(k as int));
        assert(order@.take(k + 1).last() == turn);
        let (early, late) = if turn.is_left {
            (left[turn.index], right)
        } else {
            (right[turn.index], left)
        };
        assert(early.fits()) by {
            if turn.is_left {
                assert(left@[turn.index as int].fits());
            } else {
                assert(right@[turn.index as int].fits());
            }
        }
        let run: usize = count_run(&early, late, turn.other);
        let ghost before = pairs@;
        let ghost new = Seq::new(
            run as nat,
            |k: int|
                (
                    turn_packet(left@, right@, turn),
                    turn_others(left@, right@, turn)[turn.other + k],
                ),
        );
        let mut i: usize = 0;
        assert(before + new.take(0) =~= before);
        let len: usize = late.len();
        while i < run
            invariant
                i <= run,
                len == late@.len(),
                turn.other + run <= len,
                early == turn_packet(left@, right@, turn),
                late@ == turn_others(left@, right@, turn),
                new == Seq::new(
                    run as nat,
                    |k: int|
                        (
                            turn_packet(left@, right@, turn),
                            turn_others(left@, right@, turn)[turn.other + k],
                        ),
                ),
                pairs@ == before + new.take(i as int),
            decreases run - i,
        {
            pairs.push((early, late[turn.other + i]));
            assert(before + new.take(i + 1) =~= (before + new.take(i as int)).push(new[i as int]));
            i += 1;
        }
        assert(new.take(run as int) =~= new);
        k += 1;
    }
    assert(order@.take(n as int) =~= order@);
    pairs
}

/// The packets of both ports, and their modes.
#[verifier::ext_equal]
pub struct Scene {
    pub left: Seq<WavePacket>,
    pub right: Seq<WavePacket>,
    pub modes_left: Seq<Modes>,
    pub modes_right: Seq<Modes>,
}

impl Scene {
    /// Every packet has its modes.
    pub open spec fn wf(self) -> bool {
        self.modes_left.len() == self.left.len() && self.modes_right.len() == self.right.len()
    }
}

/// How far the third pass has come. The marks say up to where packets of a port have acted
/// together with one of the other, when that had its turn last.
#[verifier::ext_equal]
pub struct Operating {
    pub slice: SliceView,
    pub left_mark: int,
    pub right_mark: int,
    pub used: int,
}

/// The operator of two packets that meet.
pub open spec fn meeting_operator(
    seq: OpStoreHandle,
    early: WavePacket,
    early_modes: Modes,
    late_modes: Modes,
    weight: u64,
) -> Operator {
    Operator::DualBivariate {
        store_handle: seq,
        time: early.time,
        packet_indistinguishability_bits: weight,
        source_modes: [early_modes.0, late_modes.0],
        sink_modes: [early_modes.1, early_modes.2, late_modes.1, late_modes.2],
    }
}

/// The operator of a packet that meets none.
pub open spec fn lone_operator(
    seq: OpStoreHandle,
    wp: WavePacket,
    port: PortId,
    modes: Modes,
) -> Operator {
    Operator::DualUnivariate {
        store_handle: seq,
        time: wp.time,
        incidence_port_id: port,
        source_modes: [modes.0],
        sink_modes: [modes.1, modes.2],
    }
}

/// The operators that a turn adds: one for each packet in its row, or one for its packet
/// alone if the row is empty and the mark is not past it.
pub open spec fn turn_operators(
    x: Scene,
    marks: Operating,
    turn: Turn,
    seq: OpStoreHandle,
    weights: Seq<u64>,
) -> Seq<Operator> {
    let early = turn_packet(x.left, x.right, turn);
    let run = turn_run(x.left, x.right, turn);
    let (early_modes, late_modes, mark) = if turn.is_left {
        (x.modes_left, x.modes_right, marks.left_mark)
    } else {
        (x.modes_right, x.modes_left, marks.right_mark)
    };
    let met = Seq::new(
        run,
        |k: int|
            meeting_operator(
                seq,
                early,
                early_modes[turn.index as int],
                late_modes[turn.other + k],
                weights[marks.used + k],
            ),
    );
    if run == 0 && mark <= turn.index {
        seq![
            lone_operator(
                seq,
                early,
                if turn.is_left {
                    0
                } else {
                    1
                },
                early_modes[turn.index as int],
            ),
        ]
    } else {
        met
    }
}

/// One turn of the third pass.
pub open spec fn operate_turn(
    x: Scene,
    marks: Operating,
    turn: Turn,
    seq: OpStoreHandle,
    weights: Seq<u64>,
) -> Operating {
    let early = turn_packet(x.left, x.right, turn);
    let run = turn_run(x.left, x.right, turn);
    let island = marks.slice.cell(early.state_handle)->Island_0;
    let mark = turn.other + run;
    Operating {
        slice: marks.slice.with_cell(
            early.state_handle,
            CellView::Island(
                island.with_operators(turn_operators(x, marks, turn, seq, weights)),
            ),
        ),
        left_mark: if run > 0 && !turn.is_left {
            mark
        } else {
            marks.left_mark
        },
        right_mark: if run > 0 && turn.is_left {
            mark
        } else {
            marks.right_mark
        },
        used: marks.used + run,
    }
}

/// The third pass: the operators of every turn, one after the other.
pub open spec fn operate_pass(
    x: Scene,
    slice: SliceView,
    order: Seq<Turn>,
    seq: OpStoreHandle,
    weights: Seq<u64>,
) -> Operating
    decreases order.len(),
{
    if order.len() == 0 {
        Operating { slice, left_mark: 0, right_mark: 0, used: 0 }
    } else {
        operate_turn(
            x,
            operate_pass(x, slice, order.drop_last(), seq, weights),
            order.last(),
            seq,
            weights,
        )
    }
}

/// The state of every packet is an island that is held.
pub open spec fn in_islands(slice: SliceView, packets: Seq<WavePacket>) -> bool {
    forall|i: int|
        0 <= i < packets.len() ==> slice.holds((#[trigger] packets[i]).state_handle) && slice.cell(
            packets[i].state_handle,
        ) is Island
}

proof fn lemma_with_island(
    slice: SliceView,
    handle: u32,
    island: IslandView,
    packets: Seq<WavePacket>,
)
    requires
        slice.wf(),
        slice.holds(handle),
        in_islands(slice, packets),
    ensures
        in_islands(slice.with_cell(handle, CellView::Island(island)), packets),
        slice.with_cell(handle, CellView::Island(island)).wf(),
{
    let after = slice.with_cell(handle, CellView::Island(island));
    assert forall|i: int| 0 <= i < packets.len() implies after.holds(
        (#[trigger] packets[i]).state_handle,
    ) && after.cell(packets[i].state_handle) is Island by {
        let p = slice.place(packets[i].state_handle);
        assert(slice.indices[p] == packets[i].state_handle);
    }
}

/// The operators of one turn, made.
fn operators_of_turn(
    early: &WavePacket,
    turn: Turn,
    run: usize,
    is_marked: bool,
    early_modes: &Vec<Modes>,
    late_modes: &Vec<Modes>,
    seq: OpStoreHandle,
    weights: &Vec<u64>,
    used: usize,
    Ghost(x): Ghost<Scene>,
    Ghost(marks): Ghost<Operating>,
) -> (operators: Vec<Operator>)
    requires
        x.wf(),
        is_turn(turn, x.left.len(), x.right.len()),
        *early == turn_packet(x.left, x.right, turn),
        run == turn_run(x.left, x.right, turn),
        turn.other + run <= turn_others(x.left, x.right, turn).len(),
        marks.used == used,
        used + run <= weights@.len(),
        turn.is_left ==> early_modes@ == x.modes_left && late_modes@ == x.modes_right && is_marked
            == (marks.left_mark > turn.index),
        !turn.is_left ==> early_modes@ == x.modes_right && late_modes@ == x.modes_left && is_marked
            == (marks.right_mark > turn.index),
    ensures
        operators@ == turn_operators(x, marks, turn, seq, weights@),
{
    let mut operators: Vec<Operator> = Vec::new();
    let modes = early_modes[turn.index];
    if run == 0 && !is_marked {
        operators.push(
            Operator::DualUnivariate {
                store_handle: seq,
                time: early.time,
                incidence_port_id: if turn.is_left {
                    0
                } else {
                    1
                },
                source_modes: [modes.0],
                sink_modes: [modes.1, modes.2],
            },
        );
        proof {
            let lone = lone_operator(
                seq,
                *early,
                if turn.is_left {
                    0
                } else {
                    1
                },
                modes,
            );
            assert(operators@[0].sources() =~= lone.sources());
            assert(operators@[0].sinks() =~= lone.sinks());
            assert(operators@ =~= seq![lone]);
        }
        return operators;
    }
    let ghost met = Seq::new(
        run as nat,
        |k: int|
            meeting_operator(
                seq,
                *early,
                modes,
                late_modes@[turn.other + k],
                weights@[marks.used + k],
            ),
    );
    let len: usize = late_modes.len();
    let total: usize = weights.len();
    let mut k: usize = 0;
    while k < run
        invariant
            k <= run,
            len == late_modes@.len(),
            turn.other + run <= len,
            total == weights@.len(),
            used + run <= total,
            marks.used == used,
            met == Seq::new(
                run as nat,
                |k: int|
                    meeting_operator(
                        seq,
                        *early,
                        modes,
                        late_modes@[turn.other + k],
                        weights@[marks.used + k],
                    ),
            ),
            operators@ == met.take(k as int),
        decreases run - k,
    {
        let late = late_modes[turn.other + k];
        operators.push(
            Operator::DualBivariate {
                store_handle: seq,
                time: early.time,
                packet_indistinguishability_bits: weights[used + k],
                source_modes: [modes.0, late.0],
                sink_modes: [modes.1, modes.2, late.1, late.2],
            },
        );
        proof {
            let made = operators@.last();
            assert(made.sources() =~= met[k as int].sources());
            assert(made.sinks() =~= met[k as int].sinks());
            assert(met.take(k + 1) =~= met.take(k as int).push(made));
        }
        k += 1;
    }
    assert(met.take(run as int) =~= met);
    operators
}

fn push_all(cell: &mut InteractionCell, operators: &Vec<Operator>)
    requires
        old(cell)@ is Island,
    ensures
        final(cell)@ == CellView::Island(old(cell)@->Island_0.with_operators(operators@)),
{
    match cell {
        InteractionCell::IslandOfInteraction(island) => {
            let ghost before = island@;
            let mut i: usize = 0;
            assert(before.operators + operators@.take(0) =~= before.operators);
            while i < operators.len()
                invariant
                    i <= operators@.len(),
                    island@ == before.with_operators(operators@.take(i as int)),
                decreases operators@.len() - i,
            {
                island.add_operator(operators[i]);
                assert(before.operators + operators@.take(i + 1) =~= (before.operators
                    + operators@.take(i as int)).push(operators@[i as int]));
                i += 1;
            }
            assert(operators@.take(i as int) =~= operators@);
        },
        _ => {
            assert(false);
        },
    }
}

/// Records the operators of every turn.
pub fn register_operators(
    left: &Vec<WavePacket>,
    right: &Vec<WavePacket>,
    modes_left: &Vec<Modes>,
    modes_right: &Vec<Modes>,
    order: &Vec<Turn>,
    slice: &mut InteractionStoreSlice,
    seq: OpStoreHandle,
    weights: &Vec<u64>,
)
    requires
        all_fit(left@),
        all_fit(right@),
        modes_left@.len() == left@.len(),
        modes_right@.len() == right@.len(),
        old(slice).wf(),
        in_islands(old(slice)@, left@),
        in_islands(old(slice)@, right@),
        forall|i: int|
            0 <= i < order@.len() ==> is_turn(#[trigger] order@[i], left@.len(), right@.len()),
        weights@.len() == meetings_of(left@, right@, order@).len(),
    ensures
        final(slice).wf(),
        final(slice)@ == operate_pass(
            Scene {
                left: left@,
                right: right@,
                modes_left: modes_left@,
                modes_right: modes_right@,
            },
            old(slice)@,
            order@,
            seq,
            weights@,
        ).slice,
{
    let ghost x = Scene {
        left: left@,
        right: right@,
        modes_left: modes_left@,
        modes_right: modes_right@,
    };
    let ghost start = slice@;
    let n: usize = order.len();
    let mut left_mark: usize = 0;
    let mut right_mark: usize = 0;
    let mut used: usize = 0;
    let mut k: usize = 0;
    assert(order@.take(0) =~= seq![]);
    while k < n
        invariant
            all_fit(left@),
            all_fit(right@),
            x == (Scene {
                left: left@,
                right: right@,
                modes_left: modes_left@,
                modes_right: modes_right@,
            }),
            x.wf(),
            slice.wf(),
            in_islands(slice@, left@),
            in_islands(slice@, right@),
            n == order@.len(),
            k <= n,
            forall|i: int|
                0 <= i < order@.len() ==> is_turn(#[trigger] order@[i], left@.len(), right@.len()),
            weights@.len() == meetings_of(left@, right@, order@).len(),
            used == meetings_of(left@, right@, order@.take(k as int)).len(),
            operate_pass(x, start, order@.take(k as int), seq, weights@) == (Operating {
                slice: slice@,
                left_mark: left_mark as int,
                right_mark: right_mark as int,
                used: used as int,
            }),
        decreases n - k,
    {
        let turn = order[k];
        let ghost marks = Operating {
            slice: slice@,
            left_mark: left_mark as int,
            right_mark: right_mark as int,
            used: used as int,
        };
        proof {
            assert(is_turn(order@[k as int], left@.len(), right@.len()));
            assert(order@.take(k + 1).drop_last() =~= order@.take(k as int));
            assert(order@.take(k + 1).last() == turn);
            lemma_meetings_grow(left@, right@, order@, k + 1);
            slice.handles_are_held_once();
        }
        let total: usize = weights.len();
        let (early, late) = if turn.is_left {
            (left[turn.index], right)
        } else {
            (right[turn.index], left)
        };
        assert(early.fits() && slice@.holds(early.state_handle) && slice@.cell(
            early.state_handle,
        ) is Island) by {
            if turn.is_left {
                assert(left@[turn.index as int].fits());
            } else {
                assert(right@[turn.index as int].fits());
            }
        }
        let run: usize = count_run(&early, late, turn.other);
        let others: usize = late.len();
        let operators = if turn.is_left {
            operators_of_turn(
                &early,
                turn,
                run,
                left_mark > turn.index,
                modes_left,
                modes_right,
                seq,
                weights,
                used,
                Ghost(x),
                Ghost(marks),
            )
        } else {
            operators_of_turn(
                &early,
                turn,
                run,
                right_mark > turn.index,
                modes_right,
                modes_left,
                seq,
                weights,
                used,
                Ghost(x),
                Ghost(marks),
            )
        };
        proof {
            let island = slice@.cell(early.state_handle)->Island_0;
            let after = island.with_operators(operators@);
            lemma_with_island(slice@, early.state_handle, after, left@);
            lemma_with_island(slice@, early.state_handle, after, right@);
        }
        push_all(slice.get_mut(early.state_handle), &operators);
        if run > 0 {
            if turn.is_left {
                right_mark = turn.other + run;
            } else {
                left_mark = turn.other + run;
            }
        }
        used = used + run;
        k += 1;
    }
    assert(order@.take(n as int) =~= order@);
}

} // verus!
