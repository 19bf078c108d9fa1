//! Packets that meet end up in one state.

use vstd::prelude::*;

use crate::concurrency::cell::{CellView, Tombstone};
use crate::concurrency::interaction_store::view::readdressed;
use crate::concurrency::slice::{
    lemma_led_keeps_islands, lemma_refs_left, refs_left, SliceView,
};
use crate::nodes::dual::meeting_laws::{every_meeting_has_its_operator, takes};
use crate::nodes::dual::merge::{
    late_merged, merge_pass, merge_turn, merging_keeps_the_slice, merging_only_readdresses,
    same_but_handles, Merging,
};
use crate::nodes::dual::operate::{run_of, turn_others, turn_packet, turn_run};
use crate::nodes::dual::sink::{
    can_leave, every_packet_leaves_twice, sink_pass, sink_turn, turn_in_island, Sinking,
};
use crate::nodes::dual::worker::prepared;
use crate::nodes::packet::{alike, in_step, WavePacket};
use crate::nodes::turns::{
    every_packet_has_its_turn, has_turn, is_turn, is_turn_of, turns_from, turns_of, Turn,
};

verus! {

/// Where the cell leads on to, if it is a tombstone.
spec fn way_of(cell: CellView) -> Option<u32> {
    match cell {
        CellView::Tombstone(tombstone) => Some(tombstone.move_destination),
        _ => None,
    }
}

/// `n` tombstones lead from one handle to the other, and there is none there.
spec fn leads_to(s: SliceView, handle: u32, end: u32, n: nat) -> bool
    decreases n,
{
    &&& s.holds(handle)
    &&& if n == 0 {
        handle == end && way_of(s.cell(handle)) is None
    } else {
        way_of(s.cell(handle)) matches Some(next) && leads_to(s, next, end, (n - 1) as nat)
    }
}

spec fn leads(s: SliceView, handle: u32, end: u32) -> bool {
    exists|n: nat| leads_to(s, handle, end, n)
}

/// Both handles lead to one cell.
spec fn share(s: SliceView, a: u32, b: u32) -> bool {
    exists|end: u32| #[trigger] leads(s, a, end) && #[trigger] leads(s, b, end)
}

proof fn lemma_one_end(s: SliceView, handle: u32, end: u32, n: nat, other: u32, m: nat)
    requires
        leads_to(s, handle, end, n),
        leads_to(s, handle, other, m),
    ensures
        end == other,
    decreases n,
{
    if n > 0 {
        let next = way_of(s.cell(handle))->0;
        lemma_one_end(s, next, end, (n - 1) as nat, other, (m - 1) as nat);
    }
}

proof fn lemma_share_chain(s: SliceView, a: u32, b: u32, c: u32)
    requires
        share(s, a, b),
        share(s, b, c),
    ensures
        share(s, a, c),
{
    let first = choose|end: u32| #[trigger] leads(s, a, end) && #[trigger] leads(s, b, end);
    let second = choose|end: u32| #[trigger] leads(s, b, end) && #[trigger] leads(s, c, end);
    let n = choose|n: nat| leads_to(s, b, first, n);
    let m = choose|m: nat| leads_to(s, b, second, m);
    lemma_one_end(s, b, first, n, second, m);
    assert(leads(s, a, first) && leads(s, c, first));
}

proof fn lemma_share_turns(s: SliceView, a: u32, b: u32)
    requires
        share(s, a, b),
    ensures
        share(s, b, a),
{
    let end = choose|end: u32| #[trigger] leads(s, a, end) && #[trigger] leads(s, b, end);
    assert(leads(s, b, end) && leads(s, a, end));
}

/// The same handles are held, and the tombstones lead the same ways.
spec fn same_ways(s: SliceView, t: SliceView) -> bool {
    &&& s.indices == t.indices
    &&& forall|h: u32| #[trigger] s.holds(h) ==> way_of(s.cell(h)) == way_of(t.cell(h))
}

proof fn lemma_same_ways(s: SliceView, t: SliceView, handle: u32, end: u32, n: nat)
    requires
        same_ways(s, t),
        leads_to(s, handle, end, n),
    ensures
        leads_to(t, handle, end, n),
    decreases n,
{
    assert(s.holds(handle) && t.holds(handle));
    if n > 0 {
        lemma_same_ways(s, t, way_of(s.cell(handle))->0, end, (n - 1) as nat);
    }
}

proof fn lemma_same_ways_share(s: SliceView, t: SliceView, a: u32, b: u32)
    requires
        same_ways(s, t),
        share(s, a, b),
    ensures
        share(t, a, b),
{
    let end = choose|end: u32| #[trigger] leads(s, a, end) && #[trigger] leads(s, b, end);
    let n = choose|n: nat| leads_to(s, a, end, n);
    let m = choose|m: nat| leads_to(s, b, end, m);
    lemma_same_ways(s, t, a, end, n);
    lemma_same_ways(s, t, b, end, m);
    assert(leads(t, a, end) && leads(t, b, end));
}

/// A cell that is no tombstone can change without changing the ways.
proof fn lemma_island_keeps_ways(s: SliceView, handle: u32, cell: CellView)
    requires
        s.wf(),
        s.holds(handle),
        way_of(s.cell(handle)) == way_of(cell),
    ensures
        same_ways(s, s.with_cell(handle, cell)),
{
    let t = s.with_cell(handle, cell);
    assert forall|h: u32| #[trigger] s.holds(h) implies way_of(s.cell(h)) == way_of(t.cell(h)) by {
        assert(s.indices[s.place(h)] == h);
        assert(s.indices[s.place(handle)] == handle);
    }
}

/// Being led uses up references, and changes no way.
proof fn lemma_led(s: SliceView, handle: u32)
    requires
        s.wf(),
        s.led_from(handle) is Some,
    ensures
        ({
            let (led, end) = s.led_from(handle)->0;
            &&& same_ways(s, led)
            &&& led.wf()
            &&& led.holds(end)
            &&& way_of(led.cell(end)) is None
            &&& share(led, handle, end)
        }),
    decreases refs_left(s.cells),
{
    lemma_led_keeps_islands(s, handle);
    let (led, end) = s.led_from(handle)->0;
    match s.cell(handle) {
        CellView::Tombstone(tombstone) => {
            let used = CellView::Tombstone(
                Tombstone {
                    ref_cnt: (tombstone.ref_cnt - 1) as u8,
                    move_destination: tombstone.move_destination,
                },
            );
            let p = s.place(handle);
            assert(s.indices[p] == handle);
            lemma_refs_left(s.cells, p, used);
            lemma_island_keeps_ways(s, handle, used);
            let next = s.with_cell(handle, used).noting_move(handle);
            let destination = tombstone.move_destination;
            lemma_led(next, destination);
            assert(same_ways(s, next)) by {
                assert forall|h: u32| #[trigger] s.holds(h) implies way_of(s.cell(h)) == way_of(
                    next.cell(h),
                ) by {
                    assert(s.with_cell(handle, used).cell(h) == next.cell(h));
                }
            }
            assert(same_ways(s, led)) by {
                assert forall|h: u32| #[trigger] s.holds(h) implies way_of(s.cell(h)) == way_of(
                    led.cell(h),
                ) by {
                    assert(next.holds(h));
                }
            }
            let goal = choose|goal: u32| #[trigger]
                leads(led, destination, goal) && #[trigger] leads(led, end, goal);
            let n = choose|n: nat| leads_to(led, destination, goal, n);
            assert(s.holds(handle) && led.holds(handle));
            assert(leads_to(led, handle, goal, n + 1));
            assert(leads(led, handle, goal) && leads(led, end, goal));
        },
        _ => {
            assert(leads_to(led, handle, handle, 0));
            assert(leads(led, handle, handle) && leads(led, end, handle));
        },
    }
}

proof fn lemma_merged_leads(
    s: SliceView,
    donor: u32,
    recipient: u32,
    handle: u32,
    end: u32,
    n: nat,
)
    requires
        s.wf(),
        s.can_merge(donor, recipient),
        leads_to(s, handle, end, n),
    ensures
        leads(
            s.merged(donor, recipient),
            handle,
            if end == donor {
                recipient
            } else {
                end
            },
        ),
    decreases n,
{
    let t = s.merged(donor, recipient);
    let d = s.place(donor);
    let r = s.place(recipient);
    let p = s.place(handle);
    assert(s.indices[d] == donor && s.indices[r] == recipient && s.indices[p] == handle);
    assert(t.indices == s.indices);
    if n == 0 {
        if handle == donor {
            assert(t.cell(recipient) is Island);
            assert(leads_to(t, recipient, recipient, 0));
            assert(way_of(t.cell(donor)) == Some(recipient));
            assert(leads_to(t, donor, recipient, 1));
        } else {
            assert(way_of(t.cell(handle)) is None);
            assert(leads_to(t, handle, handle, 0));
        }
    } else {
        let next = way_of(s.cell(handle))->0;
        lemma_merged_leads(s, donor, recipient, next, end, (n - 1) as nat);
        let goal = if end == donor {
            recipient
        } else {
            end
        };
        let m = choose|m: nat| leads_to(t, next, goal, m);
        assert(handle != donor && handle != recipient);
        assert(way_of(t.cell(handle)) == Some(next));
        assert(leads_to(t, handle, goal, m + 1));
    }
}

/// Merging keeps what leads to one cell together, and brings the two states together.
proof fn lemma_merged_share(s: SliceView, donor: u32, recipient: u32)
    requires
        s.wf(),
        s.can_merge(donor, recipient),
    ensures
        s.merged(donor, recipient).wf(),
        share(s.merged(donor, recipient), recipient, donor),
        way_of(s.merged(donor, recipient).cell(recipient)) is None,
        s.merged(donor, recipient).holds(recipient),
        forall|a: u32, b: u32| #[trigger]
            share(s, a, b) ==> share(s.merged(donor, recipient), a, b),
{
    let t = s.merged(donor, recipient);
    let d = s.place(donor);
    let r = s.place(recipient);
    assert(s.indices[d] == donor && s.indices[r] == recipient);
    assert(t.cell(recipient) is Island);
    assert(leads_to(s, donor, donor, 0));
    assert(leads_to(s, recipient, recipient, 0));
    lemma_merged_leads(s, donor, recipient, donor, donor, 0);
    lemma_merged_leads(s, donor, recipient, recipient, recipient, 0);
    assert(leads(t, donor, recipient) && leads(t, recipient, recipient));
    assert forall|a: u32, b: u32| #[trigger] share(s, a, b) implies share(t, a, b) by {
        let end = choose|end: u32| #[trigger] leads(s, a, end) && #[trigger] leads(s, b, end);
        let n = choose|n: nat| leads_to(s, a, end, n);
        let m = choose|m: nat| leads_to(s, b, end, m);
        lemma_merged_leads(s, donor, recipient, a, end, n);
        lemma_merged_leads(s, donor, recipient, b, end, m);
        let goal = if end == donor {
            recipient
        } else {
            end
        };
        assert(leads(t, a, goal) && leads(t, b, goal));
    }
}

/// What led to one cell still does.
spec fn keeps_together(s: SliceView, t: SliceView) -> bool {
    forall|a: u32, b: u32| #[trigger] share(s, a, b) ==> share(t, a, b)
}

/// Each packet is where it was, or where its old handle leads.
spec fn still_led(t: SliceView, before: Seq<WavePacket>, after: Seq<WavePacket>) -> bool {
    &&& after.len() == before.len()
    &&& forall|k: int|
        0 <= k < before.len() ==> (#[trigger] after[k]).state_handle == before[k].state_handle
            || share(t, before[k].state_handle, after[k].state_handle)
}

proof fn lemma_late_share(early: WavePacket, late: Seq<WavePacket>, i: int, s: SliceView)
    requires
        s.wf(),
        0 <= i <= late.len(),
        s.holds(early.state_handle),
        way_of(s.cell(early.state_handle)) is None,
        late_merged(early, late, i, s) is Some,
    ensures
        ({
            let (after, t) = late_merged(early, late, i, s)->0;
            &&& keeps_together(s, t)
            &&& still_led(t, late, after)
            &&& forall|k: int| 0 <= k < i ==> #[trigger] after[k] == late[k]
            &&& forall|k: int|
                i <= k < i + run_of(early, late, i) ==> share(
                    t,
                    early.state_handle,
                    (#[trigger] after[k]).state_handle,
                )
        }),
    decreases late.len() - i,
{
    let (after, t) = late_merged(early, late, i, s)->0;
    if i < late.len() && early.meets(late[i]) {
        lemma_led(s, late[i].state_handle);
        let (led, handle) = s.led_from(late[i].state_handle)->0;
        let wp = readdressed(late[i], handle);
        let now = late.update(i, wp);
        assert(led.holds(early.state_handle));
        assert(way_of(led.cell(early.state_handle)) is None);
        let merged = if handle == early.state_handle {
            led
        } else {
            led.merged(handle, early.state_handle)
        };
        assert(leads_to(led, handle, handle, 0));
        assert(leads(led, handle, handle));
        assert(share(led, handle, handle));
        if handle != early.state_handle {
            lemma_merged_share(led, handle, early.state_handle);
        }
        assert(share(merged, early.state_handle, handle));
        assert(share(merged, late[i].state_handle, handle));
        lemma_late_share(early, now, i + 1, merged);
        assert(keeps_together(s, merged)) by {
            assert forall|a: u32, b: u32| #[trigger] share(s, a, b) implies share(merged, a, b) by {
                lemma_same_ways_share(s, led, a, b);
            }
        }
        assert(after[i] == now[i]);
        assert(keeps_together(s, t));
        assert(still_led(t, late, after)) by {
            assert forall|k: int| 0 <= k < late.len() implies (#[trigger] after[k]).state_handle
                == late[k].state_handle || share(t, late[k].state_handle, after[k].state_handle) by {
                if k != i {
                    assert(now[k] == late[k]);
                }
            }
        }
        lemma_run_of_rest(early, late, now, i + 1);
    }
}

proof fn lemma_run_of_rest(early: WavePacket, a: Seq<WavePacket>, b: Seq<WavePacket>, i: int)
    requires
        a.len() == b.len(),
        0 <= i,
        forall|k: int| i <= k < a.len() ==> (#[trigger] a[k]).meets(early) == b[k].meets(early),
    ensures
        run_of(early, a, i) == run_of(early, b, i),
    decreases a.len() - i,
{
    if i < a.len() {
        assert(a[i].meets(early) == b[i].meets(early));
        lemma_run_of_rest(early, a, b, i + 1);
    }
}

pub proof fn lemma_same_run(
    left: Seq<WavePacket>,
    right: Seq<WavePacket>,
    left2: Seq<WavePacket>,
    right2: Seq<WavePacket>,
    turn: Turn,
)
    requires
        same_but_handles(left, left2),
        same_but_handles(right, right2),
        is_turn(turn, left.len(), right.len()),
    ensures
        turn_run(left, right, turn) == turn_run(left2, right2, turn),
{
    let early = turn_packet(left, right, turn);
    let early2 = turn_packet(left2, right2, turn);
    let others = turn_others(left, right, turn);
    let others2 = turn_others(left2, right2, turn);
    lemma_run_same_shape(early, early2, others, others2, turn.other as int);
}

proof fn lemma_run_same_shape(
    early: WavePacket,
    early2: WavePacket,
    a: Seq<WavePacket>,
    b: Seq<WavePacket>,
    i: int,
)
    requires
        early2 == readdressed(early, early2.state_handle),
        same_but_handles(a, b),
        0 <= i,
    ensures
        run_of(early, a, i) == run_of(early2, b, i),
    decreases a.len() - i,
{
    if i < a.len() {
        assert(b[i] == readdressed(a[i], b[i].state_handle));
        lemma_run_same_shape(early, early2, a, b, i + 1);
    }
}

/// The packet of the turn and one that it meets lead to one cell.
spec fn meeting_shares(
    s: SliceView,
    left: Seq<WavePacket>,
    right: Seq<WavePacket>,
    turn: Turn,
    k: int,
) -> bool {
    share(
        s,
        turn_packet(left, right, turn).state_handle,
        turn_others(left, right, turn)[turn.other + k].state_handle,
    )
}

/// What shares a cell still does after packets were led on.
proof fn lemma_still_shares(
    s: SliceView,
    t: SliceView,
    left: Seq<WavePacket>,
    right: Seq<WavePacket>,
    left2: Seq<WavePacket>,
    right2: Seq<WavePacket>,
    turn: Turn,
    k: int,
)
    requires
        keeps_together(s, t),
        still_led(t, left, left2),
        still_led(t, right, right2),
        is_turn(turn, left.len(), right.len()),
        0 <= k,
        turn.other + k < turn_others(left, right, turn).len(),
        meeting_shares(s, left, right, turn, k),
    ensures
        meeting_shares(t, left2, right2, turn, k),
{
    let i = turn.index as int;
    let j = turn.other + k;
    let (mine, mine2, others, others2) = if turn.is_left {
        (left, left2, right, right2)
    } else {
        (right, right2, left, left2)
    };
    let (a, b) = (mine[i].state_handle, others[j].state_handle);
    let (a2, b2) = (mine2[i].state_handle, others2[j].state_handle);
    assert(share(t, a, b));
    assert(a2 == a || share(t, a, a2));
    assert(b2 == b || share(t, b, b2));
    if a2 != a {
        lemma_share_turns(t, a, a2);
        lemma_share_chain(t, a2, a, b);
    }
    if b2 != b {
        lemma_share_chain(t, a2, b, b2);
    }
}

/// All packets that the turns so far let meet lead to one cell, pair by pair.
spec fn all_share(
    s: SliceView,
    left: Seq<WavePacket>,
    right: Seq<WavePacket>,
    order: Seq<Turn>,
    n: int,
) -> bool {
    forall|t: int, k: int|
        0 <= t < n && 0 <= k < turn_run(left, right, order[t]) ==> #[trigger] meeting_shares(
            s,
            left,
            right,
            order[t],
            k,
        )
}

proof fn lemma_run_in_bounds(early: WavePacket, late: Seq<WavePacket>, i: int)
    requires
        0 <= i <= late.len(),
    ensures
        i + run_of(early, late, i) <= late.len(),
    decreases late.len() - i,
{
    if i < late.len() && early.meets(late[i]) {
        lemma_run_in_bounds(early, late, i + 1);
    }
}

/// `all_share` survives a step that only leads packets on.
proof fn lemma_all_still_share(
    s: SliceView,
    t: SliceView,
    left: Seq<WavePacket>,
    right: Seq<WavePacket>,
    left2: Seq<WavePacket>,
    right2: Seq<WavePacket>,
    order: Seq<Turn>,
    n: int,
)
    requires
        keeps_together(s, t),
        still_led(t, left, left2),
        still_led(t, right, right2),
        same_but_handles(left, left2),
        same_but_handles(right, right2),
        0 <= n <= order.len(),
        forall|i: int|
            0 <= i < order.len() ==> is_turn(#[trigger] order[i], left.len(), right.len()),
        all_share(s, left, right, order, n),
    ensures
        all_share(t, left2, right2, order, n),
{
    assert forall|u: int, k: int|
        0 <= u < n && 0 <= k < turn_run(left2, right2, order[u]) implies #[trigger] meeting_shares(
        t,
        left2,
        right2,
        order[u],
        k,
    ) by {
        let turn = order[u];
        lemma_same_run(left, right, left2, right2, turn);
        lemma_run_in_bounds(
            turn_packet(left, right, turn),
            turn_others(left, right, turn),
            turn.other as int,
        );
        assert(meeting_shares(s, left, right, order[u], k));
        lemma_still_shares(s, t, left, right, left2, right2, turn, k);
    }
}

proof fn lemma_merge_turn_shares(m: Merging, order: Seq<Turn>, n: int)
    requires
        m.slice.wf(),
        0 <= n < order.len(),
        merge_turn(m, order[n]) is Some,
        forall|i: int|
            0 <= i < order.len() ==> is_turn(#[trigger] order[i], m.left.len(), m.right.len()),
        all_share(m.slice, m.left, m.right, order, n),
        same_but_handles(m.left, (merge_turn(m, order[n])->0).left),
        same_but_handles(m.right, (merge_turn(m, order[n])->0).right),
    ensures
        ({
            let after = merge_turn(m, order[n])->0;
            all_share(after.slice, after.left, after.right, order, n + 1)
        }),
{
    let turn = order[n];
    let after = merge_turn(m, turn)->0;
    let (mine, others) = if turn.is_left {
        (m.left, m.right)
    } else {
        (m.right, m.left)
    };
    let i = turn.index as int;
    lemma_led(m.slice, mine[i].state_handle);
    let (led, handle) = m.slice.led_from(mine[i].state_handle)->0;
    let early = readdressed(mine[i], handle);
    lemma_late_share(early, others, turn.other as int, led);
    let (late, t) = late_merged(early, others, turn.other as int, led)->0;
    let mine2 = mine.update(i, early);
    assert(keeps_together(m.slice, t)) by {
        assert forall|a: u32, b: u32| #[trigger] share(m.slice, a, b) implies share(t, a, b) by {
            lemma_same_ways_share(m.slice, led, a, b);
        }
    }
    assert(share(t, mine[i].state_handle, handle));
    assert(still_led(t, mine, mine2));
    lemma_all_still_share(
        m.slice,
        t,
        m.left,
        m.right,
        after.left,
        after.right,
        order,
        n,
    );
    assert forall|u: int, k: int|
        0 <= u < n + 1 && 0 <= k < turn_run(
            after.left,
            after.right,
            order[u],
        ) implies #[trigger] meeting_shares(t, after.left, after.right, order[u], k) by {
        if u == n {
            lemma_same_run(m.left, m.right, after.left, after.right, turn);
            lemma_run_same_shape(mine[i], early, others, others, turn.other as int);
            let j = turn.other + k;
            assert(share(t, early.state_handle, late[j].state_handle));
            assert(turn_packet(after.left, after.right, turn) == early);
            assert(turn_others(after.left, after.right, turn) == late);
        }
    }
}

proof fn lemma_merge_pass_shares(m: Merging, order: Seq<Turn>, n: int)
    requires
        m.slice.wf(),
        0 <= n <= order.len(),
        forall|i: int|
            0 <= i < order.len() ==> is_turn(#[trigger] order[i], m.left.len(), m.right.len()),
        merge_pass(m, order.take(n)) is Some,
    ensures
        ({
            let after = merge_pass(m, order.take(n))->0;
            &&& after.slice.wf()
            &&& same_but_handles(m.left, after.left)
            &&& same_but_handles(m.right, after.right)
            &&& all_share(after.slice, after.left, after.right, order, n)
        }),
    decreases n,
{
    merging_keeps_the_slice(m, order.take(n));
    merging_only_readdresses(m, order.take(n));
    if n > 0 {
        let rest = order.take(n - 1);
        assert(order.take(n).drop_last() =~= rest);
        lemma_merge_pass_shares(m, order, n - 1);
        let before = merge_pass(m, rest)->0;
        let after = merge_pass(m, order.take(n))->0;
        assert forall|k: int| 0 <= k < before.left.len() implies (#[trigger] after.left[k])
            == readdressed(before.left[k], after.left[k].state_handle) by {
            assert(before.left[k] == readdressed(m.left[k], before.left[k].state_handle));
            assert(after.left[k] == readdressed(m.left[k], after.left[k].state_handle));
        }
        assert forall|k: int| 0 <= k < before.right.len() implies (#[trigger] after.right[k])
            == readdressed(before.right[k], after.right[k].state_handle) by {
            assert(before.right[k] == readdressed(m.right[k], before.right[k].state_handle));
            assert(after.right[k] == readdressed(m.right[k], after.right[k].state_handle));
        }
        lemma_merge_turn_shares(before, order, n - 1);
    }
}

proof fn lemma_sink_turn_shares(x: Sinking, turn: Turn, id: u8, order: Seq<Turn>)
    requires
        x.slice.wf(),
        is_turn(turn, x.left.len(), x.right.len()),
        sink_turn(x, turn, id) is Some,
        forall|i: int|
            0 <= i < order.len() ==> is_turn(#[trigger] order[i], x.left.len(), x.right.len()),
        all_share(x.slice, x.left, x.right, order, order.len() as int),
    ensures
        ({
            let after = sink_turn(x, turn, id)->0;
            &&& after.slice.wf()
            &&& all_share(after.slice, after.left, after.right, order, order.len() as int)
        }),
{
    let after = sink_turn(x, turn, id)->0;
    let mine = if turn.is_left {
        x.left
    } else {
        x.right
    };
    let i = turn.index as int;
    lemma_led(x.slice, mine[i].state_handle);
    let (led, handle) = x.slice.led_from(mine[i].state_handle)->0;
    let source = readdressed(mine[i], handle);
    assert(can_leave(led, source));
    lemma_island_keeps_ways(led, handle, after.slice.cells[led.place(handle)]);
    let t = after.slice;
    assert(keeps_together(x.slice, t)) by {
        assert forall|a: u32, b: u32| #[trigger] share(x.slice, a, b) implies share(t, a, b) by {
            lemma_same_ways_share(x.slice, led, a, b);
            lemma_same_ways_share(led, t, a, b);
        }
    }
    lemma_same_ways_share(led, t, mine[i].state_handle, handle);
    assert(still_led(t, x.left, after.left));
    assert(still_led(t, x.right, after.right));
    lemma_all_still_share(
        x.slice,
        t,
        x.left,
        x.right,
        after.left,
        after.right,
        order,
        order.len() as int,
    );
}

proof fn lemma_sink_pass_shares(m: Merging, order: Seq<Turn>, id: u8, count: int, n: int)
    requires
        m.slice.wf(),
        0 <= n <= order.len(),
        forall|i: int|
            0 <= i < order.len() ==> is_turn(#[trigger] order[i], m.left.len(), m.right.len()),
        all_share(m.slice, m.left, m.right, order, order.len() as int),
        sink_pass(m, order.take(n), id, count) is Some,
    ensures
        ({
            let x = sink_pass(m, order.take(n), id, count)->0;
            &&& x.slice.wf()
            &&& x.left.len() == m.left.len()
            &&& x.right.len() == m.right.len()
            &&& all_share(x.slice, x.left, x.right, order, order.len() as int)
        }),
    decreases n,
{
    if n > 0 {
        assert(order.take(n).drop_last() =~= order.take(n - 1));
        assert(order.take(n).last() == order[n - 1]);
        lemma_sink_pass_shares(m, order, id, count, n - 1);
        let before = sink_pass(m, order.take(n - 1), id, count)->0;
        lemma_sink_turn_shares(before, order[n - 1], id, order);
    }
}

/// A packet and those that it acts together with in its turn are left with the same handle.
pub proof fn lemma_turn_shares_a_state(
    left: Seq<WavePacket>,
    right: Seq<WavePacket>,
    slice: SliceView,
    id: u8,
    count: int,
    t: int,
    k: int,
)
    requires
        left.len() <= usize::MAX,
        right.len() <= usize::MAX,
        slice.wf(),
        prepared(left, right, slice, id, count) is Some,
        0 <= t < turns_of(left, right).len(),
        0 <= k < turn_run(left, right, turns_of(left, right)[t]),
    ensures
        ({
            let x = prepared(left, right, slice, id, count)->0;
            let turn = turns_of(left, right)[t];
            turn_packet(x.left, x.right, turn).state_handle == turn_others(x.left, x.right, turn)[
                turn.other + k].state_handle
        }),
{
    let order = turns_of(left, right);
    let m = Merging { left, right, slice };
    let merged = merge_pass(m, order)->0;
    let x = prepared(left, right, slice, id, count)->0;
    let turn = order[t];
    every_packet_has_its_turn(left, right, 0, 0);
    assert forall|i: int| 0 <= i < order.len() implies is_turn(
        #[trigger] order[i],
        left.len(),
        right.len(),
    ) by {
        assert(turns_from(left, right, 0, 0)[i] == order[i]);
    }
    assert(order.take(order.len() as int) =~= order);
    lemma_merge_pass_shares(m, order, order.len() as int);
    lemma_sink_pass_shares(merged, order, id, count, order.len() as int);
    every_packet_leaves_twice(merged, order, id, count);
    lemma_same_run(left, right, merged.left, merged.right, turn);
    lemma_same_run(merged.left, merged.right, x.left, x.right, turn);
    lemma_run_in_bounds(
        turn_packet(left, right, turn),
        turn_others(left, right, turn),
        turn.other as int,
    );
    assert(meeting_shares(x.slice, x.left, x.right, order[t], k));
    assert(turn_in_island(x, order[t]));
    let j = turn.other + k;
    let other_is_left = !turn.is_left;
    assert(has_turn(order, other_is_left, j));
    let u = choose|u: int|
        0 <= u < order.len() && #[trigger] is_turn_of(order[u], other_is_left, j);
    assert(turn_in_island(x, order[u]));
    let a = turn_packet(x.left, x.right, turn).state_handle;
    let b = turn_others(x.left, x.right, turn)[j].state_handle;
    let end = choose|end: u32| #[trigger]
        leads(x.slice, a, end) && #[trigger] leads(x.slice, b, end);
    let n1 = choose|n: nat| leads_to(x.slice, a, end, n);
    let n2 = choose|n: nat| leads_to(x.slice, b, end, n);
    assert(way_of(x.slice.cell(a)) is None);
    assert(way_of(x.slice.cell(b)) is None);
}

/// Two packets that overlap are in one state when the operators are recorded: whatever
/// states they came with, the first two passes leave them with the same handle.
pub proof fn packets_that_meet_share_a_state(
    left: Seq<WavePacket>,
    right: Seq<WavePacket>,
    slice: SliceView,
    id: u8,
    count: int,
    l: int,
    r: int,
)
    requires
        left.len() <= usize::MAX,
        right.len() <= usize::MAX,
        in_step(left),
        in_step(right),
        alike(left, right),
        slice.wf(),
        prepared(left, right, slice, id, count) is Some,
        0 <= l < left.len(),
        0 <= r < right.len(),
        left[l].meets(right[r]),
    ensures
        ({
            let x = prepared(left, right, slice, id, count)->0;
            x.left[l].state_handle == x.right[r].state_handle
        }),
{
    let order = turns_of(left, right);
    every_meeting_has_its_operator(left, right, l, r);
    let t = choose|t: int| 0 <= t < order.len() && takes(left, right, #[trigger] order[t], l, r);
    let other = if order[t].is_left {
        r
    } else {
        l
    };
    lemma_turn_shares_a_state(left, right, slice, id, count, t, other - order[t].other);
}

} // verus!
