//! The sweep over two ports finds every packet, and none twice.

use vstd::prelude::*;

use crate::nodes::dual_port_iterator::{
    clustered, first_with_snowflake, has_snowflake, lemma_first_with_snowflake, stays_small,
    ClusterItem, ClusterView,
};
use crate::nodes::packet::WavePacket;
use crate::nodes::pairing::{
    findings, in_sweep, is_sweeping, pairing_of, pairings_of, sweep_start, sweep_step, Finding,
    Sweep,
};

verus! {

/// Packets as they come through a port: no packet begins before the one in front of
/// it, and none ends before it.
pub open spec fn in_order(packets: Seq<WavePacket>) -> bool {
    forall|i: int, k: int|
        0 <= i <= k < packets.len() ==> (#[trigger] packets[i]).lead() <= (
        #[trigger] packets[k]).lead() && packets[i].trail() <= packets[k].trail()
}

/// Packets of one width are in order when their times are.
pub proof fn equal_widths_are_in_order(packets: Seq<WavePacket>, sigma: u32)
    requires
        forall|i: int| 0 <= i < packets.len() ==> (#[trigger] packets[i]).time_sigma == sigma,
        forall|i: int, k: int|
            0 <= i <= k < packets.len() ==> (#[trigger] packets[i]).time <= (
            #[trigger] packets[k]).time,
    ensures
        in_order(packets),
{
}

/// Some finding has the left packet meet a right one.
pub open spec fn left_meets(found: Seq<Finding>, l: int) -> bool {
    exists|r: int| #[trigger] found.contains(Finding::Meeting(l, r))
}

/// Some finding has the right packet meet a left one.
pub open spec fn right_meets(found: Seq<Finding>, r: int) -> bool {
    exists|l: int| #[trigger] found.contains(Finding::Meeting(l, r))
}

/// A finding that stands there no more than once.
pub open spec fn at_most_once(found: Seq<Finding>, finding: Finding) -> bool {
    forall|i: int, k: int|
        0 <= i < found.len() && 0 <= k < found.len() && #[trigger] found[i] == finding
            && #[trigger] found[k] == finding ==> i == k
}

/// The left packet meets some right one, or is found alone, once; never both.
pub open spec fn left_found_once(found: Seq<Finding>, l: int) -> bool {
    &&& left_meets(found, l) != found.contains(Finding::LeftAlone(l))
    &&& at_most_once(found, Finding::LeftAlone(l))
}

/// The right packet meets some left one, or is found alone, once; never both.
pub open spec fn right_found_once(found: Seq<Finding>, r: int) -> bool {
    &&& right_meets(found, r) != found.contains(Finding::RightAlone(r))
    &&& at_most_once(found, Finding::RightAlone(r))
}

/// The right packet will not be looked at again.
spec fn is_done(left: Seq<WavePacket>, s: Sweep, r: int) -> bool {
    if left.len() == 0 || s.left + 1 == left.len() {
        r < s.right
    } else if s.left == left.len() {
        true
    } else {
        r < s.pivot
    }
}

/// What holds of the findings so far.
#[verifier::opaque]
spec fn swept(
    left: Seq<WavePacket>,
    right: Seq<WavePacket>,
    s: Sweep,
    found: Seq<Finding>,
) -> bool {
    &&& in_sweep(left, right, s)
    // the findings speak of packets that have been looked at
    &&& forall|l: int, r: int| #[trigger]
        found.contains(Finding::Meeting(l, r)) ==> {
            &&& 0 <= l <= s.left
            &&& l < left.len()
            &&& 0 <= r < right.len()
            &&& left[l].meets(right[r])
            &&& l == s.left ==> r < s.right && s.met
        }
    &&& forall|l: int| #[trigger] found.contains(Finding::LeftAlone(l)) ==> 0 <= l < s.left
    &&& forall|r: int| #[trigger]
        found.contains(Finding::RightAlone(r)) ==> 0 <= r < right.len() && is_done(left, s, r)
    // left packets
    &&& s.met ==> s.left < left.len() && left_meets(found, s.left)
    &&& forall|l: int|
        0 <= l < s.left ==> left_meets(found, l) != #[trigger] found.contains(
            Finding::LeftAlone(l),
        )
    &&& forall|l: int| #[trigger] at_most_once(found, Finding::LeftAlone(l))
    // right packets
    &&& forall|r: int|
        0 <= r < right.len() && is_done(left, s, r) ==> right_meets(found, r)
            != #[trigger] found.contains(Finding::RightAlone(r))
    &&& forall|r: int| #[trigger] at_most_once(found, Finding::RightAlone(r))
    // right packets that will be looked at again
    &&& s.left + 1 < left.len() ==> {
        &&& forall|r: int|
            s.pivot <= r < s.right ==> #[trigger] found.contains(Finding::Meeting(s.left, r))
        &&& s.pivot < s.right ==> s.last == s.right - 1
    }
    &&& s.left < left.len() ==> {
        &&& forall|r: int| s.right <= r <= s.last ==> #[trigger] right_meets(found, r)
        &&& !s.met ==> forall|r: int|
            s.right <= r < right.len() && #[trigger] right_meets(found, r) ==> r <= s.last
    }
}

proof fn lemma_contains_push(found: Seq<Finding>, x: Finding, y: Finding)
    ensures
        found.push(x).contains(y) <==> found.contains(y) || x == y,
{
    if found.contains(y) {
        assert(found.push(x)[found.index_of(y)] == y);
    }
    assert(found.push(x)[found.len() as int] == x);
    if found.push(x).contains(y) && x != y {
        let i = found.push(x).index_of(y);
        assert(found[i] == y);
    }
}

/// What one more finding adds.
proof fn lemma_push(found: Seq<Finding>, x: Finding)
    ensures
        forall|y: Finding| #[trigger] found.push(x).contains(y) <==> found.contains(y) || x == y,
        forall|l: int| #[trigger]
            left_meets(found.push(x), l) <==> left_meets(found, l) || (x matches Finding::Meeting(
                a,
                _,
            ) && a == l),
        forall|r: int| #[trigger]
            right_meets(found.push(x), r) <==> right_meets(found, r) || (x matches Finding::Meeting(
                _,
                b,
            ) && b == r),
        forall|y: Finding|
            at_most_once(found, y) && !(x == y && found.contains(y)) ==> #[trigger] at_most_once(
                found.push(x),
                y,
            ),
{
    let now = found.push(x);
    assert forall|y: Finding| #[trigger] now.contains(y) <==> found.contains(y) || x == y by {
        lemma_contains_push(found, x, y);
    }
    assert forall|l: int| #[trigger] left_meets(now, l) <==> left_meets(found, l) || (
    x matches Finding::Meeting(a, _) && a == l) by {
        if left_meets(found, l) {
            let r = choose|r: int| #[trigger] found.contains(Finding::Meeting(l, r));
            assert(now.contains(Finding::Meeting(l, r)));
        }
        if let Finding::Meeting(a, b) = x {
            if a == l {
                assert(now.contains(Finding::Meeting(l, b)));
            }
        }
    }
    assert forall|r: int| #[trigger] right_meets(now, r) <==> right_meets(found, r) || (
    x matches Finding::Meeting(_, b) && b == r) by {
        if right_meets(found, r) {
            let l = choose|l: int| #[trigger] found.contains(Finding::Meeting(l, r));
            assert(now.contains(Finding::Meeting(l, r)));
        }
        if let Finding::Meeting(a, b) = x {
            if b == r {
                assert(now.contains(Finding::Meeting(a, r)));
            }
        }
    }
    assert forall|y: Finding|
        at_most_once(found, y) && !(x == y && found.contains(y)) implies #[trigger] at_most_once(
        now,
        y,
    ) by {
        assert forall|i: int, k: int|
            0 <= i < now.len() && 0 <= k < now.len() && #[trigger] now[i] == y
                && #[trigger] now[k] == y implies i == k by {
            if i < found.len() {
                assert(found[i] == y);
                assert(found.contains(y));
            }
            if k < found.len() {
                assert(found[k] == y);
                assert(found.contains(y));
            }
        }
    }
}

/// A right packet that has met a left one does not escape the left packets that
/// come later: it meets them too, once one before it did.
proof fn lemma_met_before(
    left: Seq<WavePacket>,
    right: Seq<WavePacket>,
    s: Sweep,
    found: Seq<Finding>,
    r: int,
)
    requires
        in_order(left),
        in_order(right),
        swept(left, right, s, found),
        s.left < left.len(),
        s.met,
        s.right <= r < right.len(),
        right_meets(found, r),
    ensures
        left[s.left].meets(right[r]),
{
    reveal(swept);
    let l = choose|l: int| #[trigger] found.contains(Finding::Meeting(l, r));
    assert(left[l].meets(right[r]));
    let r0 = choose|r0: int| #[trigger] found.contains(Finding::Meeting(s.left, r0));
    assert(left[s.left].meets(right[r0]));
    assert(r0 < s.right);
    assert(right[r0].trail() <= right[r].trail());
    assert(left[l].trail() <= left[s.left].trail());
}

proof fn lemma_step_meets(
    left: Seq<WavePacket>,
    right: Seq<WavePacket>,
    s: Sweep,
    found: Seq<Finding>,
)
    requires
        in_order(left),
        in_order(right),
        swept(left, right, s, found),
        s.left < left.len(),
        s.right < right.len(),
        left[s.left].meets(right[s.right]),
    ensures
        swept(
            left,
            right,
            sweep_step(left, right, s).0,
            found.push(Finding::Meeting(s.left, s.right)),
        ),
{
    reveal(swept);
    let x = Finding::Meeting(s.left, s.right);
    let now = found.push(x);
    let next = sweep_step(left, right, s).0;
    lemma_push(found, x);
    assert(left_meets(now, s.left));
    assert(!found.contains(Finding::RightAlone(s.right)));
    assert forall|r: int|
        0 <= r < right.len() && is_done(left, next, r) implies right_meets(now, r)
        != #[trigger] now.contains(Finding::RightAlone(r)) by {
        if !is_done(left, s, r) {
            assert(r == s.right);
        }
    }
}

proof fn lemma_step_passes(
    left: Seq<WavePacket>,
    right: Seq<WavePacket>,
    s: Sweep,
    found: Seq<Finding>,
)
    requires
        in_order(left),
        in_order(right),
        swept(left, right, s, found),
        s.left < left.len(),
        s.right < right.len(),
        !left[s.left].meets(right[s.right]),
        right[s.right].time < left[s.left].time,
    ensures
        s.right > s.last ==> swept(
            left,
            right,
            sweep_step(left, right, s).0,
            found.push(Finding::RightAlone(s.right)),
        ),
        s.right <= s.last ==> swept(left, right, sweep_step(left, right, s).0, found),
{
    reveal(swept);
    let next = sweep_step(left, right, s).0;
    assert(!is_done(left, s, s.right));
    assert(!found.contains(Finding::RightAlone(s.right)));
    // of those passed now, only this one was not done before
    if s.left + 1 < left.len() && s.pivot < s.right {
        assert forall|r: int| s.pivot <= r < s.right implies right_meets(found, r) && !found.contains(
            Finding::RightAlone(r),
        ) by {
            assert(found.contains(Finding::Meeting(s.left, r)));
            assert(!is_done(left, s, r));
        }
    }
    if s.right > s.last {
        let x = Finding::RightAlone(s.right);
        let now = found.push(x);
        lemma_push(found, x);
        assert(!right_meets(found, s.right)) by {
            if right_meets(found, s.right) && s.met {
                lemma_met_before(left, right, s, found, s.right);
            }
        }
        assert forall|r: int|
            0 <= r < right.len() && is_done(left, next, r) implies right_meets(now, r)
            != #[trigger] now.contains(Finding::RightAlone(r)) by {
            assert(found.contains(Finding::RightAlone(r)) || !found.contains(
                Finding::RightAlone(r),
            ));
        }
        assert(swept(left, right, next, now));
    } else {
        assert(right_meets(found, s.right));
        assert forall|r: int|
            0 <= r < right.len() && is_done(left, next, r) implies right_meets(found, r)
            != #[trigger] found.contains(Finding::RightAlone(r)) by {}
        assert(swept(left, right, next, found));
    }
}

proof fn lemma_step_ends(
    left: Seq<WavePacket>,
    right: Seq<WavePacket>,
    s: Sweep,
    found: Seq<Finding>,
)
    requires
        in_order(left),
        in_order(right),
        swept(left, right, s, found),
        s.left + 1 == left.len(),
        s.right < right.len(),
        !left[s.left].meets(right[s.right]),
        right[s.right].time >= left[s.left].time,
    ensures
        swept(
            left,
            right,
            sweep_step(left, right, s).0,
            found.push(Finding::RightAlone(s.right)),
        ),
{
    reveal(swept);
    let next = sweep_step(left, right, s).0;
    let x = Finding::RightAlone(s.right);
    let now = found.push(x);
    lemma_push(found, x);
    assert(!found.contains(x));
    assert(!right_meets(found, s.right)) by {
        if right_meets(found, s.right) {
            if s.met {
                lemma_met_before(left, right, s, found, s.right);
            } else {
                let l = choose|l: int| #[trigger] found.contains(Finding::Meeting(l, s.right));
                assert(left[l].meets(right[s.right]));
                assert(left[l].trail() <= left[s.left].trail());
            }
        }
    }
    assert forall|r: int|
        0 <= r < right.len() && is_done(left, next, r) implies right_meets(now, r)
        != #[trigger] now.contains(Finding::RightAlone(r)) by {
        assert(found.contains(Finding::RightAlone(r)) || !found.contains(Finding::RightAlone(r)));
    }
}

proof fn lemma_step_next_left(
    left: Seq<WavePacket>,
    right: Seq<WavePacket>,
    s: Sweep,
    found: Seq<Finding>,
)
    requires
        in_order(left),
        in_order(right),
        swept(left, right, s, found),
        s.left < left.len(),
        s.right < right.len() ==> s.left + 1 < left.len() && !left[s.left].meets(right[s.right])
            && right[s.right].time >= left[s.left].time,
    ensures
        s.met ==> swept(left, right, sweep_step(left, right, s).0, found),
        !s.met ==> swept(
            left,
            right,
            sweep_step(left, right, s).0,
            found.push(Finding::LeftAlone(s.left)),
        ),
{
    reveal(swept);
    let next = sweep_step(left, right, s).0;
    let now = if s.met {
        found
    } else {
        found.push(Finding::LeftAlone(s.left))
    };
    lemma_push(found, Finding::LeftAlone(s.left));
    assert(forall|r: int| #[trigger]
        now.contains(Finding::RightAlone(r)) <==> found.contains(Finding::RightAlone(r)));
    assert(forall|r: int| #[trigger] right_meets(now, r) <==> right_meets(found, r));
    assert forall|l: int| 0 <= l < next.left implies left_meets(now, l) != #[trigger] now.contains(
        Finding::LeftAlone(l),
    ) by {
        assert(found.contains(Finding::LeftAlone(l)) || !found.contains(Finding::LeftAlone(l)));
        if l == s.left && !s.met && left_meets(found, l) {
            let r = choose|r: int| #[trigger] found.contains(Finding::Meeting(l, r));
            assert(s.met);
        }
    }
    assert forall|r: int|
        0 <= r < right.len() && is_done(left, next, r) implies right_meets(now, r)
        != #[trigger] now.contains(Finding::RightAlone(r)) by {
        if !is_done(left, s, r) {
            // the next left packet is the last, or there is none
            assert(s.left + 1 == left.len());
            assert(r < s.right);
        }
        assert(found.contains(Finding::RightAlone(r)) || !found.contains(Finding::RightAlone(r)));
    }
    if next.left < left.len() {
        assert forall|r: int| next.right <= r <= next.last implies #[trigger] right_meets(now, r) by {
            if r < s.right {
                assert(found.contains(Finding::Meeting(s.left, r)));
            }
            assert(right_meets(found, r));
        }
        assert forall|r: int|
            next.right <= r < right.len() && #[trigger] right_meets(now, r) implies r
            <= next.last by {
            assert(right_meets(found, r));
            if r >= s.right {
                if s.met {
                    let r0 = choose|r0: int| #[trigger]
                        found.contains(Finding::Meeting(s.left, r0));
                    assert(left[s.left].meets(right[r0]));
                    assert(right[r0].trail() <= right[s.right].trail());
                    let l = choose|l: int| #[trigger] found.contains(Finding::Meeting(l, r));
                    assert(left[l].meets(right[r]));
                    assert(left[l].trail() <= left[s.left].trail());
                    assert(right[s.right].lead() <= right[r].lead());
                }
            }
        }
    }
}

/// The findings with what a step found.
spec fn noted(found: Seq<Finding>, item: Option<Finding>) -> Seq<Finding> {
    match item {
        Some(x) => found.push(x),
        None => found,
    }
}

proof fn lemma_step(left: Seq<WavePacket>, right: Seq<WavePacket>, s: Sweep, found: Seq<Finding>)
    requires
        in_order(left),
        in_order(right),
        swept(left, right, s, found),
        is_sweeping(left, right, s),
    ensures
        swept(
            left,
            right,
            sweep_step(left, right, s).0,
            noted(found, sweep_step(left, right, s).1),
        ),
{
    reveal(swept);
    let (next, item) = sweep_step(left, right, s);
    if s.left >= left.len() {
        let x = Finding::RightAlone(s.right);
        lemma_push(found, x);
        assert(!found.contains(x));
        assert forall|r: int|
            0 <= r < right.len() && is_done(left, next, r) implies right_meets(found.push(x), r)
            != #[trigger] found.push(x).contains(Finding::RightAlone(r)) by {
            if right_meets(found, r) {
                let l = choose|l: int| #[trigger] found.contains(Finding::Meeting(l, r));
                assert(l < left.len());
            }
            assert(found.contains(Finding::RightAlone(r)) || !found.contains(
                Finding::RightAlone(r),
            ));
        }
    } else if s.right < right.len() && left[s.left].meets(right[s.right]) {
        lemma_step_meets(left, right, s, found);
    } else if s.right < right.len() && right[s.right].time < left[s.left].time {
        lemma_step_passes(left, right, s, found);
    } else if s.right < right.len() && s.left + 1 == left.len() {
        lemma_step_ends(left, right, s, found);
    } else {
        lemma_step_next_left(left, right, s, found);
    }
}

proof fn lemma_sweep(left: Seq<WavePacket>, right: Seq<WavePacket>, s: Sweep, found: Seq<Finding>)
    requires
        in_order(left),
        in_order(right),
        swept(left, right, s, found),
    ensures
        all_found_once(left, right, found + findings(left, right, s)),
    decreases left.len() - s.left, right.len() - s.right,
{
    reveal(swept);
    if is_sweeping(left, right, s) {
        let (next, item) = sweep_step(left, right, s);
        let rest = findings(left, right, next);
        lemma_step(left, right, s, found);
        match item {
            Some(x) => {
                lemma_sweep(left, right, next, found.push(x));
                assert(found.push(x) + rest =~= found + (seq![x] + rest));
            },
            None => {
                lemma_sweep(left, right, next, found);
            },
        }
    } else {
        assert(found + findings(left, right, s) =~= found);
        assert forall|l: int| 0 <= l < left.len() implies #[trigger] left_found_once(found, l) by {
            assert(at_most_once(found, Finding::LeftAlone(l)));
            assert(left_meets(found, l) != found.contains(Finding::LeftAlone(l)));
        }
        assert forall|r: int| 0 <= r < right.len() implies #[trigger] right_found_once(
            found,
            r,
        ) by {
            assert(at_most_once(found, Finding::RightAlone(r)));
            assert(is_done(left, s, r));
            assert(right_meets(found, r) != found.contains(Finding::RightAlone(r)));
        }
    }
}

/// Every packet is found once, and nothing else is: findings speak of packets of
/// the two batches, and only packets that overlap are said to meet.
pub open spec fn all_found_once(
    left: Seq<WavePacket>,
    right: Seq<WavePacket>,
    found: Seq<Finding>,
) -> bool {
    &&& forall|l: int| 0 <= l < left.len() ==> #[trigger] left_found_once(found, l)
    &&& forall|r: int| 0 <= r < right.len() ==> #[trigger] right_found_once(found, r)
    &&& forall|l: int| #[trigger] found.contains(Finding::LeftAlone(l)) ==> 0 <= l < left.len()
    &&& forall|r: int| #[trigger] found.contains(Finding::RightAlone(r)) ==> 0 <= r < right.len()
    &&& forall|l: int, r: int| #[trigger]
        found.contains(Finding::Meeting(l, r)) ==> 0 <= l < left.len() && 0 <= r < right.len()
            && left[l].meets(right[r])
}

/// The sweep over two ports in order finds each packet of either: meeting others, or
/// alone and then once, and never both.
pub proof fn every_packet_is_found_once(left: Seq<WavePacket>, right: Seq<WavePacket>)
    requires
        in_order(left),
        in_order(right),
    ensures
        all_found_once(left, right, findings(left, right, sweep_start())),
{
    let none: Seq<Finding> = seq![];
    reveal(swept);
    assert(none + findings(left, right, sweep_start()) =~= findings(left, right, sweep_start()));
    lemma_sweep(left, right, sweep_start(), none);
}

/// No two packets have the same id.
pub open spec fn distinct_snowflakes(packets: Seq<WavePacket>) -> bool {
    forall|i: int, k: int|
        0 <= i < packets.len() && 0 <= k < packets.len() && (#[trigger] packets[i]).snowflake == (
        #[trigger] packets[k]).snowflake ==> i == k
}

/// The left packet is in the item.
pub open spec fn has_left(item: ClusterItem, wp: WavePacket) -> bool {
    match item {
        ClusterItem::LeftAlone(alone) => alone == wp,
        ClusterItem::RightAlone(_) => false,
        ClusterItem::Cluster(cluster) => cluster.left.contains(wp),
    }
}

/// The right packet is in the item.
pub open spec fn has_right(item: ClusterItem, wp: WavePacket) -> bool {
    match item {
        ClusterItem::LeftAlone(_) => false,
        ClusterItem::RightAlone(alone) => alone == wp,
        ClusterItem::Cluster(cluster) => cluster.right.contains(wp),
    }
}

/// Some pair of a cluster, each side with a packet of it.
pub open spec fn in_a_pair_left(cluster: ClusterView, a: int) -> bool {
    exists|i: int| 0 <= i < cluster.pairs.len() && (#[trigger] cluster.pairs[i]).0 == a
}

pub open spec fn in_a_pair_right(cluster: ClusterView, b: int) -> bool {
    exists|i: int| 0 <= i < cluster.pairs.len() && (#[trigger] cluster.pairs[i]).1 == b
}

/// A cluster without repetitions, whose pairs name packets that overlap, and all of
/// its packets.
pub open spec fn is_sound_cluster(cluster: ClusterView) -> bool {
    &&& cluster.pairs.len() > 0
    &&& distinct_snowflakes(cluster.left)
    &&& distinct_snowflakes(cluster.right)
    &&& forall|i: int|
        0 <= i < cluster.pairs.len() ==> (#[trigger] cluster.pairs[i]).0 < cluster.left.len()
            && cluster.pairs[i].1 < cluster.right.len() && cluster.left[cluster.pairs[i].0 as int].meets(
            cluster.right[cluster.pairs[i].1 as int],
        )
    &&& forall|a: int| 0 <= a < cluster.left.len() ==> #[trigger] in_a_pair_left(cluster, a)
    &&& forall|b: int| 0 <= b < cluster.right.len() ==> #[trigger] in_a_pair_right(cluster, b)
}

/// The packets stand in that order at those places of the batch.
pub open spec fn mirrors(batch: Seq<WavePacket>, packets: Seq<WavePacket>, places: Seq<int>) -> bool {
    &&& packets.len() == places.len()
    &&& forall|i: int|
        0 <= i < places.len() ==> 0 <= (#[trigger] places[i]) < batch.len() && packets[i]
            == batch[places[i]]
}

pub proof fn lemma_mirrors(batch: Seq<WavePacket>, packets: Seq<WavePacket>, places: Seq<int>, p: int)
    requires
        distinct_snowflakes(batch),
        mirrors(batch, packets, places),
        0 <= p < batch.len(),
    ensures
        has_snowflake(packets, batch[p].snowflake) <==> places.contains(p),
        packets.contains(batch[p]) <==> places.contains(p),
        has_snowflake(packets, batch[p].snowflake) ==> packets[first_with_snowflake(
            packets,
            batch[p].snowflake,
        )] == batch[p],
        0 <= first_with_snowflake(packets, batch[p].snowflake) <= packets.len(),
{
    let flake = batch[p].snowflake;
    lemma_first_with_snowflake(packets, flake);
    let i = first_with_snowflake(packets, flake);
    if i < packets.len() {
        assert(batch[places[i]].snowflake == batch[p].snowflake);
        assert(places[i] == p);
    }
    if places.contains(p) {
        let k = places.index_of(p);
        assert(packets[k] == batch[p]);
        if i >= packets.len() {
            assert(packets[k].snowflake != flake);
        }
    }
    if packets.contains(batch[p]) {
        let k = packets.index_of(batch[p]);
        assert(batch[places[k]].snowflake == batch[p].snowflake);
    }
}

/// The cluster that pairs are gathered in, with the places of its packets.
ghost struct Gathering {
    cluster: ClusterView,
    lefts: Seq<int>,
    rights: Seq<int>,
}

spec fn gathers_left(open: Option<Gathering>, l: int) -> bool {
    open matches Some(g) && g.lefts.contains(l)
}

spec fn gathers_right(open: Option<Gathering>, r: int) -> bool {
    open matches Some(g) && g.rights.contains(r)
}

/// How the open cluster and the findings hang together.
#[verifier::opaque]
spec fn gathered(
    left: Seq<WavePacket>,
    right: Seq<WavePacket>,
    s: Sweep,
    found: Seq<Finding>,
    open: Option<Gathering>,
) -> bool {
    &&& open matches Some(g) ==> {
        &&& mirrors(left, g.cluster.left, g.lefts)
        &&& mirrors(right, g.cluster.right, g.rights)
        &&& is_sound_cluster(g.cluster)
    }
    &&& forall|l: int| #[trigger] gathers_left(open, l) ==> left_meets(found, l)
    &&& forall|r: int| #[trigger] gathers_right(open, r) ==> right_meets(found, r)
    // what the left packet at hand has met is gathered with it
    &&& s.met ==> gathers_left(open, s.left)
    // what is not gathered any more will not be met again
    &&& forall|r: int| #[trigger]
        right_meets(found, r) && !gathers_right(open, r) ==> is_done(left, s, r)
    &&& forall|l: int, r: int| #[trigger]
        found.contains(Finding::Meeting(l, r)) ==> gathers_left(open, l) == gathers_right(open, r)
    // nothing is skipped
    &&& forall|l: int, r: int, r2: int|
        #![trigger found.contains(Finding::Meeting(l, r2)), right[r]]
        found.contains(Finding::Meeting(l, r2)) && s.pivot <= r < r2 && left[l].meets(right[r])
            ==> found.contains(Finding::Meeting(l, r))
    &&& s.left < left.len() ==> forall|r: int|
        s.pivot <= r < s.right && left[s.left].meets(#[trigger] right[r]) ==> found.contains(
            Finding::Meeting(s.left, r),
        )
}

/// Where the packets that were found have gone: to one item each, or into the open
/// cluster.
#[verifier::opaque]
spec fn placed(
    left: Seq<WavePacket>,
    right: Seq<WavePacket>,
    found: Seq<Finding>,
    out: Seq<ClusterItem>,
    open: Option<Gathering>,
) -> bool {
    &&& forall|l: int|
        0 <= l < left.len() ==> (#[trigger] is_left_found(found, l) <==> (some_has_left(
            out,
            left[l],
        ) || gathers_left(open, l)))
    &&& forall|r: int|
        0 <= r < right.len() ==> (#[trigger] is_right_found(found, r) <==> (some_has_right(
            out,
            right[r],
        ) || gathers_right(open, r)))
    &&& forall|l: int|
        0 <= l < left.len() && #[trigger] gathers_left(open, l) ==> !some_has_left(out, left[l])
    &&& forall|r: int|
        0 <= r < right.len() && #[trigger] gathers_right(open, r) ==> !some_has_right(
            out,
            right[r],
        )
    &&& forall|l: int| 0 <= l < left.len() ==> one_at_most_has_left(out, #[trigger] left[l])
    &&& forall|r: int| 0 <= r < right.len() ==> one_at_most_has_right(out, #[trigger] right[r])
    &&& forall|i: int|
        0 <= i < out.len() ==> (#[trigger] out[i] matches ClusterItem::Cluster(cluster)
            ==> is_sound_cluster(cluster))
    &&& forall|i: int| 0 <= i < out.len() ==> comes_from(left, right, #[trigger] out[i])
}

spec fn is_left_found(found: Seq<Finding>, l: int) -> bool {
    left_meets(found, l) || found.contains(Finding::LeftAlone(l))
}

spec fn is_right_found(found: Seq<Finding>, r: int) -> bool {
    right_meets(found, r) || found.contains(Finding::RightAlone(r))
}

pub open spec fn some_has_left(items: Seq<ClusterItem>, wp: WavePacket) -> bool {
    exists|i: int| 0 <= i < items.len() && has_left(#[trigger] items[i], wp)
}

pub open spec fn some_has_right(items: Seq<ClusterItem>, wp: WavePacket) -> bool {
    exists|i: int| 0 <= i < items.len() && has_right(#[trigger] items[i], wp)
}

pub open spec fn one_at_most_has_left(items: Seq<ClusterItem>, wp: WavePacket) -> bool {
    forall|i: int, k: int|
        0 <= i < items.len() && 0 <= k < items.len() && has_left(#[trigger] items[i], wp)
            && has_left(#[trigger] items[k], wp) ==> i == k
}

pub open spec fn one_at_most_has_right(items: Seq<ClusterItem>, wp: WavePacket) -> bool {
    forall|i: int, k: int|
        0 <= i < items.len() && 0 <= k < items.len() && has_right(#[trigger] items[i], wp)
            && has_right(#[trigger] items[k], wp) ==> i == k
}

/// Every packet of the item is one of the batches.
pub open spec fn comes_from(
    left: Seq<WavePacket>,
    right: Seq<WavePacket>,
    item: ClusterItem,
) -> bool {
    &&& forall|wp: WavePacket| #[trigger] has_left(item, wp) ==> left.contains(wp)
    &&& forall|wp: WavePacket| #[trigger] has_right(item, wp) ==> right.contains(wp)
}

proof fn lemma_out_push(out: Seq<ClusterItem>, item: ClusterItem)
    ensures
        forall|wp: WavePacket| #[trigger]
            some_has_left(out.push(item), wp) <==> some_has_left(out, wp) || has_left(item, wp),
        forall|wp: WavePacket| #[trigger]
            some_has_right(out.push(item), wp) <==> some_has_right(out, wp) || has_right(item, wp),
        forall|wp: WavePacket|
            one_at_most_has_left(out, wp) && !(has_left(item, wp) && some_has_left(out, wp))
                ==> #[trigger] one_at_most_has_left(out.push(item), wp),
        forall|wp: WavePacket|
            one_at_most_has_right(out, wp) && !(has_right(item, wp) && some_has_right(out, wp))
                ==> #[trigger] one_at_most_has_right(out.push(item), wp),
{
    let now = out.push(item);
    assert forall|wp: WavePacket| #[trigger] some_has_left(now, wp) <==> some_has_left(out, wp)
        || has_left(item, wp) by {
        if some_has_left(out, wp) {
            let i = choose|i: int| 0 <= i < out.len() && has_left(#[trigger] out[i], wp);
            assert(has_left(now[i], wp));
        }
        if has_left(item, wp) {
            assert(has_left(now[out.len() as int], wp));
        }
        if some_has_left(now, wp) && !has_left(item, wp) {
            let i = choose|i: int| 0 <= i < now.len() && has_left(#[trigger] now[i], wp);
            assert(has_left(out[i], wp));
        }
    }
    assert forall|wp: WavePacket| #[trigger] some_has_right(now, wp) <==> some_has_right(out, wp)
        || has_right(item, wp) by {
        if some_has_right(out, wp) {
            let i = choose|i: int| 0 <= i < out.len() && has_right(#[trigger] out[i], wp);
            assert(has_right(now[i], wp));
        }
        if has_right(item, wp) {
            assert(has_right(now[out.len() as int], wp));
        }
        if some_has_right(now, wp) && !has_right(item, wp) {
            let i = choose|i: int| 0 <= i < now.len() && has_right(#[trigger] now[i], wp);
            assert(has_right(out[i], wp));
        }
    }
    assert forall|wp: WavePacket|
        one_at_most_has_left(out, wp) && !(has_left(item, wp) && some_has_left(
            out,
            wp,
        )) implies #[trigger] one_at_most_has_left(now, wp) by {
        assert forall|i: int, k: int|
            0 <= i < now.len() && 0 <= k < now.len() && has_left(#[trigger] now[i], wp)
                && has_left(#[trigger] now[k], wp) implies i == k by {
            if i < out.len() {
                assert(has_left(out[i], wp));
            }
            if k < out.len() {
                assert(has_left(out[k], wp));
            }
        }
    }
    assert forall|wp: WavePacket|
        one_at_most_has_right(out, wp) && !(has_right(item, wp) && some_has_right(
            out,
            wp,
        )) implies #[trigger] one_at_most_has_right(now, wp) by {
        assert forall|i: int, k: int|
            0 <= i < now.len() && 0 <= k < now.len() && has_right(#[trigger] now[i], wp)
                && has_right(#[trigger] now[k], wp) implies i == k by {
            if i < out.len() {
                assert(has_right(out[i], wp));
            }
            if k < out.len() {
                assert(has_right(out[k], wp));
            }
        }
    }
}

/// A step that finds no meeting leaves the open cluster as it is.
proof fn lemma_gathered_alone(
    left: Seq<WavePacket>,
    right: Seq<WavePacket>,
    s: Sweep,
    found: Seq<Finding>,
    open: Option<Gathering>,
)
    requires
        swept(left, right, s, found),
        gathered(left, right, s, found, open),
        is_sweeping(left, right, s),
        !(sweep_step(left, right, s).1 matches Some(Finding::Meeting(_, _))),
    ensures
        gathered(
            left,
            right,
            sweep_step(left, right, s).0,
            noted(found, sweep_step(left, right, s).1),
            open,
        ),
{
    reveal(swept);
    reveal(gathered);
    let (next, item) = sweep_step(left, right, s);
    let now = noted(found, item);
    if let Some(x) = item {
        lemma_push(found, x);
    }
    assert(forall|l: int, r: int| #[trigger]
        now.contains(Finding::Meeting(l, r)) <==> found.contains(Finding::Meeting(l, r)));
    assert(forall|l: int| #[trigger] left_meets(now, l) <==> left_meets(found, l));
    assert(forall|r: int| #[trigger] right_meets(now, r) <==> right_meets(found, r));
    assert forall|r: int| is_done(left, s, r) implies #[trigger] is_done(left, next, r) by {}
    assert forall|r: int| #[trigger]
        right_meets(now, r) && !gathers_right(open, r) implies is_done(left, next, r) by {
        assert(right_meets(found, r));
    }
}

/// What is known of two packets when they are found to meet.
proof fn lemma_at_meeting(
    left: Seq<WavePacket>,
    right: Seq<WavePacket>,
    s: Sweep,
    found: Seq<Finding>,
    open: Option<Gathering>,
)
    requires
        swept(left, right, s, found),
        gathered(left, right, s, found, open),
        s.left < left.len(),
        s.right < right.len(),
    ensures
        gathers_left(open, s.left) <==> left_meets(found, s.left),
        gathers_right(open, s.right) <==> right_meets(found, s.right),
        left_meets(found, s.left) <==> s.met,
        !found.contains(Finding::LeftAlone(s.left)),
        !found.contains(Finding::RightAlone(s.right)),
{
    reveal(swept);
    reveal(gathered);
    if left_meets(found, s.left) {
        let r = choose|r: int| #[trigger] found.contains(Finding::Meeting(s.left, r));
        assert(s.met);
    }
    assert(!is_done(left, s, s.right));
}

/// The packets gathered with two more that meet.
spec fn gathering_with(
    left: Seq<WavePacket>,
    right: Seq<WavePacket>,
    g: Gathering,
    l: int,
    r: int,
) -> Gathering {
    Gathering {
        cluster: g.cluster.joined(left[l], right[r]),
        lefts: if g.lefts.contains(l) {
            g.lefts
        } else {
            g.lefts.push(l)
        },
        rights: if g.rights.contains(r) {
            g.rights
        } else {
            g.rights.push(r)
        },
    }
}

pub proof fn lemma_places_push(places: Seq<int>, p: int)
    ensures
        forall|q: int| #[trigger] places.push(p).contains(q) <==> places.contains(q) || q == p,
{
    assert forall|q: int| #[trigger] places.push(p).contains(q) <==> places.contains(q) || q
        == p by {
        if places.contains(q) {
            assert(places.push(p)[places.index_of(q)] == q);
        }
        assert(places.push(p)[places.len() as int] == p);
        if places.push(p).contains(q) && q != p {
            assert(places[places.push(p).index_of(q)] == q);
        }
    }
}

/// A cluster that two packets join stays sound.
proof fn lemma_sound_with(
    left: Seq<WavePacket>,
    right: Seq<WavePacket>,
    g: Gathering,
    l: int,
    r: int,
)
    requires
        distinct_snowflakes(left),
        distinct_snowflakes(right),
        mirrors(left, g.cluster.left, g.lefts),
        mirrors(right, g.cluster.right, g.rights),
        is_sound_cluster(g.cluster),
        0 <= l < left.len(),
        0 <= r < right.len(),
        left[l].meets(right[r]),
        g.cluster.joined(left[l], right[r]).is_small(),
    ensures
        ({
            let with = gathering_with(left, right, g, l, r);
            &&& mirrors(left, with.cluster.left, with.lefts)
            &&& mirrors(right, with.cluster.right, with.rights)
            &&& is_sound_cluster(with.cluster)
            &&& forall|q: int| #[trigger]
                with.lefts.contains(q) <==> g.lefts.contains(q) || q == l
            &&& forall|q: int| #[trigger]
                with.rights.contains(q) <==> g.rights.contains(q) || q == r
        }),
{
    let with = gathering_with(left, right, g, l, r);
    let old_c = g.cluster;
    let c = with.cluster;
    lemma_mirrors(left, old_c.left, g.lefts, l);
    lemma_mirrors(right, old_c.right, g.rights, r);
    lemma_places_push(g.lefts, l);
    lemma_places_push(g.rights, r);
    lemma_first_with_snowflake(old_c.left, left[l].snowflake);
    lemma_first_with_snowflake(old_c.right, right[r].snowflake);
    let a = first_with_snowflake(old_c.left, left[l].snowflake);
    let b = first_with_snowflake(old_c.right, right[r].snowflake);
    assert(c.left[a] == left[l]);
    assert(c.right[b] == right[r]);
    assert(c.pairs[old_c.pairs.len() as int] == (a as u8, b as u8));
    assert forall|i: int| 0 <= i < c.pairs.len() implies (#[trigger] c.pairs[i]).0 < c.left.len()
        && c.pairs[i].1 < c.right.len() && c.left[c.pairs[i].0 as int].meets(
        c.right[c.pairs[i].1 as int],
    ) by {
        if i < old_c.pairs.len() {
            assert(c.pairs[i] == old_c.pairs[i]);
        }
    }
    assert forall|k: int| 0 <= k < c.left.len() implies #[trigger] in_a_pair_left(c, k) by {
        if k < old_c.left.len() {
            assert(in_a_pair_left(old_c, k));
            let i = choose|i: int| 0 <= i < old_c.pairs.len() && (#[trigger] old_c.pairs[i]).0 == k;
            assert(c.pairs[i].0 == k);
        } else {
            assert(c.pairs[old_c.pairs.len() as int].0 == k);
        }
    }
    assert forall|k: int| 0 <= k < c.right.len() implies #[trigger] in_a_pair_right(c, k) by {
        if k < old_c.right.len() {
            assert(in_a_pair_right(old_c, k));
            let i = choose|i: int| 0 <= i < old_c.pairs.len() && (#[trigger] old_c.pairs[i]).1 == k;
            assert(c.pairs[i].1 == k);
        } else {
            assert(c.pairs[old_c.pairs.len() as int].1 == k);
        }
    }
}

proof fn lemma_sound_pair(left: Seq<WavePacket>, right: Seq<WavePacket>, l: int, r: int)
    requires
        0 <= l < left.len(),
        0 <= r < right.len(),
        left[l].meets(right[r]),
    ensures
        is_sound_cluster(ClusterView::of_pair(left[l], right[r])),
        mirrors(left, ClusterView::of_pair(left[l], right[r]).left, seq![l]),
        mirrors(right, ClusterView::of_pair(left[l], right[r]).right, seq![r]),
        forall|q: int| #[trigger] seq![l].contains(q) <==> q == l,
        forall|q: int| #[trigger] seq![r].contains(q) <==> q == r,
{
    let c = ClusterView::of_pair(left[l], right[r]);
    assert(c.pairs[0] == (0u8, 0u8));
    assert(in_a_pair_left(c, 0));
    assert(in_a_pair_right(c, 0));
    assert(seq![l][0] == l);
    assert(seq![r][0] == r);
}

/// Two packets that meet join the open cluster.
proof fn lemma_gathered_joins(
    left: Seq<WavePacket>,
    right: Seq<WavePacket>,
    s: Sweep,
    found: Seq<Finding>,
    g: Gathering,
)
    requires
        distinct_snowflakes(left),
        distinct_snowflakes(right),
        swept(left, right, s, found),
        gathered(left, right, s, found, Some(g)),
        s.left < left.len(),
        s.right < right.len(),
        left[s.left].meets(right[s.right]),
        g.lefts.contains(s.left) || g.rights.contains(s.right),
        g.cluster.joined(left[s.left], right[s.right]).is_small(),
    ensures
        gathered(
            left,
            right,
            sweep_step(left, right, s).0,
            found.push(Finding::Meeting(s.left, s.right)),
            Some(gathering_with(left, right, g, s.left, s.right)),
        ),
{
    reveal(swept);
    reveal(gathered);
    let l = s.left;
    let r = s.right;
    let x = Finding::Meeting(l, r);
    let next = sweep_step(left, right, s).0;
    let now = found.push(x);
    let with = gathering_with(left, right, g, l, r);
    let before = Some(g);
    let open = Some(with);
    lemma_push(found, x);
    lemma_at_meeting(left, right, s, found, before);
    lemma_sound_with(left, right, g, l, r);
    assert(forall|q: int| #[trigger] gathers_left(open, q) <==> gathers_left(before, q) || q == l);
    assert(forall|q: int| #[trigger]
        gathers_right(open, q) <==> gathers_right(before, q) || q == r);
    assert(left_meets(now, l));
    assert(right_meets(now, r));
    assert forall|q: int| #[trigger]
        right_meets(now, q) && !gathers_right(open, q) implies is_done(left, next, q) by {
        assert(right_meets(found, q));
        assert(!gathers_right(before, q));
        assert(is_done(left, s, q));
    }
    assert forall|a: int, b: int| #[trigger] now.contains(Finding::Meeting(a, b)) implies gathers_left(
        open,
        a,
    ) == gathers_right(open, b) by {
        if found.contains(Finding::Meeting(a, b)) {
            assert(gathers_left(before, a) == gathers_right(before, b));
            if a == l {
                assert(left_meets(found, l));
            }
            if b == r {
                assert(right_meets(found, r));
            }
        }
    }
    assert forall|a: int, b: int, b2: int|
        #![trigger now.contains(Finding::Meeting(a, b2)), right[b]]
        now.contains(Finding::Meeting(a, b2)) && next.pivot <= b < b2 && left[a].meets(
            right[b],
        ) implies now.contains(Finding::Meeting(a, b)) by {
        if found.contains(Finding::Meeting(a, b2)) {
            assert(found.contains(Finding::Meeting(a, b)));
        }
    }
    assert forall|b: int|
        next.pivot <= b < next.right && left[next.left].meets(#[trigger] right[b]) implies now.contains(
        Finding::Meeting(next.left, b),
    ) by {
        if b < s.right {
            assert(found.contains(Finding::Meeting(s.left, b)));
        }
    }
}

/// Two packets that meet, neither of them in the open cluster, begin another; what was
/// gathered before is done with.
proof fn lemma_gathered_opens(
    left: Seq<WavePacket>,
    right: Seq<WavePacket>,
    s: Sweep,
    found: Seq<Finding>,
    before: Option<Gathering>,
)
    requires
        in_order(left),
        in_order(right),
        swept(left, right, s, found),
        gathered(left, right, s, found, before),
        s.left < left.len(),
        s.right < right.len(),
        left[s.left].meets(right[s.right]),
        !gathers_left(before, s.left),
        !gathers_right(before, s.right),
    ensures
        gathered(
            left,
            right,
            sweep_step(left, right, s).0,
            found.push(Finding::Meeting(s.left, s.right)),
            Some(
                Gathering {
                    cluster: ClusterView::of_pair(left[s.left], right[s.right]),
                    lefts: seq![s.left],
                    rights: seq![s.right],
                },
            ),
        ),
{
    reveal(swept);
    reveal(gathered);
    let l = s.left;
    let r = s.right;
    let x = Finding::Meeting(l, r);
    let next = sweep_step(left, right, s).0;
    let now = found.push(x);
    let open = Some(
        Gathering {
            cluster: ClusterView::of_pair(left[l], right[r]),
            lefts: seq![l],
            rights: seq![r],
        },
    );
    lemma_push(found, x);
    lemma_at_meeting(left, right, s, found, before);
    lemma_sound_pair(left, right, l, r);
    assert(forall|q: int| #[trigger] gathers_left(open, q) <==> q == l);
    assert(forall|q: int| #[trigger] gathers_right(open, q) <==> q == r);
    assert(left_meets(now, l));
    assert(right_meets(now, r));
    assert forall|q: int| #[trigger]
        right_meets(now, q) && !gathers_right(open, q) implies is_done(left, next, q) by {
        assert(right_meets(found, q));
        if gathers_right(before, q) {
            // the left packet that it was gathered with meets everything up to it
            let a = choose|a: int| #[trigger] found.contains(Finding::Meeting(a, q));
            assert(gathers_left(before, a));
            assert(left[a].meets(right[q]));
            assert(a < l);
            if q > r {
                assert(left[a].lead() <= left[l].lead());
                assert(right[r].lead() <= right[q].lead());
                assert(left[a].meets(right[r]));
                assert(found.contains(Finding::Meeting(a, r)));
                assert(right_meets(found, r));
            }
            assert(q < r);
            if l + 1 < left.len() && s.pivot < s.right {
                assert(found.contains(Finding::Meeting(l, s.pivot)));
            }
        } else {
            assert(is_done(left, s, q));
        }
    }
    assert forall|a: int, b: int| #[trigger] now.contains(Finding::Meeting(a, b)) implies gathers_left(
        open,
        a,
    ) == gathers_right(open, b) by {
        if found.contains(Finding::Meeting(a, b)) {
            if a == l {
                assert(left_meets(found, l));
            }
            if b == r {
                assert(right_meets(found, r));
            }
        }
    }
    assert forall|a: int, b: int, b2: int|
        #![trigger now.contains(Finding::Meeting(a, b2)), right[b]]
        now.contains(Finding::Meeting(a, b2)) && next.pivot <= b < b2 && left[a].meets(
            right[b],
        ) implies now.contains(Finding::Meeting(a, b)) by {
        if found.contains(Finding::Meeting(a, b2)) {
            assert(found.contains(Finding::Meeting(a, b)));
        }
    }
    assert forall|b: int|
        next.pivot <= b < next.right && left[next.left].meets(#[trigger] right[b]) implies now.contains(
        Finding::Meeting(next.left, b),
    ) by {
        if b < s.right {
            assert(found.contains(Finding::Meeting(s.left, b)));
        }
    }
}

proof fn lemma_placed_left_alone(
    left: Seq<WavePacket>,
    right: Seq<WavePacket>,
    found: Seq<Finding>,
    out: Seq<ClusterItem>,
    open: Option<Gathering>,
    l: int,
)
    requires
        distinct_snowflakes(left),
        placed(left, right, found, out, open),
        0 <= l < left.len(),
        !is_left_found(found, l),
    ensures
        placed(
            left,
            right,
            found.push(Finding::LeftAlone(l)),
            out.push(ClusterItem::LeftAlone(left[l])),
            open,
        ),
{
    reveal(placed);
    let x = Finding::LeftAlone(l);
    let item = ClusterItem::LeftAlone(left[l]);
    let now = found.push(x);
    lemma_push(found, x);
    lemma_out_push(out, item);
    assert forall|q: int| 0 <= q < left.len() implies (has_left(item, left[q]) <==> q == l) by {
        if left[q] == left[l] {
            assert(left[q].snowflake == left[l].snowflake);
        }
    }
    assert forall|q: int| 0 <= q < left.len() implies (#[trigger] is_left_found(now, q) <==> (
    some_has_left(out.push(item), left[q]) || gathers_left(open, q))) by {
        assert(is_left_found(found, q) <==> (some_has_left(out, left[q]) || gathers_left(open, q)));
    }
    assert forall|q: int| 0 <= q < right.len() implies (#[trigger] is_right_found(now, q) <==> (
    some_has_right(out.push(item), right[q]) || gathers_right(open, q))) by {
        assert(is_right_found(found, q) <==> (some_has_right(out, right[q]) || gathers_right(
            open,
            q,
        )));
    }
    assert(left.contains(left[l]));
}

proof fn lemma_placed_right_alone(
    left: Seq<WavePacket>,
    right: Seq<WavePacket>,
    found: Seq<Finding>,
    out: Seq<ClusterItem>,
    open: Option<Gathering>,
    r: int,
)
    requires
        distinct_snowflakes(right),
        placed(left, right, found, out, open),
        0 <= r < right.len(),
        !is_right_found(found, r),
    ensures
        placed(
            left,
            right,
            found.push(Finding::RightAlone(r)),
            out.push(ClusterItem::RightAlone(right[r])),
            open,
        ),
{
    reveal(placed);
    let x = Finding::RightAlone(r);
    let item = ClusterItem::RightAlone(right[r]);
    let now = found.push(x);
    lemma_push(found, x);
    lemma_out_push(out, item);
    assert forall|q: int| 0 <= q < right.len() implies (has_right(item, right[q]) <==> q == r) by {
        if right[q] == right[r] {
            assert(right[q].snowflake == right[r].snowflake);
        }
    }
    assert forall|q: int| 0 <= q < left.len() implies (#[trigger] is_left_found(now, q) <==> (
    some_has_left(out.push(item), left[q]) || gathers_left(open, q))) by {
        assert(is_left_found(found, q) <==> (some_has_left(out, left[q]) || gathers_left(open, q)));
    }
    assert forall|q: int| 0 <= q < right.len() implies (#[trigger] is_right_found(now, q) <==> (
    some_has_right(out.push(item), right[q]) || gathers_right(open, q))) by {
        assert(is_right_found(found, q) <==> (some_has_right(out, right[q]) || gathers_right(
            open,
            q,
        )));
    }
    assert(right.contains(right[r]));
}

/// Two packets found to meet are placed in the open cluster.
proof fn lemma_placed_meeting(
    left: Seq<WavePacket>,
    right: Seq<WavePacket>,
    found: Seq<Finding>,
    out: Seq<ClusterItem>,
    open: Option<Gathering>,
    after: Option<Gathering>,
    l: int,
    r: int,
)
    requires
        placed(left, right, found, out, open),
        0 <= l < left.len(),
        0 <= r < right.len(),
        is_left_found(found, l) ==> gathers_left(open, l),
        is_right_found(found, r) ==> gathers_right(open, r),
        forall|q: int| #[trigger] gathers_left(after, q) <==> gathers_left(open, q) || q == l,
        forall|q: int| #[trigger] gathers_right(after, q) <==> gathers_right(open, q) || q == r,
    ensures
        placed(left, right, found.push(Finding::Meeting(l, r)), out, after),
{
    reveal(placed);
    let x = Finding::Meeting(l, r);
    let now = found.push(x);
    lemma_push(found, x);
    assert forall|q: int| 0 <= q < left.len() implies (#[trigger] is_left_found(now, q) <==> (
    some_has_left(out, left[q]) || gathers_left(after, q))) by {
        assert(is_left_found(found, q) <==> (some_has_left(out, left[q]) || gathers_left(open, q)));
    }
    assert forall|q: int| 0 <= q < right.len() implies (#[trigger] is_right_found(now, q) <==> (
    some_has_right(out, right[q]) || gathers_right(after, q))) by {
        assert(is_right_found(found, q) <==> (some_has_right(out, right[q]) || gathers_right(
            open,
            q,
        )));
    }
    assert forall|q: int|
        0 <= q < left.len() && #[trigger] gathers_left(after, q) implies !some_has_left(
        out,
        left[q],
    ) by {
        assert(is_left_found(found, q) <==> (some_has_left(out, left[q]) || gathers_left(open, q)));
    }
    assert forall|q: int|
        0 <= q < right.len() && #[trigger] gathers_right(after, q) implies !some_has_right(
        out,
        right[q],
    ) by {
        assert(is_right_found(found, q) <==> (some_has_right(out, right[q]) || gathers_right(
            open,
            q,
        )));
    }
}

/// The open cluster comes out as an item.
proof fn lemma_placed_closes(
    left: Seq<WavePacket>,
    right: Seq<WavePacket>,
    found: Seq<Finding>,
    out: Seq<ClusterItem>,
    g: Gathering,
)
    requires
        distinct_snowflakes(left),
        distinct_snowflakes(right),
        placed(left, right, found, out, Some(g)),
        mirrors(left, g.cluster.left, g.lefts),
        mirrors(right, g.cluster.right, g.rights),
        is_sound_cluster(g.cluster),
    ensures
        placed(left, right, found, out.push(ClusterItem::Cluster(g.cluster)), None),
{
    reveal(placed);
    let item = ClusterItem::Cluster(g.cluster);
    let open = Some(g);
    let none: Option<Gathering> = None;
    lemma_out_push(out, item);
    assert forall|q: int| 0 <= q < left.len() implies (has_left(item, left[q]) <==> gathers_left(
        open,
        q,
    )) by {
        lemma_mirrors(left, g.cluster.left, g.lefts, q);
    }
    assert forall|q: int| 0 <= q < right.len() implies (has_right(item, right[q])
        <==> gathers_right(open, q)) by {
        lemma_mirrors(right, g.cluster.right, g.rights, q);
    }
    assert forall|q: int| 0 <= q < left.len() implies (#[trigger] is_left_found(found, q) <==> (
    some_has_left(out.push(item), left[q]) || gathers_left(none, q))) by {
        assert(has_left(item, left[q]) <==> gathers_left(open, q));
    }
    assert forall|q: int| 0 <= q < right.len() implies (#[trigger] is_right_found(found, q) <==> (
    some_has_right(out.push(item), right[q]) || gathers_right(none, q))) by {
        assert(has_right(item, right[q]) <==> gathers_right(open, q));
    }
    assert forall|q: int| 0 <= q < left.len() implies one_at_most_has_left(
        out.push(item),
        #[trigger] left[q],
    ) by {
        assert(has_left(item, left[q]) <==> gathers_left(open, q));
        assert(one_at_most_has_left(out, left[q]));
    }
    assert forall|q: int| 0 <= q < right.len() implies one_at_most_has_right(
        out.push(item),
        #[trigger] right[q],
    ) by {
        assert(has_right(item, right[q]) <==> gathers_right(open, q));
        assert(one_at_most_has_right(out, right[q]));
    }
    assert(comes_from(left, right, item)) by {
        assert forall|wp: WavePacket| #[trigger] has_left(item, wp) implies left.contains(wp) by {
            let k = g.cluster.left.index_of(wp);
            assert(left[g.lefts[k]] == wp);
        }
        assert forall|wp: WavePacket| #[trigger] has_right(item, wp) implies right.contains(
            wp,
        ) by {
            let k = g.cluster.right.index_of(wp);
            assert(right[g.rights[k]] == wp);
        }
    }
}

proof fn lemma_swept_range(
    left: Seq<WavePacket>,
    right: Seq<WavePacket>,
    s: Sweep,
    found: Seq<Finding>,
)
    requires
        swept(left, right, s, found),
    ensures
        in_sweep(left, right, s),
{
    reveal(swept);
}

proof fn lemma_gathered_cluster(
    left: Seq<WavePacket>,
    right: Seq<WavePacket>,
    s: Sweep,
    found: Seq<Finding>,
    g: Gathering,
)
    requires
        gathered(left, right, s, found, Some(g)),
    ensures
        mirrors(left, g.cluster.left, g.lefts),
        mirrors(right, g.cluster.right, g.rights),
        is_sound_cluster(g.cluster),
{
    reveal(gathered);
}

spec fn cluster_of(open: Option<Gathering>) -> Option<ClusterView> {
    match open {
        Some(g) => Some(g.cluster),
        None => None,
    }
}

proof fn lemma_clusters(
    left: Seq<WavePacket>,
    right: Seq<WavePacket>,
    s: Sweep,
    found: Seq<Finding>,
    out: Seq<ClusterItem>,
    open: Option<Gathering>,
)
    requires
        in_order(left),
        in_order(right),
        distinct_snowflakes(left),
        distinct_snowflakes(right),
        swept(left, right, s, found),
        gathered(left, right, s, found, open),
        placed(left, right, found, out, open),
        stays_small(
            pairings_of(left, right, findings(left, right, s)),
            cluster_of(open),
        ),
    ensures
        placed(
            left,
            right,
            found + findings(left, right, s),
            out + clustered(
                pairings_of(left, right, findings(left, right, s)),
                cluster_of(open),
            ),
            None,
        ),
    decreases left.len() - s.left, right.len() - s.right, 1int,
{
    lemma_swept_range(left, right, s, found);
    if !is_sweeping(left, right, s) {
        lemma_clusters_end(left, right, s, found, out, open);
    } else {
        match sweep_step(left, right, s).1 {
            None => {
                lemma_step(left, right, s, found);
                lemma_gathered_alone(left, right, s, found, open);
                lemma_swept_range(left, right, sweep_step(left, right, s).0, found);
                lemma_clusters(left, right, sweep_step(left, right, s).0, found, out, open);
            },
            Some(Finding::LeftAlone(_)) => {
                lemma_clusters_left_alone(left, right, s, found, out, open);
            },
            Some(Finding::RightAlone(_)) => {
                lemma_clusters_right_alone(left, right, s, found, out, open);
            },
            Some(Finding::Meeting(l, r)) => {
                lemma_at_meeting(left, right, s, found, open);
                if gathers_left(open, l) || gathers_right(open, r) {
                    lemma_clusters_join(left, right, s, found, out, open);
                } else {
                    if let Some(g) = open {
                        lemma_gathered_cluster(left, right, s, found, g);
                        lemma_mirrors(left, g.cluster.left, g.lefts, l);
                        lemma_mirrors(right, g.cluster.right, g.rights, r);
                    }
                    lemma_clusters_open(left, right, s, found, out, open);
                }
            },
        }
    }
}

/// The end of the sweep.
proof fn lemma_clusters_end(
    left: Seq<WavePacket>,
    right: Seq<WavePacket>,
    s: Sweep,
    found: Seq<Finding>,
    out: Seq<ClusterItem>,
    open: Option<Gathering>,
)
    requires
        in_order(left),
        in_order(right),
        distinct_snowflakes(left),
        distinct_snowflakes(right),
        swept(left, right, s, found),
        gathered(left, right, s, found, open),
        placed(left, right, found, out, open),
        stays_small(
            pairings_of(left, right, findings(left, right, s)),
            cluster_of(open),
        ),
        !is_sweeping(left, right, s),
    ensures
        placed(
            left,
            right,
            found + findings(left, right, s),
            out + clustered(
                pairings_of(left, right, findings(left, right, s)),
                cluster_of(open),
            ),
            None,
        ),
    decreases left.len() - s.left, right.len() - s.right, 0int,
{
    lemma_swept_range(left, right, s, found);
    let coming = findings(left, right, s);
    let pairings = pairings_of(left, right, coming);
    assert(found + coming =~= found);
    match open {
        Some(g) => {
            lemma_gathered_cluster(left, right, s, found, g);
            lemma_placed_closes(left, right, found, out, g);
            assert(out + clustered(pairings, cluster_of(open)) =~= out.push(
                ClusterItem::Cluster(g.cluster),
            ));
        },
        None => {
            assert(out + clustered(pairings, cluster_of(open)) =~= out);
        },
    }
}

/// The step in which a left packet is found alone.
proof fn lemma_clusters_left_alone(
    left: Seq<WavePacket>,
    right: Seq<WavePacket>,
    s: Sweep,
    found: Seq<Finding>,
    out: Seq<ClusterItem>,
    open: Option<Gathering>,
)
    requires
        in_order(left),
        in_order(right),
        distinct_snowflakes(left),
        distinct_snowflakes(right),
        swept(left, right, s, found),
        gathered(left, right, s, found, open),
        placed(left, right, found, out, open),
        stays_small(
            pairings_of(left, right, findings(left, right, s)),
            cluster_of(open),
        ),
        is_sweeping(left, right, s),
        sweep_step(left, right, s).1 matches Some(Finding::LeftAlone(_)),
    ensures
        placed(
            left,
            right,
            found + findings(left, right, s),
            out + clustered(
                pairings_of(left, right, findings(left, right, s)),
                cluster_of(open),
            ),
            None,
        ),
    decreases left.len() - s.left, right.len() - s.right, 0int,
{
    lemma_swept_range(left, right, s, found);
    let (next, item) = sweep_step(left, right, s);
    let l = s.left;
    let x = Finding::LeftAlone(l);
    let coming = findings(left, right, s);
    let rest = findings(left, right, next);
    let later = pairings_of(left, right, rest);
    let pairings = pairings_of(left, right, coming);
    let more = out.push(ClusterItem::LeftAlone(left[l]));
    assert(item == Some(x));
    assert(coming == seq![x] + rest);
    assert(found.push(x) + rest =~= found + coming);
    assert(pairings[0] == pairing_of(left, right, x));
    assert(pairings.drop_first() =~= later);
    lemma_step(left, right, s, found);
    lemma_swept_range(left, right, next, found.push(x));
    lemma_gathered_alone(left, right, s, found, open);
    assert(!is_left_found(found, l)) by {
        reveal(swept);
        if left_meets(found, l) {
            let r = choose|r: int| #[trigger] found.contains(Finding::Meeting(l, r));
            assert(s.met);
        }
    }
    lemma_placed_left_alone(left, right, found, out, open, l);
    lemma_clusters(left, right, next, found.push(x), more, open);
    assert(more + clustered(later, cluster_of(open)) =~= out + clustered(
        pairings,
        cluster_of(open),
    ));
}

/// The step in which a right packet is found alone.
proof fn lemma_clusters_right_alone(
    left: Seq<WavePacket>,
    right: Seq<WavePacket>,
    s: Sweep,
    found: Seq<Finding>,
    out: Seq<ClusterItem>,
    open: Option<Gathering>,
)
    requires
        in_order(left),
        in_order(right),
        distinct_snowflakes(left),
        distinct_snowflakes(right),
        swept(left, right, s, found),
        gathered(left, right, s, found, open),
        placed(left, right, found, out, open),
        stays_small(
            pairings_of(left, right, findings(left, right, s)),
            cluster_of(open),
        ),
        is_sweeping(left, right, s),
        sweep_step(left, right, s).1 matches Some(Finding::RightAlone(_)),
    ensures
        placed(
            left,
            right,
            found + findings(left, right, s),
            out + clustered(
                pairings_of(left, right, findings(left, right, s)),
                cluster_of(open),
            ),
            None,
        ),
    decreases left.len() - s.left, right.len() - s.right, 0int,
{
    lemma_swept_range(left, right, s, found);
    let (next, item) = sweep_step(left, right, s);
    let r = s.right;
    let x = Finding::RightAlone(r);
    let now = found.push(x);
    let coming = findings(left, right, s);
    let rest = findings(left, right, next);
    let later = pairings_of(left, right, rest);
    let pairings = pairings_of(left, right, coming);
    let more = out.push(ClusterItem::RightAlone(right[r]));
    assert(item == Some(x));
    assert(coming == seq![x] + rest);
    assert(now + rest =~= found + coming);
    assert(pairings[0] == pairing_of(left, right, x));
    assert(pairings.drop_first() =~= later);
    lemma_step(left, right, s, found);
    lemma_swept_range(left, right, next, found.push(x));
    lemma_gathered_alone(left, right, s, found, open);
    assert(!is_right_found(found, r)) by {
        // were it found before, it could not be found alone once more
        reveal(swept);
        lemma_push(found, x);
        assert(!is_done(left, s, r));
        assert(now.contains(x));
        assert(is_done(left, next, r));
    }
    lemma_placed_right_alone(left, right, found, out, open, r);
    lemma_clusters(left, right, next, now, more, open);
    assert(more + clustered(later, cluster_of(open)) =~= out + clustered(
        pairings,
        cluster_of(open),
    ));
}

/// The step in which a meeting joins the open cluster.
proof fn lemma_clusters_join(
    left: Seq<WavePacket>,
    right: Seq<WavePacket>,
    s: Sweep,
    found: Seq<Finding>,
    out: Seq<ClusterItem>,
    open: Option<Gathering>,
)
    requires
        in_order(left),
        in_order(right),
        distinct_snowflakes(left),
        distinct_snowflakes(right),
        swept(left, right, s, found),
        gathered(left, right, s, found, open),
        placed(left, right, found, out, open),
        stays_small(
            pairings_of(left, right, findings(left, right, s)),
            cluster_of(open),
        ),
        s.left < left.len(),
        s.right < right.len(),
        left[s.left].meets(right[s.right]),
        gathers_left(open, s.left) || gathers_right(open, s.right),
    ensures
        placed(
            left,
            right,
            found + findings(left, right, s),
            out + clustered(
                pairings_of(left, right, findings(left, right, s)),
                cluster_of(open),
            ),
            None,
        ),
    decreases left.len() - s.left, right.len() - s.right, 0int,
{
    lemma_swept_range(left, right, s, found);
    let l = s.left;
    let r = s.right;
    let x = Finding::Meeting(l, r);
    let next = sweep_step(left, right, s).0;
    let now = found.push(x);
    let coming = findings(left, right, s);
    let rest = findings(left, right, next);
    let later = pairings_of(left, right, rest);
    let pairings = pairings_of(left, right, coming);
    let g = open->0;
    let with = gathering_with(left, right, g, l, r);
    lemma_gathered_cluster(left, right, s, found, g);
    assert(coming == seq![x] + rest);
    assert(now + rest =~= found + coming);
    assert(pairings[0] == pairing_of(left, right, x));
    assert(pairings.drop_first() =~= later);
    lemma_step(left, right, s, found);
    lemma_swept_range(left, right, next, found.push(x));
    lemma_at_meeting(left, right, s, found, open);
    lemma_mirrors(left, g.cluster.left, g.lefts, l);
    lemma_mirrors(right, g.cluster.right, g.rights, r);
    assert(stays_small(later, Some(with.cluster)));
    lemma_gathered_joins(left, right, s, found, g);
    lemma_sound_with(left, right, g, l, r);
    lemma_placed_meeting(left, right, found, out, open, Some(with), l, r);
    lemma_clusters(left, right, next, now, out, Some(with));
}

/// The step in which a meeting begins a cluster.
proof fn lemma_clusters_open(
    left: Seq<WavePacket>,
    right: Seq<WavePacket>,
    s: Sweep,
    found: Seq<Finding>,
    out: Seq<ClusterItem>,
    open: Option<Gathering>,
)
    requires
        in_order(left),
        in_order(right),
        distinct_snowflakes(left),
        distinct_snowflakes(right),
        swept(left, right, s, found),
        gathered(left, right, s, found, open),
        placed(left, right, found, out, open),
        s.left < left.len(),
        s.right < right.len(),
        left[s.left].meets(right[s.right]),
        !gathers_left(open, s.left),
        !gathers_right(open, s.right),
        open matches Some(g) ==> !g.cluster.touches(left[s.left], right[s.right]),
        stays_small(
            pairings_of(left, right, findings(left, right, s)),
            cluster_of(open),
        ),
    ensures
        placed(
            left,
            right,
            found + findings(left, right, s),
            out + clustered(
                pairings_of(left, right, findings(left, right, s)),
                cluster_of(open),
            ),
            None,
        ),
    decreases left.len() - s.left, right.len() - s.right, 0int,
{
    lemma_swept_range(left, right, s, found);
    let l = s.left;
    let r = s.right;
    let x = Finding::Meeting(l, r);
    let now = found.push(x);
    let next = sweep_step(left, right, s).0;
    let rest = findings(left, right, next);
    let later = pairings_of(left, right, rest);
    let coming = findings(left, right, s);
    let pairings = pairings_of(left, right, coming);
    let cluster = ClusterView::of_pair(left[l], right[r]);
    let begun = Some(Gathering { cluster, lefts: seq![l], rights: seq![r] });
    let none: Option<Gathering> = None;
    assert(coming == seq![x] + rest);
    assert(now + rest =~= found + coming);
    assert(pairings[0] == pairing_of(left, right, x));
    assert(pairings.drop_first() =~= later);
    lemma_step(left, right, s, found);
    lemma_swept_range(left, right, next, found.push(x));
    lemma_at_meeting(left, right, s, found, open);
    lemma_gathered_opens(left, right, s, found, open);
    lemma_sound_pair(left, right, l, r);
    let more = match open {
        Some(g) => out.push(ClusterItem::Cluster(g.cluster)),
        None => out,
    };
    if let Some(g) = open {
        lemma_gathered_cluster(left, right, s, found, g);
        lemma_placed_closes(left, right, found, out, g);
    }
    assert(placed(left, right, found, more, none));
    lemma_placed_meeting(left, right, found, more, none, begun, l, r);
    lemma_clusters(left, right, next, now, more, begun);
    assert(more + clustered(later, cluster_of(begun)) =~= out + clustered(
        pairings,
        cluster_of(open),
    ));
}

/// What clustering makes of two batches.
pub open spec fn clusters_of(left: Seq<WavePacket>, right: Seq<WavePacket>) -> Seq<ClusterItem> {
    clustered(pairings_of(left, right, findings(left, right, sweep_start())), None)
}

/// No cluster of the two batches grows beyond what its pairs can name.
pub open spec fn clusters_stay_small(left: Seq<WavePacket>, right: Seq<WavePacket>) -> bool {
    stays_small(pairings_of(left, right, findings(left, right, sweep_start())), None)
}

/// Every packet of two ports in order comes out of the clustering once, alone or in a
/// cluster, and nothing else does. Each cluster has some pair and no packet twice; its
/// pairs name packets of it that overlap, and every packet of it is in one.
pub proof fn every_packet_comes_out_once(left: Seq<WavePacket>, right: Seq<WavePacket>)
    requires
        in_order(left),
        in_order(right),
        distinct_snowflakes(left),
        distinct_snowflakes(right),
        clusters_stay_small(left, right),
    ensures
        forall|l: int|
            0 <= l < left.len() ==> some_has_left(clusters_of(left, right), #[trigger] left[l])
                && one_at_most_has_left(clusters_of(left, right), left[l]),
        forall|r: int|
            0 <= r < right.len() ==> some_has_right(clusters_of(left, right), #[trigger] right[r])
                && one_at_most_has_right(clusters_of(left, right), right[r]),
        forall|i: int|
            0 <= i < clusters_of(left, right).len() ==> (#[trigger] clusters_of(
                left,
                right,
            )[i] matches ClusterItem::Cluster(cluster) ==> is_sound_cluster(cluster)),
        forall|i: int|
            0 <= i < clusters_of(left, right).len() ==> comes_from(
                left,
                right,
                #[trigger] clusters_of(left, right)[i],
            ),
{
    let s = sweep_start();
    let none: Seq<Finding> = seq![];
    let nothing: Seq<ClusterItem> = seq![];
    let open: Option<Gathering> = None;
    let found = findings(left, right, s);
    let items = clusters_of(left, right);
    every_packet_is_found_once(left, right);
    assert(swept(left, right, s, none)) by {
        reveal(swept);
    }
    assert(gathered(left, right, s, none, open)) by {
        reveal(gathered);
    }
    assert(placed(left, right, none, nothing, open)) by {
        reveal(placed);
    }
    lemma_clusters(left, right, s, none, nothing, open);
    assert(none + found =~= found);
    assert(nothing + items =~= items);
    assert forall|l: int| 0 <= l < left.len() implies some_has_left(items, #[trigger] left[l])
        && one_at_most_has_left(items, left[l]) by {
        reveal(placed);
        assert(left_found_once(found, l));
        assert(is_left_found(found, l));
    }
    assert forall|r: int| 0 <= r < right.len() implies some_has_right(items, #[trigger] right[r])
        && one_at_most_has_right(items, right[r]) by {
        reveal(placed);
        assert(right_found_once(found, r));
        assert(is_right_found(found, r));
    }
    reveal(placed);
}

/// Places of a batch, each once, are no more than the batch is long.
proof fn lemma_places_fit(places: Seq<int>, n: nat)
    requires
        places.no_duplicates(),
        forall|i: int| 0 <= i < places.len() ==> 0 <= #[trigger] places[i] < n,
    ensures
        places.len() <= n,
{
    let all = vstd::set_lib::set_int_range(0, n as int);
    vstd::set_lib::lemma_int_range(0, n as int);
    places.unique_seq_to_set();
    assert(places.to_set().subset_of(all)) by {
        assert forall|p: int| places.to_set().contains(p) implies all.contains(p) by {
            let i = places.index_of(p);
            assert(places[i] == p);
        }
    }
    vstd::set_lib::lemma_len_subset(places.to_set(), all);
}

/// Every finding speaks of packets that there are.
spec fn in_range(left: Seq<WavePacket>, right: Seq<WavePacket>, found: Seq<Finding>) -> bool {
    forall|i: int|
        0 <= i < found.len() ==> (#[trigger] found[i] matches Finding::Meeting(l, r) ==> 0 <= l
            < left.len() && 0 <= r < right.len())
}

proof fn lemma_in_range(left: Seq<WavePacket>, right: Seq<WavePacket>, s: Sweep)
    requires
        in_sweep(left, right, s),
    ensures
        in_range(left, right, findings(left, right, s)),
    decreases left.len() - s.left, right.len() - s.right,
{
    if is_sweeping(left, right, s) {
        let (next, item) = sweep_step(left, right, s);
        lemma_in_range(left, right, next);
        let rest = findings(left, right, next);
        if let Some(x) = item {
            let all = seq![x] + rest;
            assert forall|i: int| 0 <= i < all.len() implies (
            #[trigger] all[i] matches Finding::Meeting(l, r) ==> 0 <= l < left.len() && 0 <= r
                < right.len()) by {
                if i > 0 {
                    assert(all[i] == rest[i - 1]);
                }
            }
        }
    }
}

proof fn lemma_small(
    left: Seq<WavePacket>,
    right: Seq<WavePacket>,
    found: Seq<Finding>,
    open: Option<Gathering>,
)
    requires
        distinct_snowflakes(left),
        distinct_snowflakes(right),
        left.len() <= 256,
        right.len() <= 256,
        in_range(left, right, found),
        open matches Some(g) ==> mirrors(left, g.cluster.left, g.lefts) && mirrors(
            right,
            g.cluster.right,
            g.rights,
        ) && g.lefts.no_duplicates() && g.rights.no_duplicates(),
    ensures
        stays_small(pairings_of(left, right, found), cluster_of(open)),
    decreases found.len(),
{
    if let Some(g) = open {
        lemma_places_fit(g.lefts, left.len());
        lemma_places_fit(g.rights, right.len());
    }
    if found.len() > 0 {
        let rest = found.drop_first();
        let pairings = pairings_of(left, right, found);
        assert(pairings.drop_first() =~= pairings_of(left, right, rest));
        assert(in_range(left, right, rest)) by {
            assert forall|i: int| 0 <= i < rest.len() implies (
            #[trigger] rest[i] matches Finding::Meeting(l, r) ==> 0 <= l < left.len() && 0 <= r
                < right.len()) by {
                assert(found[i + 1] == rest[i]);
            }
        }
        assert(pairings[0] == pairing_of(left, right, found[0]));
        match found[0] {
            Finding::Meeting(l, r) => {
                let begun = Some(
                    Gathering {
                        cluster: ClusterView::of_pair(left[l], right[r]),
                        lefts: seq![l],
                        rights: seq![r],
                    },
                );
                lemma_small(left, right, rest, begun);
                if let Some(g) = open {
                    lemma_mirrors(left, g.cluster.left, g.lefts, l);
                    lemma_mirrors(right, g.cluster.right, g.rights, r);
                    let with = gathering_with(left, right, g, l, r);
                    assert(with.lefts.no_duplicates()) by {
                        if !g.lefts.contains(l) {
                            assert forall|a: int, b: int|
                                0 <= a < with.lefts.len() && 0 <= b < with.lefts.len() && a
                                    != b implies with.lefts[a] != with.lefts[b] by {
                                if a < g.lefts.len() {
                                    assert(g.lefts.contains(g.lefts[a]));
                                }
                                if b < g.lefts.len() {
                                    assert(g.lefts.contains(g.lefts[b]));
                                }
                            }
                        }
                    }
                    assert(with.rights.no_duplicates()) by {
                        if !g.rights.contains(r) {
                            assert forall|a: int, b: int|
                                0 <= a < with.rights.len() && 0 <= b < with.rights.len() && a
                                    != b implies with.rights[a] != with.rights[b] by {
                                if a < g.rights.len() {
                                    assert(g.rights.contains(g.rights[a]));
                                }
                                if b < g.rights.len() {
                                    assert(g.rights.contains(g.rights[b]));
                                }
                            }
                        }
                    }
                    lemma_small(left, right, rest, Some(with));
                }
            },
            _ => {
                lemma_small(left, right, rest, open);
            },
        }
    }
}

/// Batches of up to 256 packets, each with its own id, make no cluster that is too
/// large.
pub proof fn short_batches_stay_small(left: Seq<WavePacket>, right: Seq<WavePacket>)
    requires
        distinct_snowflakes(left),
        distinct_snowflakes(right),
        left.len() <= 256,
        right.len() <= 256,
    ensures
        clusters_stay_small(left, right),
{
    lemma_in_range(left, right, sweep_start());
    let open: Option<Gathering> = None;
    lemma_small(left, right, findings(left, right, sweep_start()), open);
}

} // verus!
