//! The sweep over two ports finds the packets that overlap, all of them, and in order.

use vstd::prelude::*;

use crate::nodes::packet::{alike, WavePacket};
use crate::nodes::pairing::{
    findings, in_sweep, is_sweeping, sweep_start, sweep_step, Finding, Sweep,
};
use crate::nodes::pairing_laws::{
    at_most_once, every_packet_is_found_once, in_order, left_found_once, left_meets,
    right_found_once, right_meets,
};

verus! {

/// One meeting comes before another: that of an earlier left packet, or of the same one with
/// an earlier right packet.
pub open spec fn is_before(l: int, r: int, l2: int, r2: int) -> bool {
    l < l2 || (l == l2 && r < r2)
}

/// Meetings come left packet by left packet, and for each in the order of the right ones.
pub open spec fn meetings_in_order(found: Seq<Finding>) -> bool {
    forall|i: int, k: int|
        0 <= i < k < found.len() ==> (#[trigger] found[i] matches Finding::Meeting(l, r)
            ==> (#[trigger] found[k] matches Finding::Meeting(l2, r2) ==> is_before(l, r, l2, r2)))
}

/// The right packets that the sweep has left behind end before the left ones to come.
spec fn is_behind(left: Seq<WavePacket>, right: Seq<WavePacket>, s: Sweep) -> bool {
    s.left < left.len() ==> forall|r: int|
        0 <= r < s.pivot ==> (#[trigger] right[r]).trail() <= left[s.left].lead()
}

/// What a sweep that stands there finds of the meetings.
spec fn finds_the_rest(
    left: Seq<WavePacket>,
    right: Seq<WavePacket>,
    s: Sweep,
    found: Seq<Finding>,
) -> bool {
    &&& forall|l: int, r: int| #[trigger]
        found.contains(Finding::Meeting(l, r)) <==> 0 <= l < left.len() && 0 <= r < right.len()
            && left[l].meets(right[r]) && !is_before(l, r, s.left, s.right)
    &&& meetings_in_order(found)
}

proof fn lemma_in_front(first: Finding, rest: Seq<Finding>, x: Finding)
    ensures
        (seq![first] + rest).contains(x) <==> x == first || rest.contains(x),
{
    let all = seq![first] + rest;
    assert(all[0] == first);
    if rest.contains(x) {
        let i = rest.index_of(x);
        assert(all[i + 1] == x);
    }
    if all.contains(x) {
        let i = all.index_of(x);
        if i > 0 {
            assert(rest[i - 1] == x);
        }
    }
}

/// A step past a right packet that the left one does not meet, or to the next left packet,
/// passes no meeting.
proof fn lemma_no_meeting_passed(left: Seq<WavePacket>, right: Seq<WavePacket>, s: Sweep)
    requires
        in_order(left),
        in_order(right),
        alike(left, right),
        in_sweep(left, right, s),
        is_sweeping(left, right, s),
        is_behind(left, right, s),
        !(sweep_step(left, right, s).1 matches Some(Finding::Meeting(l, r))),
    ensures
        is_behind(left, right, sweep_step(left, right, s).0),
        forall|l: int, r: int|
            0 <= l < left.len() && 0 <= r < right.len() && (#[trigger] left[l]).meets(
                #[trigger] right[r],
            ) ==> is_before(l, r, s.left, s.right) == is_before(
                l,
                r,
                sweep_step(left, right, s).0.left,
                sweep_step(left, right, s).0.right,
            ),
{
    let next = sweep_step(left, right, s).0;
    if s.left < left.len() {
        let lp = left[s.left];
        if s.right < right.len() && right[s.right].time < lp.time {
            assert forall|r: int| 0 <= r < next.pivot implies (#[trigger] right[r]).trail()
                <= left[next.left].lead() by {
                assert(right[r].trail() <= right[s.right].trail());
            }
        } else if next.left > s.left {
            assert forall|r: int|
                s.right <= r < right.len() implies !lp.meets(#[trigger] right[r]) by {
                assert(right[s.right].lead() <= right[r].lead());
                assert((lp.time_sigma > 0) == (right[s.right].time_sigma > 0));
                assert((lp.time_sigma > 0) == (right[r].time_sigma > 0));
            }
            assert forall|r: int|
                next.left < left.len() && 0 <= r < next.pivot implies !left[next.left].meets(
                #[trigger] right[r],
            ) && right[r].trail() <= left[next.left].lead() by {
                assert(lp.lead() <= left[next.left].lead());
            }
        }
    }
}

proof fn lemma_finds_the_rest(left: Seq<WavePacket>, right: Seq<WavePacket>, s: Sweep)
    requires
        in_order(left),
        in_order(right),
        alike(left, right),
        in_sweep(left, right, s),
        is_behind(left, right, s),
    ensures
        finds_the_rest(left, right, s, findings(left, right, s)),
    decreases left.len() - s.left, right.len() - s.right,
{
    let found = findings(left, right, s);
    if is_sweeping(left, right, s) {
        let (next, item) = sweep_step(left, right, s);
        let rest = findings(left, right, next);
        let meets = item matches Some(Finding::Meeting(l, r));
        if !meets {
            lemma_no_meeting_passed(left, right, s);
        }
        lemma_finds_the_rest(left, right, next);
        if let Some(first) = item {
            assert forall|l: int, r: int| #[trigger]
                found.contains(Finding::Meeting(l, r)) <==> 0 <= l < left.len() && 0 <= r
                    < right.len() && left[l].meets(right[r]) && !is_before(
                    l,
                    r,
                    s.left,
                    s.right,
                ) by {
                lemma_in_front(first, rest, Finding::Meeting(l, r));
                assert(rest.contains(Finding::Meeting(l, r)) <==> 0 <= l < left.len() && 0 <= r
                    < right.len() && left[l].meets(right[r]) && !is_before(
                    l,
                    r,
                    next.left,
                    next.right,
                ));
            }
            assert forall|i: int, k: int| 0 <= i < k < found.len() implies (
            #[trigger] found[i] matches Finding::Meeting(l, r) ==> (
            #[trigger] found[k] matches Finding::Meeting(l2, r2) ==> is_before(
                l,
                r,
                l2,
                r2,
            ))) by {
                assert(found[k] == rest[k - 1]);
                if i > 0 {
                    assert(found[i] == rest[i - 1]);
                } else if let Finding::Meeting(l2, r2) = found[k] {
                    assert(rest.contains(Finding::Meeting(l2, r2)));
                }
            }
        } else {
            assert forall|l: int, r: int| #[trigger]
                found.contains(Finding::Meeting(l, r)) <==> 0 <= l < left.len() && 0 <= r
                    < right.len() && left[l].meets(right[r]) && !is_before(
                    l,
                    r,
                    s.left,
                    s.right,
                ) by {
                assert(rest.contains(Finding::Meeting(l, r)) <==> 0 <= l < left.len() && 0 <= r
                    < right.len() && left[l].meets(right[r]) && !is_before(
                    l,
                    r,
                    next.left,
                    next.right,
                ));
            }
        }
    }
}

/// The sweep finds two packets to meet exactly when they overlap, and once; the meetings
/// come left packet by left packet. A packet is found alone exactly when it overlaps none
/// of the other port, and once.
pub proof fn the_sweep_finds_what_overlaps(left: Seq<WavePacket>, right: Seq<WavePacket>)
    requires
        in_order(left),
        in_order(right),
        alike(left, right),
    ensures
        ({
            let found = findings(left, right, sweep_start());
            &&& forall|l: int, r: int| #[trigger]
                found.contains(Finding::Meeting(l, r)) <==> 0 <= l < left.len() && 0 <= r
                    < right.len() && left[l].meets(right[r])
            &&& forall|l: int, r: int| #[trigger] at_most_once(found, Finding::Meeting(l, r))
            &&& meetings_in_order(found)
            &&& forall|l: int|
                0 <= l < left.len() ==> (#[trigger] found.contains(Finding::LeftAlone(l))
                    <==> forall|r: int|
                    0 <= r < right.len() ==> !left[l].meets(#[trigger] right[r]))
            &&& forall|r: int|
                0 <= r < right.len() ==> (#[trigger] found.contains(Finding::RightAlone(r))
                    <==> forall|l: int|
                    0 <= l < left.len() ==> !(#[trigger] left[l]).meets(right[r]))
            &&& forall|l: int|
                0 <= l < left.len() ==> #[trigger] at_most_once(found, Finding::LeftAlone(l))
            &&& forall|r: int|
                0 <= r < right.len() ==> #[trigger] at_most_once(found, Finding::RightAlone(r))
        }),
{
    let found = findings(left, right, sweep_start());
    lemma_finds_the_rest(left, right, sweep_start());
    every_packet_is_found_once(left, right);
    assert forall|l: int| 0 <= l < left.len() implies (#[trigger] found.contains(
        Finding::LeftAlone(l),
    ) <==> forall|r: int| 0 <= r < right.len() ==> !left[l].meets(#[trigger] right[r])) by {
        assert(left_found_once(found, l));
        if left_meets(found, l) {
            let r = choose|r: int| #[trigger] found.contains(Finding::Meeting(l, r));
            assert(left[l].meets(right[r]));
        } else {
            assert forall|r: int| 0 <= r < right.len() implies !left[l].meets(
                #[trigger] right[r],
            ) by {
                assert(!found.contains(Finding::Meeting(l, r)));
            }
        }
    }
    assert forall|r: int| 0 <= r < right.len() implies (#[trigger] found.contains(
        Finding::RightAlone(r),
    ) <==> forall|l: int| 0 <= l < left.len() ==> !(#[trigger] left[l]).meets(right[r])) by {
        assert(right_found_once(found, r));
        if right_meets(found, r) {
            let l = choose|l: int| #[trigger] found.contains(Finding::Meeting(l, r));
            assert(left[l].meets(right[r]));
        } else {
            assert forall|l: int| 0 <= l < left.len() implies !(#[trigger] left[l]).meets(
                right[r],
            ) by {
                assert(!found.contains(Finding::Meeting(l, r)));
            }
        }
    }
    assert forall|l: int| 0 <= l < left.len() implies #[trigger] at_most_once(
        found,
        Finding::LeftAlone(l),
    ) by {
        assert(left_found_once(found, l));
    }
    assert forall|r: int| 0 <= r < right.len() implies #[trigger] at_most_once(
        found,
        Finding::RightAlone(r),
    ) by {
        assert(right_found_once(found, r));
    }
    assert forall|l: int, r: int| #[trigger] at_most_once(found, Finding::Meeting(l, r)) by {
        assert forall|i: int, k: int|
            0 <= i < found.len() && 0 <= k < found.len() && #[trigger] found[i]
                == Finding::Meeting(l, r) && #[trigger] found[k] == Finding::Meeting(
                l,
                r,
            ) implies i == k by {
            if i < k {
                assert(is_before(l, r, l, r));
            } else if k < i {
                assert(is_before(l, r, l, r));
            }
        }
    }
}

} // verus!
