//! Clusters are what hangs together: packets of two ports, and the chains of overlaps that
//! connect them.

use vstd::prelude::*;

use crate::nodes::dual_port_iterator::{
    clustered, first_with_snowflake, lemma_first_with_snowflake, stays_small, ClusterItem,
    ClusterView,
};
use crate::nodes::packet::{alike, WavePacket};
use crate::nodes::pairing::{findings, pairing_of, pairings_of, sweep_start, Finding};
use crate::nodes::pairing_laws::{
    clusters_of, clusters_stay_small, distinct_snowflakes, every_packet_comes_out_once,
    every_packet_is_found_once, has_left, has_right, in_order, lemma_mirrors, lemma_places_push,
    mirrors, one_at_most_has_left, one_at_most_has_right,
};
use crate::nodes::sweep_laws::{is_before, meetings_in_order, the_sweep_finds_what_overlaps};

verus! {

/// The two packets, by their places, are there and overlap.
pub open spec fn overlap(left: Seq<WavePacket>, right: Seq<WavePacket>, pair: (int, int)) -> bool {
    0 <= pair.0 < left.len() && 0 <= pair.1 < right.len() && left[pair.0].meets(right[pair.1])
}

/// Places one after the other.
pub open spec fn increasing(places: Seq<int>) -> bool {
    forall|i: int, k: int|
        0 <= i < k < places.len() ==> #[trigger] places[i] < #[trigger] places[k]
}

/// The two pairs have a packet in common.
pub open spec fn share_a_packet(a: (int, int), b: (int, int)) -> bool {
    a.0 == b.0 || a.1 == b.1
}

/// The pair has a packet in common with one before that place.
pub open spec fn hangs_on(meetings: Seq<(int, int)>, k: int) -> bool {
    exists|j: int| 0 <= j < k && share_a_packet(#[trigger] meetings[j], meetings[k])
}

/// A cluster by the places that its packets and pairs have in the batches.
pub ghost struct Layout {
    pub cluster: ClusterView,
    pub lefts: Seq<int>,
    pub rights: Seq<int>,
    pub meetings: Seq<(int, int)>,
}

/// The packets of the cluster stand as in the batches. Its pairs are overlaps, in order of
/// the left packets and then of the right ones; each but the first has a packet in common
/// with an earlier one.
pub open spec fn is_layout(left: Seq<WavePacket>, right: Seq<WavePacket>, g: Layout) -> bool {
    let c = g.cluster;
    &&& g.meetings.len() == c.pairs.len()
    &&& g.meetings.len() > 0
    &&& mirrors(left, c.left, g.lefts)
    &&& mirrors(right, c.right, g.rights)
    &&& increasing(g.lefts)
    &&& increasing(g.rights)
    &&& forall|k: int|
        0 <= k < g.meetings.len() ==> {
            &&& overlap(left, right, #[trigger] g.meetings[k])
            &&& c.pairs[k].0 < g.lefts.len()
            &&& c.pairs[k].1 < g.rights.len()
            &&& g.lefts[c.pairs[k].0 as int] == g.meetings[k].0
            &&& g.rights[c.pairs[k].1 as int] == g.meetings[k].1
        }
    &&& forall|i: int, k: int|
        0 <= i < k < g.meetings.len() ==> is_before(
            (#[trigger] g.meetings[i]).0,
            g.meetings[i].1,
            (#[trigger] g.meetings[k]).0,
            g.meetings[k].1,
        )
    &&& forall|k: int| 0 < k < g.meetings.len() ==> #[trigger] hangs_on(g.meetings, k)
    &&& forall|i: int| 0 <= i < g.lefts.len() ==> #[trigger] left_in(g.meetings, g.lefts[i])
    &&& forall|i: int| 0 <= i < g.rights.len() ==> #[trigger] right_in(g.meetings, g.rights[i])
}

pub open spec fn left_in(meetings: Seq<(int, int)>, l: int) -> bool {
    exists|k: int| 0 <= k < meetings.len() && (#[trigger] meetings[k]).0 == l
}

pub open spec fn right_in(meetings: Seq<(int, int)>, r: int) -> bool {
    exists|k: int| 0 <= k < meetings.len() && (#[trigger] meetings[k]).1 == r
}

/// The cluster has a layout.
pub open spec fn is_laid_out(
    left: Seq<WavePacket>,
    right: Seq<WavePacket>,
    cluster: ClusterView,
) -> bool {
    exists|g: Layout| #[trigger] is_layout(left, right, g) && g.cluster == cluster
}

/// The item is a cluster with that pair.
pub open spec fn has_pair(item: ClusterItem, left: WavePacket, right: WavePacket) -> bool {
    match item {
        ClusterItem::Cluster(cluster) => pairs_up(cluster, left, right),
        _ => false,
    }
}

pub open spec fn pairs_up(c: ClusterView, left: WavePacket, right: WavePacket) -> bool {
    exists|p: int| #[trigger] is_pair_at(c, p, left, right)
}

/// The pair at that place is of those packets.
pub open spec fn is_pair_at(c: ClusterView, p: int, left: WavePacket, right: WavePacket) -> bool {
    0 <= p < c.pairs.len() && c.left[c.pairs[p].0 as int] == left && c.right[c.pairs[p].1 as int]
        == right
}

pub open spec fn some_has_pair(
    items: Seq<ClusterItem>,
    left: WavePacket,
    right: WavePacket,
) -> bool {
    exists|i: int| 0 <= i < items.len() && has_pair(#[trigger] items[i], left, right)
}

spec fn have_pairs(
    left: Seq<WavePacket>,
    right: Seq<WavePacket>,
    items: Seq<ClusterItem>,
    meetings: Seq<(int, int)>,
) -> bool {
    forall|k: int|
        0 <= k < meetings.len() ==> some_has_pair(
            items,
            left[(#[trigger] meetings[k]).0],
            right[meetings[k].1],
        )
}

/// What holds of the open cluster after the first `n` findings.
spec fn is_open(
    left: Seq<WavePacket>,
    right: Seq<WavePacket>,
    found: Seq<Finding>,
    n: int,
    open: Option<Layout>,
) -> bool {
    match open {
        None => forall|k: int|
            0 <= k < n ==> !(#[trigger] found[k] matches Finding::Meeting(l, r)),
        Some(g) => {
            &&& is_layout(left, right, g)
            &&& g.lefts.len() > 0
            // its pairs were found
            &&& forall|k: int|
                0 <= k < g.meetings.len() ==> was_found(found, n, (#[trigger] g.meetings[k]))
            // all pairs of its left packets are in it
            &&& forall|k: int|
                0 <= k < n ==> (#[trigger] found[k] matches Finding::Meeting(l, r) ==> l
                    <= g.lefts.last() && (g.lefts.contains(l) ==> g.meetings.contains((l, r))))
        },
    }
}

spec fn was_found(found: Seq<Finding>, n: int, pair: (int, int)) -> bool {
    exists|k: int| 0 <= k < n && #[trigger] found[k] == Finding::Meeting(pair.0, pair.1)
}

spec fn cluster_in(open: Option<Layout>) -> Option<ClusterView> {
    match open {
        Some(g) => Some(g.cluster),
        None => None,
    }
}

/// The cluster that two packets begin.
spec fn layout_of(left: Seq<WavePacket>, right: Seq<WavePacket>, l: int, r: int) -> Layout {
    Layout {
        cluster: ClusterView::of_pair(left[l], right[r]),
        lefts: seq![l],
        rights: seq![r],
        meetings: seq![(l, r)],
    }
}

/// The cluster with two more packets that meet.
spec fn layout_with(
    left: Seq<WavePacket>,
    right: Seq<WavePacket>,
    g: Layout,
    l: int,
    r: int,
) -> Layout {
    Layout {
        cluster: g.cluster.joined(left[l], right[r]),
        lefts: if g.lefts.contains(l) {
            g.lefts
        } else {
            g.lefts.push(l)
        },
        rights: if g.rights.contains(r) {
            g.rights
        } else {
            g.rights.push(r)
        },
        meetings: g.meetings.push((l, r)),
    }
}

/// What is known of two batches and of what the sweep finds in them.
spec fn is_swept(left: Seq<WavePacket>, right: Seq<WavePacket>, found: Seq<Finding>) -> bool {
    &&& in_order(left)
    &&& in_order(right)
    &&& distinct_snowflakes(left)
    &&& distinct_snowflakes(right)
    &&& meetings_in_order(found)
    &&& forall|l: int, r: int| #[trigger]
        found.contains(Finding::Meeting(l, r)) <==> overlap(left, right, (l, r))
}

/// Left packets come one after the other, so a meeting of a left packet that was found
/// before is that of the last one in the open cluster.
proof fn lemma_known_left(
    left: Seq<WavePacket>,
    right: Seq<WavePacket>,
    found: Seq<Finding>,
    n: int,
    g: Layout,
    l: int,
    r: int,
)
    requires
        is_swept(left, right, found),
        0 <= n < found.len(),
        found[n] == Finding::Meeting(l, r),
        is_open(left, right, found, n, Some(g)),
    ensures
        g.lefts.last() <= l,
        forall|k: int|
            0 <= k < n ==> (#[trigger] found[k] matches Finding::Meeting(l2, r2) ==> (l2 == l
                ==> g.lefts.last() == l)),
        forall|k: int|
            0 <= k < g.meetings.len() ==> is_before(
                (#[trigger] g.meetings[k]).0,
                g.meetings[k].1,
                l,
                r,
            ),
{
    assert forall|k: int| 0 <= k < g.meetings.len() implies is_before(
        (#[trigger] g.meetings[k]).0,
        g.meetings[k].1,
        l,
        r,
    ) by {
        assert(was_found(found, n, g.meetings[k]));
        let j = choose|j: int|
            0 <= j < n && #[trigger] found[j] == Finding::Meeting(g.meetings[k].0, g.meetings[k].1);
        assert(found[j] is Meeting && found[n] is Meeting);
    }
    assert(left_in(g.meetings, g.lefts[g.lefts.len() - 1]));
    let k = choose|k: int|
        0 <= k < g.meetings.len() && (#[trigger] g.meetings[k]).0 == g.lefts[g.lefts.len() - 1];
    assert(is_before(g.meetings[k].0, g.meetings[k].1, l, r));
}

/// A right packet that is new to the cluster comes after those in it.
proof fn lemma_new_right(
    left: Seq<WavePacket>,
    right: Seq<WavePacket>,
    found: Seq<Finding>,
    n: int,
    g: Layout,
    l: int,
    r: int,
)
    requires
        is_swept(left, right, found),
        0 <= n < found.len(),
        found[n] == Finding::Meeting(l, r),
        is_open(left, right, found, n, Some(g)),
        !g.rights.contains(r),
    ensures
        forall|i: int| 0 <= i < g.rights.len() ==> #[trigger] g.rights[i] < r,
{
    lemma_known_left(left, right, found, n, g, l, r);
    assert(found.contains(found[n]));
    assert(overlap(left, right, (l, r)));
    assert forall|i: int| 0 <= i < g.rights.len() implies #[trigger] g.rights[i] < r by {
        let far = g.rights[i];
        assert(g.rights.contains(far));
        if r < far {
            assert(right_in(g.meetings, g.rights[i]));
            let k = choose|k: int| 0 <= k < g.meetings.len() && (#[trigger] g.meetings[k]).1 == far;
            let l0 = g.meetings[k].0;
            assert(overlap(left, right, g.meetings[k]));
            assert(is_before(l0, far, l, r));
            assert(left[l0].lead() <= left[l].lead());
            assert(right[r].lead() <= right[far].lead());
            assert(overlap(left, right, (l0, r)));
            assert(found.contains(Finding::Meeting(l0, r)));
            let j = found.index_of(Finding::Meeting(l0, r));
            assert(is_before(l0, r, l, r));
            if j > n {
                assert(found[n] is Meeting && found[j] is Meeting);
                assert(is_before(l, r, l0, r));
            }
            assert(j < n);
            assert(g.lefts[g.cluster.pairs[k].0 as int] == l0);
            assert(g.lefts.contains(l0));
            assert(g.meetings.contains((l0, r)));
            let q = g.meetings.index_of((l0, r));
            assert(g.meetings[q] == (l0, r));
            assert(g.rights[g.cluster.pairs[q].1 as int] == r);
            assert(g.rights.contains(r));
        }
    }
}

proof fn lemma_increasing_push(places: Seq<int>, p: int)
    requires
        increasing(places),
        forall|i: int| 0 <= i < places.len() ==> #[trigger] places[i] < p,
    ensures
        increasing(places.push(p)),
{
}

/// A cluster that two packets join keeps its layout.
#[verifier::rlimit(40)]
proof fn lemma_joins(
    left: Seq<WavePacket>,
    right: Seq<WavePacket>,
    found: Seq<Finding>,
    n: int,
    g: Layout,
    l: int,
    r: int,
)
    requires
        is_swept(left, right, found),
        0 <= n < found.len(),
        found[n] == Finding::Meeting(l, r),
        is_open(left, right, found, n, Some(g)),
        g.cluster.touches(left[l], right[r]),
        g.cluster.joined(left[l], right[r]).is_small(),
    ensures
        is_open(left, right, found, n + 1, Some(layout_with(left, right, g, l, r))),
{
    let with = layout_with(left, right, g, l, r);
    let c = g.cluster;
    let d = with.cluster;
    lemma_known_left(left, right, found, n, g, l, r);
    assert(found.contains(found[n]));
    assert(overlap(left, right, (l, r)));
    lemma_mirrors(left, c.left, g.lefts, l);
    lemma_mirrors(right, c.right, g.rights, r);
    lemma_first_with_snowflake(c.left, left[l].snowflake);
    lemma_first_with_snowflake(c.right, right[r].snowflake);
    let a = first_with_snowflake(c.left, left[l].snowflake);
    let b = first_with_snowflake(c.right, right[r].snowflake);
    let m = g.meetings.len() as int;
    assert(increasing(with.lefts)) by {
        if !g.lefts.contains(l) {
            assert forall|i: int| 0 <= i < g.lefts.len() implies #[trigger] g.lefts[i] < l by {
                assert(g.lefts.contains(g.lefts[i]));
                assert(i == g.lefts.len() - 1 || g.lefts[i] < g.lefts[g.lefts.len() - 1]);
            }
            lemma_increasing_push(g.lefts, l);
        }
    }
    assert(increasing(with.rights)) by {
        if !g.rights.contains(r) {
            lemma_new_right(left, right, found, n, g, l, r);
            lemma_increasing_push(g.rights, r);
        }
    }
    assert(with.lefts[a] == l) by {
        if g.lefts.contains(l) {
            assert(left[g.lefts[a]].snowflake == left[l].snowflake);
        }
    }
    assert(with.rights[b] == r) by {
        if g.rights.contains(r) {
            assert(right[g.rights[b]].snowflake == right[r].snowflake);
        }
    }
    assert(d.pairs[m] == (a as u8, b as u8));
    assert(hangs_on(with.meetings, m)) by {
        if g.lefts.contains(l) {
            let i = g.lefts.index_of(l);
            assert(left_in(g.meetings, g.lefts[i]));
            let j = choose|j: int| 0 <= j < m && (#[trigger] g.meetings[j]).0 == l;
            assert(share_a_packet(with.meetings[j], with.meetings[m]));
        } else {
            let i = g.rights.index_of(r);
            assert(right_in(g.meetings, g.rights[i]));
            let j = choose|j: int| 0 <= j < m && (#[trigger] g.meetings[j]).1 == r;
            assert(share_a_packet(with.meetings[j], with.meetings[m]));
        }
    }
    assert forall|k: int| 0 < k < with.meetings.len() implies #[trigger] hangs_on(
        with.meetings,
        k,
    ) by {
        if k < m {
            assert(hangs_on(g.meetings, k));
            let j = choose|j: int|
                0 <= j < k && share_a_packet(#[trigger] g.meetings[j], g.meetings[k]);
            assert(share_a_packet(with.meetings[j], with.meetings[k]));
        }
    }
    assert forall|i: int| 0 <= i < with.lefts.len() implies #[trigger] left_in(
        with.meetings,
        with.lefts[i],
    ) by {
        if i < g.lefts.len() {
            assert(left_in(g.meetings, g.lefts[i]));
            let k = choose|k: int| 0 <= k < m && (#[trigger] g.meetings[k]).0 == g.lefts[i];
            assert(with.meetings[k].0 == with.lefts[i]);
        } else {
            assert(with.meetings[m].0 == with.lefts[i]);
        }
    }
    assert forall|i: int| 0 <= i < with.rights.len() implies #[trigger] right_in(
        with.meetings,
        with.rights[i],
    ) by {
        if i < g.rights.len() {
            assert(right_in(g.meetings, g.rights[i]));
            let k = choose|k: int| 0 <= k < m && (#[trigger] g.meetings[k]).1 == g.rights[i];
            assert(with.meetings[k].1 == with.rights[i]);
        } else {
            assert(with.meetings[m].1 == with.rights[i]);
        }
    }
    assert forall|k: int| 0 <= k < with.meetings.len() implies {
        &&& overlap(left, right, #[trigger] with.meetings[k])
        &&& d.pairs[k].0 < with.lefts.len()
        &&& d.pairs[k].1 < with.rights.len()
        &&& with.lefts[d.pairs[k].0 as int] == with.meetings[k].0
        &&& with.rights[d.pairs[k].1 as int] == with.meetings[k].1
    } by {
        if k < m {
            assert(with.meetings[k] == g.meetings[k]);
            assert(d.pairs[k] == c.pairs[k]);
        }
    }
    assert(is_layout(left, right, with));
    assert forall|k: int| 0 <= k < with.meetings.len() implies was_found(
        found,
        n + 1,
        #[trigger] with.meetings[k],
    ) by {
        if k < m {
            assert(was_found(found, n, g.meetings[k]));
            let j = choose|j: int|
                0 <= j < n && #[trigger] found[j] == Finding::Meeting(
                    g.meetings[k].0,
                    g.meetings[k].1,
                );
            assert(found[j] == Finding::Meeting(with.meetings[k].0, with.meetings[k].1));
        } else {
            assert(found[n] == Finding::Meeting(with.meetings[k].0, with.meetings[k].1));
        }
    }
    assert(with.lefts.last() >= g.lefts.last() && with.lefts.last() >= l);
    assert forall|k: int| 0 <= k < n + 1 implies (
    #[trigger] found[k] matches Finding::Meeting(l2, r2) ==> l2 <= with.lefts.last() && (
    with.lefts.contains(l2) ==> with.meetings.contains((l2, r2)))) by {
        if let Finding::Meeting(l2, r2) = found[k] {
            if k == n {
                assert(with.meetings[m] == (l2, r2));
            } else if with.lefts.contains(l2) {
                lemma_places_push(g.lefts, l);
                if !g.lefts.contains(l2) {
                    assert(l2 == l);
                    assert(g.lefts[g.lefts.len() - 1] == l);
                }
                assert(g.meetings.contains((l2, r2)));
                let q = g.meetings.index_of((l2, r2));
                assert(with.meetings[q] == (l2, r2));
            }
        }
    }
}

/// Two packets that do not touch the open cluster begin another.
proof fn lemma_begins(
    left: Seq<WavePacket>,
    right: Seq<WavePacket>,
    found: Seq<Finding>,
    n: int,
    open: Option<Layout>,
    l: int,
    r: int,
)
    requires
        is_swept(left, right, found),
        0 <= n < found.len(),
        found[n] == Finding::Meeting(l, r),
        is_open(left, right, found, n, open),
        open matches Some(g) ==> !g.cluster.touches(left[l], right[r]),
    ensures
        is_open(left, right, found, n + 1, Some(layout_of(left, right, l, r))),
{
    let begun = layout_of(left, right, l, r);
    assert(found.contains(found[n]));
    assert(overlap(left, right, (l, r)));
    assert(begun.cluster.pairs[0] == (0u8, 0u8));
    assert(begun.meetings[0].0 == begun.lefts[0] && begun.meetings[0].1 == begun.rights[0]);
    assert(left_in(begun.meetings, begun.lefts[0]));
    assert(right_in(begun.meetings, begun.rights[0]));
    assert(is_layout(left, right, begun));
    assert(was_found(found, n + 1, begun.meetings[0])) by {
        assert(found[n] == Finding::Meeting(l, r));
    }
    if let Some(g) = open {
        lemma_known_left(left, right, found, n, g, l, r);
        lemma_mirrors(left, g.cluster.left, g.lefts, l);
        assert(g.lefts[g.lefts.len() - 1] != l) by {
            if g.lefts[g.lefts.len() - 1] == l {
                assert(g.lefts.contains(l));
            }
        }
    }
    assert forall|k: int| 0 <= k < n + 1 implies (
    #[trigger] found[k] matches Finding::Meeting(l2, r2) ==> l2 <= begun.lefts.last() && (
    begun.lefts.contains(l2) ==> begun.meetings.contains((l2, r2)))) by {
        if let Finding::Meeting(l2, r2) = found[k] {
            if k == n {
                assert(begun.meetings[0] == (l2, r2));
            } else {
                assert(is_before(l2, r2, l, r));
                assert(begun.lefts.contains(l2) ==> l2 == l);
                assert(open is Some);
            }
        }
    }
}

/// The findings from place `n` on come out: pairs in clusters that have a layout, and alone
/// what was found alone.
spec fn comes_out(
    left: Seq<WavePacket>,
    right: Seq<WavePacket>,
    found: Seq<Finding>,
    n: int,
    open: Option<Layout>,
    items: Seq<ClusterItem>,
) -> bool {
    &&& forall|i: int|
        0 <= i < items.len() ==> (#[trigger] items[i] matches ClusterItem::Cluster(c)
            ==> is_laid_out(left, right, c))
    &&& forall|k: int|
        n <= k < found.len() ==> (#[trigger] found[k] matches Finding::Meeting(l, r)
            ==> some_has_pair(items, left[l], right[r]))
    &&& open is Some ==> have_pairs(left, right, items, (open->0).meetings)
    &&& forall|i: int|
        0 <= i < items.len() ==> (#[trigger] items[i] matches ClusterItem::LeftAlone(wp)
            ==> left_was_alone(left, found, wp))
    &&& forall|i: int|
        0 <= i < items.len() ==> (#[trigger] items[i] matches ClusterItem::RightAlone(wp)
            ==> right_was_alone(right, found, wp))
}

spec fn left_was_alone(left: Seq<WavePacket>, found: Seq<Finding>, wp: WavePacket) -> bool {
    exists|l: int| #[trigger] found.contains(Finding::LeftAlone(l)) && left[l] == wp
}

spec fn right_was_alone(right: Seq<WavePacket>, found: Seq<Finding>, wp: WavePacket) -> bool {
    exists|r: int| #[trigger] found.contains(Finding::RightAlone(r)) && right[r] == wp
}

proof fn lemma_pair_in_front(
    first: ClusterItem,
    rest: Seq<ClusterItem>,
    left: WavePacket,
    right: WavePacket,
)
    ensures
        has_pair(first, left, right) ==> some_has_pair(seq![first] + rest, left, right),
        some_has_pair(rest, left, right) ==> some_has_pair(seq![first] + rest, left, right),
{
    let all = seq![first] + rest;
    assert(all[0] == first);
    if some_has_pair(rest, left, right) {
        let i = choose|i: int| 0 <= i < rest.len() && has_pair(#[trigger] rest[i], left, right);
        assert(all[i + 1] == rest[i]);
    }
}

/// The pairs of a layout are those of its cluster.
proof fn lemma_layout_pairs(left: Seq<WavePacket>, right: Seq<WavePacket>, g: Layout, k: int)
    requires
        is_layout(left, right, g),
        0 <= k < g.meetings.len(),
    ensures
        has_pair(
            ClusterItem::Cluster(g.cluster),
            left[g.meetings[k].0],
            right[g.meetings[k].1],
        ),
{
    let c = g.cluster;
    assert(overlap(left, right, g.meetings[k]));
    assert(c.left[c.pairs[k].0 as int] == left[g.lefts[c.pairs[k].0 as int]]);
    assert(c.right[c.pairs[k].1 as int] == right[g.rights[c.pairs[k].1 as int]]);
    assert(g.lefts[c.pairs[k].0 as int] == g.meetings[k].0);
    assert(g.rights[c.pairs[k].1 as int] == g.meetings[k].1);
    assert(is_pair_at(c, k, left[g.meetings[k].0], right[g.meetings[k].1]));
    assert(pairs_up(c, left[g.meetings[k].0], right[g.meetings[k].1]));
}

#[verifier::rlimit(40)]
proof fn lemma_comes_out(
    left: Seq<WavePacket>,
    right: Seq<WavePacket>,
    found: Seq<Finding>,
    n: int,
    open: Option<Layout>,
)
    requires
        is_swept(left, right, found),
        0 <= n <= found.len(),
        is_open(left, right, found, n, open),
        stays_small(pairings_of(left, right, found.skip(n)), cluster_in(open)),
    ensures
        comes_out(
            left,
            right,
            found,
            n,
            open,
            clustered(pairings_of(left, right, found.skip(n)), cluster_in(open)),
        ),
    decreases found.len() - n, 1int,
{
    let pairings = pairings_of(left, right, found.skip(n));
    let items = clustered(pairings, cluster_in(open));
    if n == found.len() {
        if let Some(g) = open {
            assert(items[0] == ClusterItem::Cluster(g.cluster));
            assert forall|k: int| 0 <= k < g.meetings.len() implies some_has_pair(
                items,
                left[(#[trigger] g.meetings[k]).0],
                right[g.meetings[k].1],
            ) by {
                lemma_layout_pairs(left, right, g, k);
                assert(has_pair(items[0], left[g.meetings[k].0], right[g.meetings[k].1]));
            }
        }
    } else {
        let later = pairings_of(left, right, found.skip(n + 1));
        assert(found.skip(n).drop_first() =~= found.skip(n + 1));
        assert(pairings.drop_first() =~= later);
        assert(pairings[0] == pairing_of(left, right, found[n]));
        match found[n] {
            Finding::Meeting(l, r) => {
                let touches = open matches Some(g) && g.cluster.touches(left[l], right[r]);
                let next = if touches {
                    layout_with(left, right, open->0, l, r)
                } else {
                    layout_of(left, right, l, r)
                };
                let rest = clustered(later, Some(next.cluster));
                if touches {
                    assert(stays_small(later, Some(next.cluster)));
                    lemma_joins(left, right, found, n, open->0, l, r);
                } else {
                    lemma_begins(left, right, found, n, open, l, r);
                }
                lemma_comes_out(left, right, found, n + 1, Some(next));
                let last = next.meetings.len() - 1;
                assert(next.meetings[last] == (l, r));
                assert(some_has_pair(rest, left[l], right[r]));
                if let Some(g) = open {
                    if !touches {
                        let first = ClusterItem::Cluster(g.cluster);
                        assert(items == seq![first] + rest);
                        lemma_pair_in_front(first, rest, left[l], right[r]);
                        assert forall|k: int| 0 <= k < g.meetings.len() implies some_has_pair(
                            items,
                            left[(#[trigger] g.meetings[k]).0],
                            right[g.meetings[k].1],
                        ) by {
                            lemma_layout_pairs(left, right, g, k);
                            lemma_pair_in_front(
                                first,
                                rest,
                                left[g.meetings[k].0],
                                right[g.meetings[k].1],
                            );
                        }
                        lemma_one_in_front(left, right, found, n, first, rest, next);
                    } else {
                        assert(items == rest);
                        assert forall|k: int| 0 <= k < g.meetings.len() implies some_has_pair(
                            items,
                            left[(#[trigger] g.meetings[k]).0],
                            right[g.meetings[k].1],
                        ) by {
                            assert(next.meetings[k] == g.meetings[k]);
                        }
                    }
                }
            },
            Finding::LeftAlone(l) => {
                assert(found.contains(found[n]));
                lemma_alone_in_front(left, right, found, n, open);
            },
            Finding::RightAlone(r) => {
                assert(found.contains(found[n]));
                lemma_alone_in_front(left, right, found, n, open);
            },
        }
    }
}

/// A closed cluster goes in front of what comes out after it.
proof fn lemma_one_in_front(
    left: Seq<WavePacket>,
    right: Seq<WavePacket>,
    found: Seq<Finding>,
    n: int,
    first: ClusterItem,
    rest: Seq<ClusterItem>,
    next: Layout,
)
    requires
        0 <= n < found.len(),
        comes_out(left, right, found, n + 1, Some(next), rest),
        first matches ClusterItem::Cluster(c) ==> is_laid_out(left, right, c),
        first matches ClusterItem::LeftAlone(wp) ==> left_was_alone(left, found, wp),
        first matches ClusterItem::RightAlone(wp) ==> right_was_alone(right, found, wp),
    ensures
        comes_out(left, right, found, n + 1, Some(next), seq![first] + rest),
{
    let items = seq![first] + rest;
    assert forall|i: int| 0 <= i < items.len() implies i == 0 && #[trigger] items[i] == first || i
        > 0 && items[i] == rest[i - 1] by {}
    assert forall|k: int| n + 1 <= k < found.len() implies (
    #[trigger] found[k] matches Finding::Meeting(l, r) ==> some_has_pair(
        items,
        left[l],
        right[r],
    )) by {
        if let Finding::Meeting(l, r) = found[k] {
            lemma_pair_in_front(first, rest, left[l], right[r]);
        }
    }
    assert forall|k: int| 0 <= k < next.meetings.len() implies some_has_pair(
        items,
        left[(#[trigger] next.meetings[k]).0],
        right[next.meetings[k].1],
    ) by {
        assert(some_has_pair(rest, left[next.meetings[k].0], right[next.meetings[k].1]));
        lemma_pair_in_front(first, rest, left[next.meetings[k].0], right[next.meetings[k].1]);
    }
}

/// A packet found alone comes out alone.
proof fn lemma_alone_in_front(
    left: Seq<WavePacket>,
    right: Seq<WavePacket>,
    found: Seq<Finding>,
    n: int,
    open: Option<Layout>,
)
    requires
        is_swept(left, right, found),
        0 <= n < found.len(),
        !(found[n] is Meeting),
        is_open(left, right, found, n, open),
        stays_small(pairings_of(left, right, found.skip(n)), cluster_in(open)),
    ensures
        comes_out(
            left,
            right,
            found,
            n,
            open,
            clustered(pairings_of(left, right, found.skip(n)), cluster_in(open)),
        ),
    decreases found.len() - n, 0int,
{
    let pairings = pairings_of(left, right, found.skip(n));
    let later = pairings_of(left, right, found.skip(n + 1));
    let items = clustered(pairings, cluster_in(open));
    let rest = clustered(later, cluster_in(open));
    assert(found.skip(n).drop_first() =~= found.skip(n + 1));
    assert(pairings.drop_first() =~= later);
    assert(pairings[0] == pairing_of(left, right, found[n]));
    assert(found.contains(found[n]));
    assert(is_open(left, right, found, n + 1, open)) by {
        if let Some(g) = open {
            assert forall|k: int| 0 <= k < g.meetings.len() implies was_found(
                found,
                n + 1,
                #[trigger] g.meetings[k],
            ) by {
                assert(was_found(found, n, g.meetings[k]));
            }
        }
    }
    lemma_comes_out(left, right, found, n + 1, open);
    let first = match found[n] {
        Finding::LeftAlone(l) => ClusterItem::LeftAlone(left[l]),
        Finding::RightAlone(r) => ClusterItem::RightAlone(right[r]),
        Finding::Meeting(l, r) => arbitrary(),
    };
    assert(items == seq![first] + rest);
    if let Finding::LeftAlone(l) = found[n] {
        assert(left_was_alone(left, found, left[l]));
    }
    if let Finding::RightAlone(r) = found[n] {
        assert(right_was_alone(right, found, right[r]));
    }
    assert forall|i: int| 0 <= i < items.len() implies i == 0 && #[trigger] items[i] == first || i
        > 0 && items[i] == rest[i - 1] by {}
    assert forall|k: int| n <= k < found.len() implies (
    #[trigger] found[k] matches Finding::Meeting(l, r) ==> some_has_pair(
        items,
        left[l],
        right[r],
    )) by {
        if let Finding::Meeting(l, r) = found[k] {
            lemma_pair_in_front(first, rest, left[l], right[r]);
        }
    }
    if let Some(g) = open {
        assert forall|k: int| 0 <= k < g.meetings.len() implies some_has_pair(
            items,
            left[(#[trigger] g.meetings[k]).0],
            right[g.meetings[k].1],
        ) by {
            lemma_pair_in_front(first, rest, left[g.meetings[k].0], right[g.meetings[k].1]);
        }
    }
}

/// All of two batches, from the sweep to the clusters.
proof fn lemma_all_comes_out(left: Seq<WavePacket>, right: Seq<WavePacket>)
    requires
        in_order(left),
        in_order(right),
        alike(left, right),
        distinct_snowflakes(left),
        distinct_snowflakes(right),
        clusters_stay_small(left, right),
    ensures
        comes_out(
            left,
            right,
            findings(left, right, sweep_start()),
            0,
            None,
            clusters_of(left, right),
        ),
{
    let found = findings(left, right, sweep_start());
    let none: Option<Layout> = None;
    the_sweep_finds_what_overlaps(left, right);
    assert(is_swept(left, right, found)) by {
        assert forall|l: int, r: int| #[trigger]
            found.contains(Finding::Meeting(l, r)) <==> overlap(left, right, (l, r)) by {}
    }
    assert(found.skip(0) =~= found);
    lemma_comes_out(left, right, found, 0, none);
}

/// Two packets that overlap are a pair of some cluster. A packet that comes out alone
/// overlaps none of the other port.
pub proof fn every_overlap_is_in_a_cluster(left: Seq<WavePacket>, right: Seq<WavePacket>)
    requires
        in_order(left),
        in_order(right),
        alike(left, right),
        distinct_snowflakes(left),
        distinct_snowflakes(right),
        clusters_stay_small(left, right),
    ensures
        forall|l: int, r: int|
            0 <= l < left.len() && 0 <= r < right.len() && (#[trigger] left[l]).meets(
                #[trigger] right[r],
            ) ==> some_has_pair(clusters_of(left, right), left[l], right[r]),
        forall|i: int, r: int|
            0 <= i < clusters_of(left, right).len() && 0 <= r < right.len() ==> (
            #[trigger] clusters_of(left, right)[i] matches ClusterItem::LeftAlone(wp)
                ==> !wp.meets(#[trigger] right[r])),
        forall|i: int, l: int|
            0 <= i < clusters_of(left, right).len() && 0 <= l < left.len() ==> (
            #[trigger] clusters_of(left, right)[i] matches ClusterItem::RightAlone(wp)
                ==> !(#[trigger] left[l]).meets(wp)),
{
    let found = findings(left, right, sweep_start());
    let items = clusters_of(left, right);
    the_sweep_finds_what_overlaps(left, right);
    lemma_all_comes_out(left, right);
    every_packet_is_found_once(left, right);
    assert forall|l: int, r: int|
        0 <= l < left.len() && 0 <= r < right.len() && (#[trigger] left[l]).meets(
            #[trigger] right[r],
        ) implies some_has_pair(items, left[l], right[r]) by {
        assert(found.contains(Finding::Meeting(l, r)));
        let k = found.index_of(Finding::Meeting(l, r));
        assert(found[k] is Meeting);
    }
    assert forall|i: int, r: int| 0 <= i < items.len() && 0 <= r < right.len() implies (
    #[trigger] items[i] matches ClusterItem::LeftAlone(wp) ==> !wp.meets(
        #[trigger] right[r],
    )) by {
        if let ClusterItem::LeftAlone(wp) = items[i] {
            let l = choose|l: int| #[trigger] found.contains(Finding::LeftAlone(l)) && left[l] == wp;
            assert(0 <= l < left.len());
        }
    }
    assert forall|i: int, l: int| 0 <= i < items.len() && 0 <= l < left.len() implies (
    #[trigger] items[i] matches ClusterItem::RightAlone(wp) ==> !(
    #[trigger] left[l]).meets(wp)) by {
        if let ClusterItem::RightAlone(wp) = items[i] {
            let r = choose|r: int| #[trigger]
                found.contains(Finding::RightAlone(r)) && right[r] == wp;
            assert(0 <= r < right.len());
        }
    }
}

/// Packets of a cluster stand in it as in their batches, and its pairs come strictly one
/// after the other: by the left packet, then by the right one.
pub proof fn clusters_keep_the_order(left: Seq<WavePacket>, right: Seq<WavePacket>, i: int)
    requires
        in_order(left),
        in_order(right),
        alike(left, right),
        distinct_snowflakes(left),
        distinct_snowflakes(right),
        clusters_stay_small(left, right),
        0 <= i < clusters_of(left, right).len(),
        clusters_of(left, right)[i] is Cluster,
    ensures
        ({
            let c = clusters_of(left, right)[i]->Cluster_0;
            &&& is_laid_out(left, right, c)
            &&& forall|p: int, q: int|
                0 <= p < q < c.pairs.len() ==> is_before(
                    (#[trigger] c.pairs[p]).0 as int,
                    c.pairs[p].1 as int,
                    (#[trigger] c.pairs[q]).0 as int,
                    c.pairs[q].1 as int,
                )
        }),
{
    lemma_all_comes_out(left, right);
    let c = clusters_of(left, right)[i]->Cluster_0;
    assert(is_laid_out(left, right, c));
    let g = choose|g: Layout| #[trigger] is_layout(left, right, g) && g.cluster == c;
    assert forall|p: int, q: int| 0 <= p < q < c.pairs.len() implies is_before(
        (#[trigger] c.pairs[p]).0 as int,
        c.pairs[p].1 as int,
        (#[trigger] c.pairs[q]).0 as int,
        c.pairs[q].1 as int,
    ) by {
        assert(is_before(
            g.meetings[p].0,
            g.meetings[p].1,
            g.meetings[q].0,
            g.meetings[q].1,
        ));
        let (a, b) = (c.pairs[p].0 as int, c.pairs[q].0 as int);
        let (x, y) = (c.pairs[p].1 as int, c.pairs[q].1 as int);
        assert(g.lefts[a] <= g.lefts[b]);
        assert(b < a ==> g.lefts[b] < g.lefts[a]);
        assert(y < x ==> g.rights[y] < g.rights[x]);
    }
}

/// A pair of a cluster is that of the layout.
proof fn lemma_pair_of_layout(
    left: Seq<WavePacket>,
    right: Seq<WavePacket>,
    g: Layout,
    pair: (int, int),
) -> (k: int)
    requires
        distinct_snowflakes(left),
        distinct_snowflakes(right),
        is_layout(left, right, g),
        0 <= pair.0 < left.len(),
        0 <= pair.1 < right.len(),
        pairs_up(g.cluster, left[pair.0], right[pair.1]),
    ensures
        0 <= k < g.meetings.len(),
        g.meetings[k] == pair,
        g.cluster.left.contains(left[pair.0]),
        g.cluster.right.contains(right[pair.1]),
{
    let c = g.cluster;
    let k = choose|k: int| #[trigger] is_pair_at(c, k, left[pair.0], right[pair.1]);
    assert(overlap(left, right, g.meetings[k]));
    let a = c.pairs[k].0 as int;
    let b = c.pairs[k].1 as int;
    assert(c.left[a] == left[g.lefts[a]] && c.right[b] == right[g.rights[b]]);
    assert(left[g.lefts[a]].snowflake == left[pair.0].snowflake);
    assert(right[g.rights[b]].snowflake == right[pair.1].snowflake);
    assert(c.left[a] == left[pair.0] && c.right[b] == right[pair.1]);
    k
}

/// Every pair of packets of a cluster that overlap is among its pairs.
pub proof fn clusters_have_all_their_pairs(
    left: Seq<WavePacket>,
    right: Seq<WavePacket>,
    i: int,
    l: int,
    r: int,
)
    requires
        in_order(left),
        in_order(right),
        alike(left, right),
        distinct_snowflakes(left),
        distinct_snowflakes(right),
        clusters_stay_small(left, right),
        0 <= i < clusters_of(left, right).len(),
        0 <= l < left.len(),
        0 <= r < right.len(),
        left[l].meets(right[r]),
    ensures
        has_left(clusters_of(left, right)[i], left[l]) <==> has_pair(
            clusters_of(left, right)[i],
            left[l],
            right[r],
        ),
        has_right(clusters_of(left, right)[i], right[r]) <==> has_pair(
            clusters_of(left, right)[i],
            left[l],
            right[r],
        ),
{
    let items = clusters_of(left, right);
    every_overlap_is_in_a_cluster(left, right);
    every_packet_comes_out_once(left, right);
    lemma_all_comes_out(left, right);
    assert(some_has_pair(items, left[l], right[r]));
    let k = choose|k: int| 0 <= k < items.len() && has_pair(#[trigger] items[k], left[l], right[r]);
    assert(is_laid_out(left, right, items[k]->Cluster_0));
    let g = choose|g: Layout| #[trigger]
        is_layout(left, right, g) && g.cluster == items[k]->Cluster_0;
    let m = lemma_pair_of_layout(left, right, g, (l, r));
    assert(has_left(items[k], left[l]) && has_right(items[k], right[r]));
    assert(one_at_most_has_left(items, left[l]));
    assert(one_at_most_has_right(items, right[r]));
    if has_pair(items[i], left[l], right[r]) {
        assert(is_laid_out(left, right, items[i]->Cluster_0));
        let h = choose|h: Layout| #[trigger]
            is_layout(left, right, h) && h.cluster == items[i]->Cluster_0;
        let q = lemma_pair_of_layout(left, right, h, (l, r));
    }
}

/// Overlaps in a row, each with a packet of the one before.
pub open spec fn is_chain(
    left: Seq<WavePacket>,
    right: Seq<WavePacket>,
    chain: Seq<(int, int)>,
) -> bool {
    &&& chain.len() > 0
    &&& forall|k: int| 0 <= k < chain.len() ==> overlap(left, right, #[trigger] chain[k])
    &&& forall|k: int|
        0 < k < chain.len() ==> share_a_packet(chain[k - 1], #[trigger] chain[k])
}

/// A chain of overlaps leads from one to the other.
pub open spec fn connected(
    left: Seq<WavePacket>,
    right: Seq<WavePacket>,
    a: (int, int),
    b: (int, int),
) -> bool {
    exists|chain: Seq<(int, int)>| #[trigger]
        is_chain(left, right, chain) && chain[0] == a && chain.last() == b
}

proof fn lemma_chain_on(
    left: Seq<WavePacket>,
    right: Seq<WavePacket>,
    a: (int, int),
    b: (int, int),
    c: (int, int),
)
    requires
        connected(left, right, a, b),
        connected(left, right, b, c),
    ensures
        connected(left, right, a, c),
{
    let first = choose|chain: Seq<(int, int)>| #[trigger]
        is_chain(left, right, chain) && chain[0] == a && chain.last() == b;
    let second = choose|chain: Seq<(int, int)>| #[trigger]
        is_chain(left, right, chain) && chain[0] == b && chain.last() == c;
    let whole = first + second;
    assert forall|k: int| 0 <= k < whole.len() implies overlap(
        left,
        right,
        #[trigger] whole[k],
    ) by {
        if k < first.len() {
            assert(whole[k] == first[k]);
        } else {
            assert(whole[k] == second[k - first.len()]);
        }
    }
    assert forall|k: int| 0 < k < whole.len() implies share_a_packet(
        whole[k - 1],
        #[trigger] whole[k],
    ) by {
        if k < first.len() {
            assert(share_a_packet(first[k - 1], first[k]));
        } else if k > first.len() {
            let j = k - first.len();
            assert(share_a_packet(second[j - 1], second[j]));
        }
    }
    assert(whole.last() == second.last());
    assert(is_chain(left, right, whole));
}

proof fn lemma_chain_back(
    left: Seq<WavePacket>,
    right: Seq<WavePacket>,
    a: (int, int),
    b: (int, int),
)
    requires
        connected(left, right, a, b),
    ensures
        connected(left, right, b, a),
{
    let chain = choose|chain: Seq<(int, int)>| #[trigger]
        is_chain(left, right, chain) && chain[0] == a && chain.last() == b;
    let n = chain.len() as int;
    let back = Seq::new(chain.len(), |k: int| chain[n - 1 - k]);
    assert forall|k: int| 0 < k < back.len() implies share_a_packet(
        back[k - 1],
        #[trigger] back[k],
    ) by {
        let j = n - k;
        assert(share_a_packet(chain[j - 1], chain[j]));
    }
    assert(is_chain(left, right, back));
    assert(back[0] == b && back.last() == a);
}

/// Every pair of a cluster is connected with its first.
proof fn lemma_from_first(left: Seq<WavePacket>, right: Seq<WavePacket>, g: Layout, k: int)
    requires
        is_layout(left, right, g),
        0 <= k < g.meetings.len(),
    ensures
        connected(left, right, g.meetings[0], g.meetings[k]),
    decreases k,
{
    assert(overlap(left, right, g.meetings[k]));
    if k == 0 {
        let one = seq![g.meetings[0]];
        assert(is_chain(left, right, one) && one[0] == g.meetings[0] && one.last()
            == g.meetings[0]);
    } else {
        assert(hangs_on(g.meetings, k));
        let j = choose|j: int|
            0 <= j < k && share_a_packet(#[trigger] g.meetings[j], g.meetings[k]);
        lemma_from_first(left, right, g, j);
        assert(overlap(left, right, g.meetings[j]));
        let step = seq![g.meetings[j], g.meetings[k]];
        assert(is_chain(left, right, step) && step[0] == g.meetings[j] && step.last()
            == g.meetings[k]);
        lemma_chain_on(left, right, g.meetings[0], g.meetings[j], g.meetings[k]);
    }
}

/// All of a chain is in one cluster.
proof fn lemma_chain_in_one(
    left: Seq<WavePacket>,
    right: Seq<WavePacket>,
    chain: Seq<(int, int)>,
    i: int,
    k: int,
)
    requires
        in_order(left),
        in_order(right),
        alike(left, right),
        distinct_snowflakes(left),
        distinct_snowflakes(right),
        clusters_stay_small(left, right),
        is_chain(left, right, chain),
        0 <= i < clusters_of(left, right).len(),
        has_pair(clusters_of(left, right)[i], left[chain[0].0], right[chain[0].1]),
        0 <= k < chain.len(),
    ensures
        has_pair(clusters_of(left, right)[i], left[chain[k].0], right[chain[k].1]),
    decreases k,
{
    if k > 0 {
        lemma_chain_in_one(left, right, chain, i, k - 1);
        assert(overlap(left, right, chain[k - 1]) && overlap(left, right, chain[k]));
        assert(share_a_packet(chain[k - 1], chain[k]));
        clusters_have_all_their_pairs(left, right, i, chain[k - 1].0, chain[k - 1].1);
        clusters_have_all_their_pairs(left, right, i, chain[k].0, chain[k].1);
    }
}

/// Clusters are the connected components of the overlaps: two pairs of packets that overlap
/// are in one cluster exactly when a chain of overlaps leads from one to the other.
pub proof fn clusters_are_what_hangs_together(
    left: Seq<WavePacket>,
    right: Seq<WavePacket>,
    a: (int, int),
    b: (int, int),
)
    requires
        in_order(left),
        in_order(right),
        alike(left, right),
        distinct_snowflakes(left),
        distinct_snowflakes(right),
        clusters_stay_small(left, right),
        overlap(left, right, a),
        overlap(left, right, b),
    ensures
        connected(left, right, a, b) <==> exists|i: int|
            0 <= i < clusters_of(left, right).len() && has_pair(
                #[trigger] clusters_of(left, right)[i],
                left[a.0],
                right[a.1],
            ) && has_pair(clusters_of(left, right)[i], left[b.0], right[b.1]),
{
    let items = clusters_of(left, right);
    if connected(left, right, a, b) {
        let chain = choose|chain: Seq<(int, int)>| #[trigger]
            is_chain(left, right, chain) && chain[0] == a && chain.last() == b;
        every_overlap_is_in_a_cluster(left, right);
        assert(some_has_pair(items, left[a.0], right[a.1]));
        let i = choose|i: int|
            0 <= i < items.len() && has_pair(#[trigger] items[i], left[a.0], right[a.1]);
        lemma_chain_in_one(left, right, chain, i, chain.len() - 1);
    }
    if exists|i: int|
        0 <= i < items.len() && has_pair(#[trigger] items[i], left[a.0], right[a.1]) && has_pair(
            items[i],
            left[b.0],
            right[b.1],
        ) {
        let i = choose|i: int|
            0 <= i < items.len() && has_pair(#[trigger] items[i], left[a.0], right[a.1])
                && has_pair(items[i], left[b.0], right[b.1]);
        lemma_all_comes_out(left, right);
        let c = items[i]->Cluster_0;
        assert(is_laid_out(left, right, c));
        let g = choose|g: Layout| #[trigger] is_layout(left, right, g) && g.cluster == c;
        let k = lemma_pair_of_layout(left, right, g, a);
        let m = lemma_pair_of_layout(left, right, g, b);
        lemma_from_first(left, right, g, k);
        lemma_from_first(left, right, g, m);
        lemma_chain_back(left, right, g.meetings[0], a);
        lemma_chain_on(left, right, a, g.meetings[0], b);
    }
}

} // verus!
