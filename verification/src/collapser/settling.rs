//! Where photons enter each mode at one place at most, they settle: one in each mode that they
//! reach.

use vstd::prelude::*;

use crate::collapser::circuit::{
    all_arrived, at_detector, at_mode, consumed_by, consumer_kind, detected, distinct_sources,
    drawn_split, entry_mode, is_circuit, is_claimed, is_entry, is_settled_outcome, passes, records,
    settled, sinks_empty, sinks_filled, Chance, Entry, Photons,
};
use crate::collapser::course::{
    all_held, arrived, is_course, is_outcome, released, walk_after, Exits,
};
use crate::collapser::monotonic_map::{
    all_rooted, has_root, hops_of, lemma_root, MonotonicMapCell,
};
use crate::collapser::photon::{
    first_source, has_source, lemma_first_source, meets_others, none_held, Node, NodeKind, Photon,
};
use crate::collapser::plan::{node_at, PlanView};
use crate::concurrency::cell::WpResult;
use crate::types::ModeIndex;

verus! {

/// Where the walk stands: the photons in the modes and an order in which they came
/// there, the modes whose photon has been handed to its operator, and the modes
/// whose photon was recorded by a detector.
ghost struct Walk {
    photons: Photons,
    rank: Seq<int>,
    clock: int,
    done: Seq<bool>,
    seen: Seq<int>,
}

/// The photons that have been handed over.
spec fn handed_over(w: Walk) -> Photons {
    Seq::new(
        w.photons.len(),
        |m: int|
            if w.done[m] {
                w.photons[m]
            } else {
                None
            },
    )
}

/// What the operators have done with the photons handed over to them.
spec fn flows(plan: PlanView, chance: Chance, w: Walk) -> bool {
    &&& w.photons.len() == plan.consumers.len()
    &&& w.rank.len() == w.photons.len()
    &&& w.done.len() == w.photons.len()
    &&& forall|i: int|
        0 <= i < plan.emitted.len() ==> w.photons[(#[trigger] plan.emitted[i]).0 as int] == Some(
            plan.emitted[i].1,
        )
    &&& forall|c: int|
        0 <= c < plan.cells.len() && (#[trigger] plan.cells[c]) is Data ==> {
            if all_arrived(plan, c, handed_over(w)) {
                &&& passes(chance, node_at(plan.cells, c), w.photons)
                &&& sinks_filled(node_at(plan.cells, c).links, w.photons, w.rank)
            } else {
                sinks_empty(node_at(plan.cells, c).links, w.photons)
            }
        }
    &&& forall|m: int|
        0 <= m < w.photons.len() && (#[trigger] w.photons[m]) is Some ==> w.rank[m] < w.clock
            && exists|e: Entry| #[trigger] is_entry(plan, e) && entry_mode(plan, e) == m
    &&& forall|m: int| 0 <= m < w.done.len() && #[trigger] w.done[m] ==> w.photons[m] is Some
}

/// The stack holds the photons that are still to be handed over.
spec fn stacked(w: Walk, stack: Seq<(ModeIndex, Photon)>) -> bool {
    &&& forall|i: int|
        0 <= i < stack.len() ==> (#[trigger] stack[i]).0 < w.photons.len()
            && w.photons[stack[i].0 as int] == Some(stack[i].1) && !w.done[stack[i].0 as int]
    &&& forall|i: int, j: int|
        0 <= i < j < stack.len() ==> (#[trigger] stack[i]).0 != (#[trigger] stack[j]).0
    &&& forall|m: int|
        0 <= m < w.photons.len() && (#[trigger] w.photons[m]) is Some && !w.done[m] ==> exists|
            i: int,
        |
            0 <= i < stack.len() && (#[trigger] stack[i]).0 == m
}

/// The operators hold the photons handed over to them.
spec fn holding(plan: PlanView, w: Walk, cells: Seq<MonotonicMapCell<Node>>) -> bool {
    &&& cells.len() == plan.cells.len()
    &&& forall|c: int|
        0 <= c < cells.len() ==> match #[trigger] plan.cells[c] {
            MonotonicMapCell::Moved(next) => cells[c] == MonotonicMapCell::<Node>::Moved(next),
            MonotonicMapCell::Data(node) => {
                &&& cells[c] is Data
                &&& holds_for(plan, w, c, node_at(cells, c))
            },
        }
}

spec fn holds_for(plan: PlanView, w: Walk, c: int, node: Node) -> bool {
    &&& node.kind == node_at(plan.cells, c).kind
    &&& node.links == node_at(plan.cells, c).links
    &&& meets_others(node) ==> node.held.len() == node.links.len() && forall|k: int|
        0 <= k < node.links.len() ==> (#[trigger] node.held[k]) == handed_to(
            plan,
            w,
            c,
            node.links[k].source,
        )
}

/// The photon in the mode, if it was handed over to the operator in cell `c`.
spec fn handed_to(plan: PlanView, w: Walk, c: int, mode: ModeIndex) -> Option<Photon> {
    if consumed_by(plan, mode, c) && w.done[mode as int] {
        w.photons[mode as int]
    } else {
        None
    }
}

/// The photons with those in `out` put in their modes.
spec fn put(photons: Photons, out: Seq<(ModeIndex, Photon)>) -> Photons {
    Seq::new(
        photons.len(),
        |m: int|
            if exists|i: int| 0 <= i < out.len() && (#[trigger] out[i]).0 == m {
                Some(out[choose|i: int| 0 <= i < out.len() && (#[trigger] out[i]).0 == m].1)
            } else {
                photons[m]
            },
    )
}

spec fn stamp(rank: Seq<int>, out: Seq<(ModeIndex, Photon)>, clock: int) -> Seq<int> {
    Seq::new(
        rank.len(),
        |m: int|
            if exists|i: int| 0 <= i < out.len() && (#[trigger] out[i]).0 == m {
                clock
            } else {
                rank[m]
            },
    )
}

/// The walk after the photon in `mode` was handed over and `out` released.
spec fn advanced(w: Walk, mode: ModeIndex, out: Seq<(ModeIndex, Photon)>, detects: bool) -> Walk {
    Walk {
        photons: put(w.photons, out),
        rank: stamp(w.rank, out, w.clock),
        clock: w.clock + 1,
        done: w.done.update(mode as int, true),
        seen: if detects {
            w.seen.push(mode as int)
        } else {
            w.seen
        },
    }
}

/// The exits of the operators are as many as the kinds say.
pub open spec fn well_shaped(plan: PlanView) -> bool {
    forall|c: int|
        0 <= c < plan.cells.len() && (#[trigger] plan.cells[c]) is Data ==> fits_kind(
            node_at(plan.cells, c),
        )
}

/// The operator has the links that its kind needs.
pub open spec fn fits_kind(node: Node) -> bool {
    &&& (!meets_others(node) ==> node.links.len() == 1)
    &&& (node.kind is Interfere ==> node.links.len() == 2)
    &&& forall|k: int|
        0 <= k < node.links.len() ==> (#[trigger] node.links[k]).sinks.len() == (
        match node.kind {
            NodeKind::Relay => 1nat,
            NodeKind::Detect { .. } | NodeKind::Dump => 0nat,
            _ => 2nat,
        })
}

/// What is true of the modes in `out` when they are the exits of the operator in
/// cell `c`.
proof fn lemma_exits(
    plan: PlanView,
    chance: Chance,
    c: int,
    photons: Seq<Photon>,
    out: Seq<(ModeIndex, Photon)>,
)
    requires
        is_circuit(plan),
        well_shaped(plan),
        0 <= c < plan.cells.len(),
        plan.cells[c] is Data,
        released(chance, node_at(plan.cells, c), photons, out),
    ensures
        forall|i: int|
            0 <= i < out.len() ==> is_entry(plan, Entry { cell: c, link: i / 2, sink: i % 2 })
                && entry_mode(plan, Entry { cell: c, link: i / 2, sink: i % 2 }) == (
            #[trigger] out[i]).0 && out[i].0 < plan.consumers.len(),
        forall|i: int, j: int|
            0 <= i < j < out.len() ==> (#[trigger] out[i]).0 != (#[trigger] out[j]).0,
{
    let node = node_at(plan.cells, c);
    assert(fits_kind(node));
    assert forall|i: int| 0 <= i < out.len() implies is_entry(
        plan,
        Entry { cell: c, link: i / 2, sink: i % 2 },
    ) && entry_mode(plan, Entry { cell: c, link: i / 2, sink: i % 2 }) == (#[trigger] out[i]).0
        && out[i].0 < plan.consumers.len() by {
        let k = i / 2;
        let j = i % 2;
        assert(0 <= k < node.links.len());
        assert(node.links[k].sinks.len() > j);
        let e = Entry { cell: c, link: k, sink: j };
        assert(is_entry(plan, e));
        assert(out[2 * k + j].0 == node.links[k].sinks[j]);
        assert(is_claimed(plan, entry_mode(plan, e)));
    }
    assert forall|i: int, j: int| 0 <= i < j < out.len() implies (#[trigger] out[i]).0 != (
    #[trigger] out[j]).0 by {
        let e = Entry { cell: c, link: i / 2, sink: i % 2 };
        let f = Entry { cell: c, link: j / 2, sink: j % 2 };
        assert(is_entry(plan, e) && is_entry(plan, f));
        if out[i].0 == out[j].0 {
            assert(e == f);
        }
    }
}

/// Photons put in distinct modes are found there, and the rest stays.
proof fn lemma_put(photons: Photons, rank: Seq<int>, clock: int, out: Seq<(ModeIndex, Photon)>)
    requires
        rank.len() == photons.len(),
        forall|i: int| 0 <= i < out.len() ==> (#[trigger] out[i]).0 < photons.len(),
        forall|i: int, j: int|
            0 <= i < j < out.len() ==> (#[trigger] out[i]).0 != (#[trigger] out[j]).0,
    ensures
        forall|i: int|
            0 <= i < out.len() ==> put(photons, out)[(#[trigger] out[i]).0 as int] == Some(
                out[i].1,
            ) && stamp(rank, out, clock)[out[i].0 as int] == clock,
        forall|m: int|
            0 <= m < photons.len() && (forall|i: int|
                0 <= i < out.len() ==> (#[trigger] out[i]).0 != m) ==> #[trigger] put(
                photons,
                out,
            )[m] == photons[m] && stamp(rank, out, clock)[m] == rank[m],
{
    assert forall|i: int| 0 <= i < out.len() implies put(photons, out)[(
    #[trigger] out[i]).0 as int] == Some(out[i].1) && stamp(rank, out, clock)[out[i].0 as int]
        == clock by {
        let m = out[i].0 as int;
        let chosen = choose|i: int| 0 <= i < out.len() && (#[trigger] out[i]).0 == m;
        assert(out[chosen].0 == m);
        assert(chosen == i);
    }
}

/// The photon on top of the stack goes to the operator in cell `c`, which sends
/// `out` on if it has all its photons then.
spec fn hands_over(
    plan: PlanView,
    chance: Chance,
    w: Walk,
    stack: Seq<(ModeIndex, Photon)>,
    c: int,
    out: Seq<(ModeIndex, Photon)>,
) -> bool {
    let mode = stack.last().0;
    let after = Walk { done: w.done.update(mode as int, true), ..w };
    let links = node_at(plan.cells, c).links;
    &&& is_circuit(plan)
    &&& well_shaped(plan)
    &&& flows(plan, chance, w)
    &&& stacked(w, stack)
    &&& stack.len() > 0
    &&& 0 <= c < plan.cells.len()
    &&& plan.cells[c] is Data
    &&& consumed_by(plan, mode, c)
    &&& has_source(links, mode)
    &&& if all_arrived(plan, c, handed_over(after)) {
        released(
            chance,
            node_at(plan.cells, c),
            Seq::new(links.len(), |k: int| at_mode(w.photons, links[k].source)),
            out,
        )
    } else {
        out.len() == 0
    }
}

/// The modes in `out` had no photon before, and no other operator leads to them.
proof fn lemma_out_is_new(
    plan: PlanView,
    chance: Chance,
    w: Walk,
    stack: Seq<(ModeIndex, Photon)>,
    c: int,
    out: Seq<(ModeIndex, Photon)>,
)
    requires
        hands_over(plan, chance, w, stack, c, out),
    ensures
        !all_arrived(plan, c, handed_over(w)),
        forall|i: int|
            0 <= i < out.len() ==> is_entry(plan, Entry { cell: c, link: i / 2, sink: i % 2 })
                && entry_mode(plan, Entry { cell: c, link: i / 2, sink: i % 2 }) == (
            #[trigger] out[i]).0 && out[i].0 < plan.consumers.len() && w.photons[out[i].0 as int]
                is None,
        forall|i: int, j: int|
            0 <= i < j < out.len() ==> (#[trigger] out[i]).0 != (#[trigger] out[j]).0,
        put(w.photons, out).len() == w.photons.len(),
        forall|i: int|
            0 <= i < out.len() ==> put(w.photons, out)[(#[trigger] out[i]).0 as int] == Some(
                out[i].1,
            ) && stamp(w.rank, out, w.clock)[out[i].0 as int] == w.clock,
        forall|m: int|
            0 <= m < w.photons.len() && (forall|i: int|
                0 <= i < out.len() ==> (#[trigger] out[i]).0 != m) ==> #[trigger] put(
                w.photons,
                out,
            )[m] == w.photons[m] && stamp(w.rank, out, w.clock)[m] == w.rank[m],
        forall|m: int|
            0 <= m < w.photons.len() && w.photons[m] is Some ==> #[trigger] put(w.photons, out)[m]
                == w.photons[m] && stamp(w.rank, out, w.clock)[m] == w.rank[m],
{
    let node = node_at(plan.cells, c);
    let mode = stack.last().0;
    assert(stack[stack.len() - 1] == stack.last());
    let k = first_source(node.links, mode);
    lemma_first_source(node.links, mode);
    assert(node.links[k].source == mode);
    assert(handed_over(w)[mode as int] is None);
    assert(!all_arrived(plan, c, handed_over(w)));
    if out.len() > 0 {
        let photons = Seq::new(
            node.links.len(),
            |k: int| at_mode(w.photons, node.links[k].source),
        );
        lemma_exits(plan, chance, c, photons, out);
        assert forall|i: int| 0 <= i < out.len() implies w.photons[(
        #[trigger] out[i]).0 as int] is None by {
            let e = Entry { cell: c, link: i / 2, sink: i % 2 };
            assert(is_entry(plan, e));
            assert(node.links[e.link].sinks[e.sink] == out[i].0);
        }
    }
    lemma_put(w.photons, w.rank, w.clock, out);
}

/// An operator whose modes all stay as they were has passed on what it had.
proof fn lemma_passes_same(chance: Chance, node: Node, before: Photons, after: Photons)
    requires
        fits_kind(node),
        passes(chance, node, before),
        forall|k: int|
            0 <= k < node.links.len() ==> after[(#[trigger] node.links[k]).source as int]
                == before[node.links[k].source as int],
        forall|k: int, j: int|
            0 <= k < node.links.len() && 0 <= j < node.links[k].sinks.len() ==> after[(
            #[trigger] node.links[k].sinks[j]) as int] == before[node.links[k].sinks[j] as int],
    ensures
        passes(chance, node, after),
{
    let links = node.links;
    if node.kind is Split || node.kind is Multi {
        assert forall|k: int| 0 <= k < links.len() implies drawn_split(
            chance,
            at_mode(after, (#[trigger] links[k]).source),
            at_mode(after, links[k].sinks[0]),
            at_mode(after, links[k].sinks[1]),
        ) by {
            assert(links[k].sinks.len() == 2);
            assert(after[links[k].sinks[0] as int] == before[links[k].sinks[0] as int]);
            assert(after[links[k].sinks[1] as int] == before[links[k].sinks[1] as int]);
        }
    } else if node.kind is Relay {
        assert(links[0].sinks.len() == 1);
        assert(after[links[0].sinks[0] as int] == before[links[0].sinks[0] as int]);
    } else if node.kind is Interfere {
        assert(links[0].sinks.len() == 2 && links[1].sinks.len() == 2);
        assert(after[links[0].sinks[0] as int] == before[links[0].sinks[0] as int]);
        assert(after[links[0].sinks[1] as int] == before[links[0].sinks[1] as int]);
        assert(after[links[1].sinks[0] as int] == before[links[1].sinks[0] as int]);
        assert(after[links[1].sinks[1] as int] == before[links[1].sinks[1] as int]);
    }
}

/// What the operator released is what it passes on.
proof fn lemma_released_passes(
    chance: Chance,
    node: Node,
    before: Photons,
    after: Photons,
    out: Seq<(ModeIndex, Photon)>,
)
    requires
        fits_kind(node),
        released(
            chance,
            node,
            Seq::new(node.links.len(), |k: int| at_mode(before, node.links[k].source)),
            out,
        ),
        forall|k: int|
            0 <= k < node.links.len() ==> after[(#[trigger] node.links[k]).source as int]
                == before[node.links[k].source as int],
        forall|i: int|
            0 <= i < out.len() ==> after[(#[trigger] out[i]).0 as int] == Some(out[i].1),
    ensures
        passes(chance, node, after),
{
    let links = node.links;
    let photons = Seq::new(links.len(), |k: int| at_mode(before, links[k].source));
    assert forall|k: int, j: int|
        0 <= k < links.len() && 0 <= j < links[k].sinks.len() implies at_mode(
        after,
        #[trigger] links[k].sinks[j],
    ) == out[2 * k + j].1 by {
        assert(links[k].sinks.len() <= 2);
        assert(out[2 * k + j].0 == links[k].sinks[j]);
    }
    if node.kind is Split || node.kind is Multi {
        assert forall|k: int| 0 <= k < links.len() implies drawn_split(
            chance,
            at_mode(after, (#[trigger] links[k]).source),
            at_mode(after, links[k].sinks[0]),
            at_mode(after, links[k].sinks[1]),
        ) by {
            assert(links[k].sinks.len() == 2);
            assert(drawn_split(chance, photons[k], out[2 * k].1, out[2 * k + 1].1));
            assert(at_mode(after, links[k].sinks[0]) == out[2 * k + 0].1);
        }
    } else if node.kind is Relay {
        assert(links[0].sinks.len() == 1);
        assert(photons[0] == at_mode(after, links[0].source));
    } else if node.kind is Interfere {
        assert(links[0].sinks.len() == 2 && links[1].sinks.len() == 2);
        assert(photons[0] == at_mode(after, links[0].source));
        assert(photons[1] == at_mode(after, links[1].source));
        assert(at_mode(after, links[0].sinks[0]) == out[0].1);
        assert(at_mode(after, links[0].sinks[1]) == out[1].1);
        assert(at_mode(after, links[1].sinks[0]) == out[2].1);
        assert(at_mode(after, links[1].sinks[1]) == out[3].1);
    }
}

/// Handing a photon over keeps the flow.
proof fn lemma_flows_on(
    plan: PlanView,
    chance: Chance,
    w: Walk,
    stack: Seq<(ModeIndex, Photon)>,
    c: int,
    out: Seq<(ModeIndex, Photon)>,
    detects: bool,
)
    requires
        hands_over(plan, chance, w, stack, c, out),
    ensures
        flows(plan, chance, advanced(w, stack.last().0, out, detects)),
{
    let mode = stack.last().0;
    let next = advanced(w, mode, out, detects);
    let middle = Walk { done: w.done.update(mode as int, true), ..w };
    assert(stack[stack.len() - 1] == stack.last());
    lemma_out_is_new(plan, chance, w, stack, c, out);
    assert(handed_over(next) =~= handed_over(middle));
    assert forall|d: int| 0 <= d < plan.cells.len() && (#[trigger] plan.cells[d]) is Data implies {
        if all_arrived(plan, d, handed_over(next)) {
            &&& passes(chance, node_at(plan.cells, d), next.photons)
            &&& sinks_filled(node_at(plan.cells, d).links, next.photons, next.rank)
        } else {
            sinks_empty(node_at(plan.cells, d).links, next.photons)
        }
    } by {
        let node = node_at(plan.cells, d);
        assert(fits_kind(node));
        let links = node.links;
        if d != c {
            if all_arrived(plan, d, handed_over(next)) {
                assert forall|k: int| 0 <= k < links.len() implies consumed_by(
                    plan,
                    (#[trigger] links[k]).source,
                    d,
                ) && handed_over(w)[links[k].source as int] is Some by {
                    assert(links[k].source != mode);
                    assert(handed_over(middle)[links[k].source as int] is Some);
                }
                assert(all_arrived(plan, d, handed_over(w)));
                assert forall|k: int| 0 <= k < links.len() implies next.photons[(
                #[trigger] links[k]).source as int] == w.photons[links[k].source as int]
                    && next.rank[links[k].source as int] == w.rank[links[k].source as int] by {
                    assert(handed_over(w)[links[k].source as int] is Some);
                }
                assert forall|k: int, j: int|
                    0 <= k < links.len() && 0 <= j < links[k].sinks.len() implies next.photons[(
                #[trigger] links[k].sinks[j]) as int] == w.photons[links[k].sinks[j] as int]
                    && next.rank[links[k].sinks[j] as int] == w.rank[links[k].sinks[j] as int] by {
                    let e = Entry { cell: d, link: k, sink: j };
                    assert(is_entry(plan, e));
                    assert(is_claimed(plan, entry_mode(plan, e)));
                    assert(w.photons[links[k].sinks[j] as int] is Some);
                }
                lemma_passes_same(chance, node, w.photons, next.photons);
                assert(sinks_filled(links, next.photons, next.rank));
            } else {
                assert(!all_arrived(plan, d, handed_over(w))) by {
                    let k = choose|k: int|
                        0 <= k < links.len() && !(consumed_by(
                            plan,
                            (#[trigger] links[k]).source,
                            d,
                        ) && handed_over(next)[links[k].source as int] is Some);
                    assert(!(consumed_by(plan, links[k].source, d) && handed_over(
                        w,
                    )[links[k].source as int] is Some));
                }
                assert forall|k: int, j: int|
                    0 <= k < links.len() && 0 <= j < links[k].sinks.len() implies next.photons[(
                #[trigger] links[k].sinks[j]) as int] is None by {
                    let e = Entry { cell: d, link: k, sink: j };
                    assert(is_entry(plan, e));
                    assert(is_claimed(plan, entry_mode(plan, e)));
                    assert forall|i: int| 0 <= i < out.len() implies (#[trigger] out[i]).0
                        != links[k].sinks[j] by {
                        let f = Entry { cell: c, link: i / 2, sink: i % 2 };
                        assert(is_entry(plan, f));
                    }
                }
            }
        } else {
            if all_arrived(plan, c, handed_over(next)) {
                assert forall|k: int| 0 <= k < links.len() implies next.photons[(
                #[trigger] links[k]).source as int] == w.photons[links[k].source as int]
                    && next.rank[links[k].source as int] < w.clock by {
                    assert(handed_over(middle)[links[k].source as int] is Some);
                    assert(w.photons[links[k].source as int] is Some);
                }
                lemma_released_passes(chance, node, w.photons, next.photons, out);
                assert forall|k: int, j: int|
                    0 <= k < links.len() && 0 <= j < links[k].sinks.len() implies next.photons[(
                #[trigger] links[k].sinks[j]) as int] is Some && next.rank[links[k].sinks[j] as int]
                    == w.clock by {
                    assert(links[k].sinks.len() <= 2);
                    assert(out[2 * k + j].0 == links[k].sinks[j]);
                }
                assert(sinks_filled(links, next.photons, next.rank));
            } else {
                assert forall|k: int, j: int|
                    0 <= k < links.len() && 0 <= j < links[k].sinks.len() implies next.photons[(
                #[trigger] links[k].sinks[j]) as int] is None by {
                    let e = Entry { cell: c, link: k, sink: j };
                    assert(is_entry(plan, e));
                    assert(is_claimed(plan, entry_mode(plan, e)));
                }
            }
        }
    }
    assert forall|m: int|
        0 <= m < next.photons.len() && (#[trigger] next.photons[m]) is Some implies next.rank[m]
        < next.clock && exists|e: Entry| #[trigger] is_entry(plan, e) && entry_mode(plan, e)
        == m by {
        if exists|i: int| 0 <= i < out.len() && (#[trigger] out[i]).0 == m {
            let i = choose|i: int| 0 <= i < out.len() && (#[trigger] out[i]).0 == m;
            let f = Entry { cell: c, link: i / 2, sink: i % 2 };
            assert(is_entry(plan, f) && entry_mode(plan, f) == m);
        } else {
            assert(next.photons[m] == w.photons[m]);
        }
    }
    assert forall|i: int| 0 <= i < plan.emitted.len() implies next.photons[(
    #[trigger] plan.emitted[i]).0 as int] == Some(plan.emitted[i].1) by {
        let e = Entry { cell: -1, link: i, sink: 0 };
        assert(is_entry(plan, e));
        assert(is_claimed(plan, entry_mode(plan, e)));
    }
}

/// Handing a photon over keeps the stack in order.
proof fn lemma_stacked_on(
    w: Walk,
    stack: Seq<(ModeIndex, Photon)>,
    out: Seq<(ModeIndex, Photon)>,
    detects: bool,
)
    requires
        stack.len() > 0,
        stacked(w, stack),
        w.rank.len() == w.photons.len(),
        w.done.len() == w.photons.len(),
        forall|m: int| 0 <= m < w.done.len() && #[trigger] w.done[m] ==> w.photons[m] is Some,
        forall|i: int|
            0 <= i < out.len() ==> (#[trigger] out[i]).0 < w.photons.len()
                && w.photons[out[i].0 as int] is None,
        forall|i: int, j: int|
            0 <= i < j < out.len() ==> (#[trigger] out[i]).0 != (#[trigger] out[j]).0,
    ensures
        stacked(advanced(w, stack.last().0, out, detects), stack.drop_last() + out),
{
    let mode = stack.last().0;
    let next = advanced(w, mode, out, detects);
    let now = stack.drop_last() + out;
    let kept = stack.len() - 1;
    assert(stack[kept] == stack.last());
    lemma_put(w.photons, w.rank, w.clock, out);
    assert forall|i: int| 0 <= i < now.len() implies (#[trigger] now[i]).0 < next.photons.len()
        && next.photons[now[i].0 as int] == Some(now[i].1) && !next.done[now[i].0 as int] by {
        if i < kept {
            assert(now[i] == stack[i]);
        } else {
            assert(now[i] == out[i - kept]);
        }
    }
    assert forall|i: int, j: int| 0 <= i < j < now.len() implies (#[trigger] now[i]).0 != (
    #[trigger] now[j]).0 by {
        if j < kept {
            assert(now[i] == stack[i] && now[j] == stack[j]);
        } else if i >= kept {
            assert(now[i] == out[i - kept] && now[j] == out[j - kept]);
        } else {
            assert(now[i] == stack[i] && now[j] == out[j - kept]);
            assert(w.photons[stack[i].0 as int] is Some);
        }
    }
    assert forall|m: int|
        0 <= m < next.photons.len() && (#[trigger] next.photons[m]) is Some
            && !next.done[m] implies exists|i: int|
        0 <= i < now.len() && (#[trigger] now[i]).0 == m by {
        if exists|i: int| 0 <= i < out.len() && (#[trigger] out[i]).0 == m {
            let i = choose|i: int| 0 <= i < out.len() && (#[trigger] out[i]).0 == m;
            assert(now[kept + i] == out[i]);
        } else {
            assert(w.photons[m] is Some && !w.done[m]);
            let i = choose|i: int| 0 <= i < stack.len() && (#[trigger] stack[i]).0 == m;
            assert(now[i] == stack[i]);
        }
    }
}

/// Handing a photon over keeps the record.
proof fn lemma_records_on(
    plan: PlanView,
    chance: Chance,
    w: Walk,
    stack: Seq<(ModeIndex, Photon)>,
    c: int,
    out: Seq<(ModeIndex, Photon)>,
    results: Seq<WpResult>,
)
    requires
        hands_over(plan, chance, w, stack, c, out),
        records(plan, handed_over(w), w.seen, results),
    ensures
        records(
            plan,
            handed_over(
                advanced(w, stack.last().0, out, node_at(plan.cells, c).kind is Detect),
            ),
            advanced(w, stack.last().0, out, node_at(plan.cells, c).kind is Detect).seen,
            if node_at(plan.cells, c).kind is Detect {
                results.push(detected(node_at(plan.cells, c).kind, stack.last().1))
            } else {
                results
            },
        ),
{
    let mode = stack.last().0 as int;
    let kind = node_at(plan.cells, c).kind;
    let next = advanced(w, stack.last().0, out, kind is Detect);
    let before = handed_over(w);
    let after = handed_over(next);
    assert(stack[stack.len() - 1] == stack.last());
    lemma_out_is_new(plan, chance, w, stack, c, out);
    assert(after =~= before.update(mode, Some(stack.last().1)));
    assert(consumer_kind(plan, mode) == kind);
    assert(before[mode] is None);
    assert forall|i: int| 0 <= i < w.seen.len() implies at_detector(
        plan,
        after,
        #[trigger] w.seen[i],
    ) && w.seen[i] != mode by {
        assert(at_detector(plan, before, w.seen[i]));
    }
    assert forall|m: int| #[trigger] at_detector(plan, after, m) implies next.seen.contains(m) by {
        if m == mode {
            assert(next.seen[next.seen.len() - 1] == mode);
        } else {
            assert(at_detector(plan, before, m));
            let i = choose|i: int| 0 <= i < w.seen.len() && w.seen[i] == m;
            assert(next.seen[i] == m);
        }
    }
    assert forall|i: int| 0 <= i < next.seen.len() implies at_detector(
        plan,
        after,
        #[trigger] next.seen[i],
    ) by {
        if i < w.seen.len() {
            assert(next.seen[i] == w.seen[i]);
        }
    }
}

/// Handing a photon over is the operator's business alone.
proof fn lemma_holding_on(
    plan: PlanView,
    chance: Chance,
    w: Walk,
    stack: Seq<(ModeIndex, Photon)>,
    c: int,
    out: Seq<(ModeIndex, Photon)>,
    detects: bool,
    cells: Seq<MonotonicMapCell<Node>>,
    node: Node,
)
    requires
        hands_over(plan, chance, w, stack, c, out),
        holding(plan, w, cells),
        node.kind == node_at(cells, c).kind,
        node.links == node_at(cells, c).links,
        meets_others(node) ==> node.held == node_at(cells, c).held.update(
            first_source(node.links, stack.last().0),
            Some(stack.last().1),
        ),
    ensures
        holding(
            plan,
            advanced(w, stack.last().0, out, detects),
            cells.update(c, MonotonicMapCell::Data(node)),
        ),
{
    let mode = stack.last().0;
    let next = advanced(w, mode, out, detects);
    let now = cells.update(c, MonotonicMapCell::Data(node));
    assert(stack[stack.len() - 1] == stack.last());
    lemma_out_is_new(plan, chance, w, stack, c, out);
    assert(holds_for(plan, w, c, node_at(cells, c)));
    lemma_first_source(node.links, mode);
    assert forall|d: int| 0 <= d < now.len() implies match #[trigger] plan.cells[d] {
        MonotonicMapCell::Moved(to) => now[d] == MonotonicMapCell::<Node>::Moved(to),
        MonotonicMapCell::Data(_) => {
            &&& now[d] is Data
            &&& holds_for(plan, next, d, node_at(now, d))
        },
    } by {
        if plan.cells[d] is Data {
            let was = node_at(cells, d);
            let is = node_at(now, d);
            assert(holds_for(plan, w, d, was));
            assert(distinct_sources(is.links));
            if meets_others(is) {
                assert forall|k: int| 0 <= k < is.links.len() implies (#[trigger] is.held[k])
                    == handed_to(plan, next, d, is.links[k].source) by {
                    assert(was.held[k] == handed_to(plan, w, d, was.links[k].source));
                    if d == c {
                        let first = first_source(node.links, mode);
                        assert(is.links[first].source == mode);
                        assert(is.links[k].source == mode ==> k == first);
                    }
                }
            }
        }
    }
}

/// Whether the operator now has all its photons shows in what it holds.
proof fn lemma_ready(
    plan: PlanView,
    w: Walk,
    mode: ModeIndex,
    photon: Photon,
    c: int,
    cells: Seq<MonotonicMapCell<Node>>,
    node: Node,
)
    requires
        is_circuit(plan),
        well_shaped(plan),
        holding(plan, w, cells),
        0 <= c < plan.cells.len(),
        plan.cells[c] is Data,
        consumed_by(plan, mode, c),
        has_source(node.links, mode),
        w.photons.len() == plan.consumers.len(),
        w.done.len() == w.photons.len(),
        w.photons[mode as int] == Some(photon),
        forall|m: int| 0 <= m < w.done.len() && #[trigger] w.done[m] ==> w.photons[m] is Some,
        node.kind == node_at(cells, c).kind,
        node.links == node_at(cells, c).links,
        meets_others(node) ==> node.held == node_at(cells, c).held.update(
            first_source(node.links, mode),
            Some(photon),
        ),
    ensures
        all_arrived(
            plan,
            c,
            handed_over(Walk { done: w.done.update(mode as int, true), ..w }),
        ) == (meets_others(node) ==> all_held(node)),
        (meets_others(node) ==> all_held(node)) ==> arrived(node, photon) == Seq::new(
            node.links.len(),
            |k: int| at_mode(w.photons, node.links[k].source),
        ),
{
    let after = Walk { done: w.done.update(mode as int, true), ..w };
    let was = node_at(cells, c);
    let links = node.links;
    assert(holds_for(plan, w, c, was));
    assert(fits_kind(node_at(plan.cells, c)));
    assert(distinct_sources(links));
    lemma_first_source(links, mode);
    let first = first_source(links, mode);
    if meets_others(node) {
        assert forall|k: int| 0 <= k < links.len() implies (#[trigger] node.held[k]) == handed_to(
            plan,
            after,
            c,
            links[k].source,
        ) by {
            assert(was.held[k] == handed_to(plan, w, c, links[k].source));
            assert(links[first].source == mode);
            assert(links[k].source == mode ==> k == first);
        }
        if all_held(node) {
            assert forall|k: int| 0 <= k < links.len() implies consumed_by(
                plan,
                (#[trigger] links[k]).source,
                c,
            ) && handed_over(after)[links[k].source as int] is Some by {
                assert(node.held[k] is Some);
            }
            assert(arrived(node, photon) =~= Seq::new(
                links.len(),
                |k: int| at_mode(w.photons, links[k].source),
            ));
        } else {
            let k = choose|k: int|
                0 <= k < node.held.len() && !((#[trigger] node.held[k]) is Some);
            assert(!(consumed_by(plan, links[k].source, c) && handed_over(
                after,
            )[links[k].source as int] is Some));
        }
    } else {
        assert(links.len() == 1);
        assert(first == 0);
        assert(handed_over(after)[mode as int] is Some);
        assert(all_arrived(plan, c, handed_over(after)));
        assert(arrived(node, photon) =~= Seq::new(
            links.len(),
            |k: int| at_mode(w.photons, links[k].source),
        ));
    }
}

/// The walk before the first photon is handed over.
spec fn at_start(plan: PlanView) -> Walk {
    Walk {
        photons: put(Seq::new(plan.consumers.len(), |m: int| None), plan.emitted),
        rank: Seq::new(plan.consumers.len(), |m: int| 0),
        clock: 1,
        done: Seq::new(plan.consumers.len(), |m: int| false),
        seen: seq![],
    }
}

proof fn lemma_at_start(plan: PlanView, chance: Chance)
    requires
        is_circuit(plan),
        well_shaped(plan),
        forall|c: int|
            0 <= c < plan.cells.len() ==> (#[trigger] plan.cells[c] matches MonotonicMapCell::Data(
                node,
            ) ==> node.held == none_held(node.links.len())),
    ensures
        flows(plan, chance, at_start(plan)),
        stacked(at_start(plan), plan.emitted),
        holding(plan, at_start(plan), plan.cells),
        records(plan, handed_over(at_start(plan)), at_start(plan).seen, seq![]),
{
    let w = at_start(plan);
    let none: Photons = Seq::new(plan.consumers.len(), |m: int| None);
    assert forall|i: int| 0 <= i < plan.emitted.len() implies (#[trigger] plan.emitted[i]).0
        < none.len() by {
        let e = Entry { cell: -1, link: i, sink: 0 };
        assert(is_entry(plan, e));
        assert(is_claimed(plan, entry_mode(plan, e)));
    }
    assert forall|i: int, j: int| 0 <= i < j < plan.emitted.len() implies (
    #[trigger] plan.emitted[i]).0 != (#[trigger] plan.emitted[j]).0 by {
        let e = Entry { cell: -1, link: i, sink: 0 };
        let f = Entry { cell: -1, link: j, sink: 0 };
        assert(is_entry(plan, e) && is_entry(plan, f));
    }
    lemma_put(none, w.rank, 0, plan.emitted);
    assert forall|c: int| 0 <= c < plan.cells.len() && (#[trigger] plan.cells[c]) is Data implies {
        if all_arrived(plan, c, handed_over(w)) {
            &&& passes(chance, node_at(plan.cells, c), w.photons)
            &&& sinks_filled(node_at(plan.cells, c).links, w.photons, w.rank)
        } else {
            sinks_empty(node_at(plan.cells, c).links, w.photons)
        }
    } by {
        let node = node_at(plan.cells, c);
        assert(fits_kind(node));
        if all_arrived(plan, c, handed_over(w)) && node.links.len() > 0 {
            assert(handed_over(w)[node.links[0].source as int] is Some);
        }
        assert forall|k: int, j: int|
            0 <= k < node.links.len() && 0 <= j < node.links[k].sinks.len() implies w.photons[(
        #[trigger] node.links[k].sinks[j]) as int] is None by {
            let e = Entry { cell: c, link: k, sink: j };
            assert(is_entry(plan, e));
            assert(is_claimed(plan, entry_mode(plan, e)));
            assert forall|i: int| 0 <= i < plan.emitted.len() implies (
            #[trigger] plan.emitted[i]).0 != node.links[k].sinks[j] by {
                let f = Entry { cell: -1, link: i, sink: 0 };
                assert(is_entry(plan, f));
            }
        }
    }
    assert forall|m: int|
        0 <= m < w.photons.len() && (#[trigger] w.photons[m]) is Some implies w.rank[m] < w.clock
        && (exists|e: Entry| #[trigger] is_entry(plan, e) && entry_mode(plan, e) == m) && (exists|
        i: int,
    |
        0 <= i < plan.emitted.len() && (#[trigger] plan.emitted[i]).0 == m) by {
        let i = choose|i: int| 0 <= i < plan.emitted.len() && (#[trigger] plan.emitted[i]).0 == m;
        let e = Entry { cell: -1, link: i, sink: 0 };
        assert(is_entry(plan, e));
    }
}

/// A walk with nothing left to hand over has settled.
proof fn lemma_at_end(plan: PlanView, chance: Chance, w: Walk, results: Seq<WpResult>)
    requires
        flows(plan, chance, w),
        stacked(w, seq![]),
        records(plan, handed_over(w), w.seen, results),
    ensures
        is_settled_outcome(plan, chance, results),
{
    assert(handed_over(w) =~= w.photons) by {
        assert forall|m: int| 0 <= m < w.photons.len() implies handed_over(w)[m] == w.photons[m] by {
            if w.photons[m] is Some && !w.done[m] {
                let stack = Seq::<(ModeIndex, Photon)>::empty();
                let i = choose|i: int| 0 <= i < stack.len() && (#[trigger] stack[i]).0 == m;
                assert(false);
            }
        }
    }
    assert(settled(plan, chance, w.photons, w.rank));
}

/// All that holds while the photons are on their way.
#[verifier::opaque]
spec fn walking(
    plan: PlanView,
    chance: Chance,
    w: Walk,
    stack: Seq<(ModeIndex, Photon)>,
    cells: Seq<MonotonicMapCell<Node>>,
    results: Seq<WpResult>,
) -> bool {
    &&& is_circuit(plan)
    &&& well_shaped(plan)
    &&& all_rooted(hops_of(plan.cells))
    &&& holding(plan, w, cells)
    &&& flows(plan, chance, w)
    &&& stacked(w, stack)
    &&& records(plan, handed_over(w), w.seen, results)
}

/// Handles lead to operators, which have the links that their kinds need and hold nothing.
pub open spec fn is_sound(plan: PlanView) -> bool {
    &&& all_rooted(hops_of(plan.cells))
    &&& well_shaped(plan)
    &&& holds_nothing(plan)
}

pub open spec fn holds_nothing(plan: PlanView) -> bool {
    forall|c: int|
        0 <= c < plan.cells.len() && (#[trigger] plan.cells[c]) is Data ==> node_at(
            plan.cells,
            c,
        ).held == none_held(node_at(plan.cells, c).links.len())
}

proof fn lemma_walking_at_start(plan: PlanView, chance: Chance)
    requires
        is_circuit(plan),
        is_sound(plan),
    ensures
        walking(plan, chance, at_start(plan), plan.emitted, plan.cells, seq![]),
{
    reveal(walking);
    lemma_at_start(plan, chance);
}

proof fn lemma_walking_at_end(
    plan: PlanView,
    chance: Chance,
    w: Walk,
    cells: Seq<MonotonicMapCell<Node>>,
    results: Seq<WpResult>,
)
    requires
        walking(plan, chance, w, seq![], cells, results),
    ensures
        is_settled_outcome(plan, chance, results),
{
    reveal(walking);
    lemma_at_end(plan, chance, w, results);
}

/// The operator that the photon on top of the stack goes to can take it in.
proof fn lemma_top(
    plan: PlanView,
    chance: Chance,
    w: Walk,
    stack: Seq<(ModeIndex, Photon)>,
    cells: Seq<MonotonicMapCell<Node>>,
    results: Seq<WpResult>,
)
    requires
        walking(plan, chance, w, stack, cells, results),
        stack.len() > 0,
    ensures
        stack.last().0 < plan.consumers.len(),
        plan.consumers[stack.last().0 as int] < plan.cells.len(),
        has_root(hops_of(plan.cells), plan.consumers[stack.last().0 as int] as int),
        0 <= plan.root(plan.consumers[stack.last().0 as int]) < cells.len(),
        cells[plan.root(plan.consumers[stack.last().0 as int])] is Data,
        has_source(
            node_at(cells, plan.root(plan.consumers[stack.last().0 as int])).links,
            stack.last().0,
        ),
{
    reveal(walking);
    let mode = stack.last().0;
    assert(stack[stack.len() - 1] == stack.last());
    assert(w.photons[mode as int] is Some);
    let e = choose|e: Entry| #[trigger] is_entry(plan, e) && entry_mode(plan, e) == mode as int;
    assert(is_claimed(plan, entry_mode(plan, e)));
    let handle = plan.consumers[mode as int];
    assert(has_root(hops_of(plan.cells), handle as int));
    lemma_root(hops_of(plan.cells), handle as int);
    let c = plan.root(handle);
    assert(plan.cells[c] is Data);
    assert(holds_for(plan, w, c, node_at(cells, c)));
}

/// One photon handed over: what was released, if the operator has all its photons,
/// goes on the stack.
proof fn lemma_walking_on(
    plan: PlanView,
    chance: Chance,
    w: Walk,
    stack: Seq<(ModeIndex, Photon)>,
    cells: Seq<MonotonicMapCell<Node>>,
    results: Seq<WpResult>,
    node: Node,
    out: Seq<(ModeIndex, Photon)>,
) -> (next: Walk)
    requires
        walking(plan, chance, w, stack, cells, results),
        stack.len() > 0,
        ({
            let was = node_at(cells, plan.root(plan.consumers[stack.last().0 as int]));
            &&& node.kind == was.kind
            &&& node.links == was.links
            &&& meets_others(node) ==> node.held == was.held.update(
                first_source(node.links, stack.last().0),
                Some(stack.last().1),
            )
        }),
        if meets_others(node) ==> all_held(node) {
            released(chance, node, arrived(node, stack.last().1), out)
        } else {
            out.len() == 0
        },
    ensures
        walking(
            plan,
            chance,
            next,
            stack.drop_last() + out,
            cells.update(
                plan.root(plan.consumers[stack.last().0 as int]),
                MonotonicMapCell::Data(node),
            ),
            if node.kind is Detect {
                results.push(detected(node.kind, stack.last().1))
            } else {
                results
            },
        ),
{
    lemma_top(plan, chance, w, stack, cells, results);
    let (mode, photon) = stack.last();
    let c = plan.root(plan.consumers[mode as int]);
    let links = node.links;
    assert(stack[stack.len() - 1] == stack.last());
    assert(hands_over(plan, chance, w, stack, c, out)) by {
        reveal(walking);
        assert(plan.cells[c] is Data) by {
            lemma_root(hops_of(plan.cells), plan.consumers[mode as int] as int);
        }
        assert(holds_for(plan, w, c, node_at(cells, c)));
        lemma_ready(plan, w, mode, photon, c, cells, node);
        if meets_others(node) ==> all_held(node) {
            let photons = Seq::new(links.len(), |k: int| at_mode(w.photons, links[k].source));
            lemma_released_same(chance, node, node_at(plan.cells, c), photons, out);
        }
    }
    let detects = node.kind is Detect;
    let next = advanced(w, mode, out, detects);
    assert(holds_for(plan, w, c, node_at(cells, c)) && holding(plan, w, cells)) by {
        reveal(walking);
        assert(plan.cells[c] is Data);
    }
    assert(records(plan, handed_over(w), w.seen, results) && all_rooted(hops_of(plan.cells))) by {
        reveal(walking);
    }
    lemma_flows_on(plan, chance, w, stack, c, out, detects);
    lemma_records_on(plan, chance, w, stack, c, out, results);
    lemma_holding_on(plan, chance, w, stack, c, out, detects, cells, node);
    assert(stacked(next, stack.drop_last() + out)) by {
        lemma_out_is_new(plan, chance, w, stack, c, out);
        lemma_stacked_on(w, stack, out, detects);
    }
    reveal(walking);
    next
}

/// Along a course, what is known of the photons stays true.
proof fn lemma_course(plan: PlanView, chance: Chance, outs: Seq<Exits>) -> (w: Walk)
    requires
        is_circuit(plan),
        is_sound(plan),
        is_course(plan, chance, outs),
    ensures
        ({
            let s = walk_after(plan, outs);
            walking(plan, chance, w, s.stack, s.cells, s.results)
        }),
    decreases outs.len(),
{
    if outs.len() == 0 {
        lemma_walking_at_start(plan, chance);
        at_start(plan)
    } else {
        let rest = outs.drop_last();
        let s = walk_after(plan, rest);
        let w = lemma_course(plan, chance, rest);
        let node = s.taker(plan);
        lemma_walking_on(plan, chance, w, s.stack, s.cells, s.results, node, outs.last())
    }
}

/// In a circuit every outcome is that of photons that have settled.
pub proof fn circuits_settle(plan: PlanView, chance: Chance, results: Seq<WpResult>)
    requires
        is_circuit(plan),
        is_sound(plan),
        is_outcome(plan, chance, results),
    ensures
        is_settled_outcome(plan, chance, results),
{
    let outs = choose|outs: Seq<Exits>| #[trigger]
        is_course(plan, chance, outs) && walk_after(plan, outs).stack.len() == 0 && walk_after(
            plan,
            outs,
        ).results == results;
    let s = walk_after(plan, outs);
    let w = lemma_course(plan, chance, outs);
    assert(s.stack =~= seq![]);
    lemma_walking_at_end(plan, chance, w, s.cells, results);
}

/// What is released does not depend on what is held.
proof fn lemma_released_same(
    chance: Chance,
    node: Node,
    other: Node,
    photons: Seq<Photon>,
    out: Seq<(ModeIndex, Photon)>,
)
    requires
        released(chance, node, photons, out),
        node.kind == other.kind,
        node.links == other.links,
    ensures
        released(chance, other, photons, out),
{
}

} // verus!
