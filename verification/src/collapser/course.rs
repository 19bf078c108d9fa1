//! The course that photons take through a plan, step by step, and when it comes to an end.

use vstd::prelude::*;

use crate::collapser::circuit::{
    consumed_by, detected, drawn_meeting, drawn_split, is_claimed, Chance,
};
use crate::collapser::monotonic_map::MonotonicMapCell;
use crate::collapser::photon::{first_source, meets_others, Node, NodeKind, Photon};
use crate::collapser::plan::{node_at, PlanView};
use crate::concurrency::cell::WpResult;
use crate::types::ModeIndex;

verus! {

/// The photons on the links of an operator that has them all; `photon` is the last
/// to arrive.
pub open spec fn arrived(node: Node, photon: Photon) -> Seq<Photon> {
    if meets_others(node) {
        node.held.map_values(|held: Option<Photon>| held->0)
    } else {
        seq![photon]
    }
}

/// How many exits the operator has in all.
pub open spec fn exits_of(node: Node) -> nat {
    match node.kind {
        NodeKind::Relay => 1,
        NodeKind::Detect { .. } | NodeKind::Dump => 0,
        _ => 2 * node.links.len(),
    }
}

/// `out` holds, exit after exit, what the operator makes of the photons on its
/// links.
pub open spec fn released(
    chance: Chance,
    node: Node,
    photons: Seq<Photon>,
    out: Seq<(ModeIndex, Photon)>,
) -> bool {
    &&& out.len() == exits_of(node)
    &&& forall|k: int, j: int|
        0 <= k < node.links.len() && 0 <= j < node.links[k].sinks.len() ==> out[2 * k + j].0 == (
        #[trigger] node.links[k].sinks[j])
    &&& match node.kind {
        NodeKind::Relay => out[0].1 == photons[0],
        NodeKind::Interfere(bits) => drawn_meeting(
            chance,
            bits,
            photons[0],
            photons[1],
            seq![out[0].1, out[1].1, out[2].1, out[3].1],
        ),
        NodeKind::Split | NodeKind::Multi => forall|k: int|
            0 <= k < node.links.len() ==> drawn_split(
                chance,
                #[trigger] photons[k],
                out[2 * k].1,
                out[2 * k + 1].1,
            ),
        NodeKind::Detect { .. } | NodeKind::Dump => true,
    }
}

/// Every held place is filled.
pub open spec fn all_held(node: Node) -> bool {
    forall|k: int| 0 <= k < node.held.len() ==> (#[trigger] node.held[k]) is Some
}

/// Photons that leave an operator, exit after exit.
pub type Exits = Seq<(ModeIndex, Photon)>;

/// The operator with a photon taken in. One that meets others notes it on the link that
/// starts at the mode.
pub open spec fn with_photon(node: Node, mode: ModeIndex, photon: Photon) -> Node {
    if meets_others(node) {
        Node { held: node.held.update(first_source(node.links, mode), Some(photon)), ..node }
    } else {
        node
    }
}

/// The operator lets its photons go: it waits for none.
pub open spec fn is_ready(node: Node) -> bool {
    meets_others(node) ==> all_held(node)
}

/// The photons on their way, the last to come first; what the operators hold; and what the
/// detectors have recorded.
#[verifier::ext_equal]
pub struct WalkView {
    pub stack: Exits,
    pub cells: Seq<MonotonicMapCell<Node>>,
    pub results: Seq<WpResult>,
}

impl WalkView {
    /// The sources have emitted their photons.
    pub open spec fn start(plan: PlanView) -> WalkView {
        WalkView { stack: plan.emitted, cells: plan.cells, results: seq![] }
    }

    /// The cell of the operator that consumes the photon on top.
    pub open spec fn place(self, plan: PlanView) -> int {
        plan.root(plan.consumers[self.stack.last().0 as int])
    }

    /// That operator, with the photon taken in.
    pub open spec fn taker(self, plan: PlanView) -> Node {
        with_photon(node_at(self.cells, self.place(plan)), self.stack.last().0, self.stack.last().1)
    }

    /// The operator can send these photons on: all of its own where it is ready, and none
    /// where it waits.
    pub open spec fn can_send(self, plan: PlanView, chance: Chance, out: Exits) -> bool {
        &&& self.stack.len() > 0
        &&& is_claimed(plan, self.stack.last().0)
        &&& if is_ready(self.taker(plan)) {
            released(
                chance,
                self.taker(plan),
                arrived(self.taker(plan), self.stack.last().1),
                out,
            )
        } else {
            out.len() == 0
        }
    }

    /// The photon on top has gone to its operator, which has sent those photons on.
    pub open spec fn sent(self, plan: PlanView, out: Exits) -> WalkView {
        WalkView {
            stack: self.stack.drop_last() + out,
            cells: self.cells.update(self.place(plan), MonotonicMapCell::Data(self.taker(plan))),
            results: if self.taker(plan).kind is Detect {
                self.results.push(detected(self.taker(plan).kind, self.stack.last().1))
            } else {
                self.results
            },
        }
    }
}

/// Where the photons are after so many steps, given what the operators sent on.
pub open spec fn walk_after(plan: PlanView, outs: Seq<Exits>) -> WalkView
    decreases outs.len(),
{
    if outs.len() == 0 {
        WalkView::start(plan)
    } else {
        walk_after(plan, outs.drop_last()).sent(plan, outs.last())
    }
}

/// In every step the operator could send that on.
pub open spec fn is_course(plan: PlanView, chance: Chance, outs: Seq<Exits>) -> bool
    decreases outs.len(),
{
    outs.len() > 0 ==> is_course(plan, chance, outs.drop_last()) && walk_after(
        plan,
        outs.drop_last(),
    ).can_send(plan, chance, outs.last())
}

/// The results are what the detectors recorded on some course that the photons can take, once
/// none is on its way any more.
pub open spec fn is_outcome(plan: PlanView, chance: Chance, results: Seq<WpResult>) -> bool {
    exists|outs: Seq<Exits>| #[trigger]
        is_course(plan, chance, outs) && walk_after(plan, outs).stack.len() == 0 && walk_after(
            plan,
            outs,
        ).results == results
}

/// A photon can come to each link of the operator in the cell, out of those modes.
pub open spec fn can_fire(plan: PlanView, c: int, modes: Set<int>) -> bool {
    forall|k: int|
        0 <= k < node_at(plan.cells, c).links.len() ==> {
            let source = (#[trigger] node_at(plan.cells, c).links[k]).source;
            &&& modes.contains(source as int)
            &&& consumed_by(plan, source, c)
            &&& first_source(node_at(plan.cells, c).links, source) == k
        }
}

/// What the sources emit into is among the modes, and with all modes that an operator starts
/// from those that it leads to.
pub open spec fn is_closed(plan: PlanView, modes: Set<int>) -> bool {
    &&& forall|i: int|
        0 <= i < plan.emitted.len() ==> modes.contains((#[trigger] plan.emitted[i]).0 as int)
    &&& forall|c: int, k: int, j: int|
        0 <= c < plan.cells.len() && plan.cells[c] is Data && can_fire(plan, c, modes) && 0 <= k
            < node_at(plan.cells, c).links.len() && 0 <= j < node_at(
            plan.cells,
            c,
        ).links[k].sinks.len() ==> modes.contains(
            #[trigger] node_at(plan.cells, c).links[k].sinks[j] as int,
        )
}

/// Photons reach the mode: it is among any modes that are closed.
pub open spec fn is_reached(plan: PlanView, mode: int) -> bool {
    forall|modes: Set<int>| #[trigger] is_closed(plan, modes) ==> modes.contains(mode)
}

/// The modes that photons reach.
pub open spec fn reached(plan: PlanView) -> Set<int> {
    Set::new(|m: int| is_reached(plan, m))
}

/// The operator in the cell gets all its photons.
pub open spec fn fires(plan: PlanView, c: int) -> bool {
    0 <= c < plan.cells.len() && plan.cells[c] is Data && can_fire(plan, c, reached(plan))
}

/// No way through the operators that get their photons leads back: the exits of each lie
/// deeper than all the modes it starts from.
pub open spec fn leads_on(plan: PlanView, depth: spec_fn(int) -> nat) -> bool {
    forall|c: int, k: int, l: int, j: int|
        #![trigger node_at(plan.cells, c).links[k], node_at(plan.cells, c).links[l].sinks[j]]
        fires(plan, c) && 0 <= k < node_at(plan.cells, c).links.len() && 0 <= l < node_at(
            plan.cells,
            c,
        ).links.len() && 0 <= j < node_at(plan.cells, c).links[l].sinks.len() ==> depth(
            node_at(plan.cells, c).links[k].source as int,
        ) < depth(node_at(plan.cells, c).links[l].sinks[j] as int)
}

/// Every course comes to an end: each mode that photons reach has an operator that consumes
/// it, and none of them comes by the same operator again.
pub open spec fn comes_to_an_end(plan: PlanView) -> bool {
    &&& forall|m: int| #[trigger]
        is_reached(plan, m) ==> 0 <= m <= u16::MAX && is_claimed(plan, m as ModeIndex)
    &&& exists|depth: spec_fn(int) -> nat| leads_on(plan, depth)
}

/// The modes that photons reach are closed.
pub proof fn lemma_reached_is_closed(plan: PlanView)
    ensures
        is_closed(plan, reached(plan)),
        forall|m: int| #[trigger] reached(plan).contains(m) <==> is_reached(plan, m),
{
    let all = reached(plan);
    assert forall|i: int| 0 <= i < plan.emitted.len() implies all.contains(
        (#[trigger] plan.emitted[i]).0 as int,
    ) by {}
    assert forall|c: int, k: int, j: int|
        0 <= c < plan.cells.len() && plan.cells[c] is Data && can_fire(plan, c, all) && 0 <= k
            < node_at(plan.cells, c).links.len() && 0 <= j < node_at(
            plan.cells,
            c,
        ).links[k].sinks.len() implies all.contains(
        #[trigger] node_at(plan.cells, c).links[k].sinks[j] as int,
    ) by {
        let sink = node_at(plan.cells, c).links[k].sinks[j] as int;
        assert forall|modes: Set<int>| #[trigger] is_closed(plan, modes) implies modes.contains(
            sink,
        ) by {
            assert(can_fire(plan, c, modes)) by {
                assert forall|i: int| 0 <= i < node_at(plan.cells, c).links.len() implies {
                    let source = (#[trigger] node_at(plan.cells, c).links[i]).source;
                    &&& modes.contains(source as int)
                    &&& consumed_by(plan, source, c)
                    &&& first_source(node_at(plan.cells, c).links, source) == i
                } by {
                    assert(all.contains(node_at(plan.cells, c).links[i].source as int));
                }
            }
        }
    }
}

} // verus!
