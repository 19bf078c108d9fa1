//! When the photons of a plan find their way, and what they do on it.

use vstd::prelude::*;

use crate::collapser::photon::{has_source, Link, Node, NodeKind, Photon};
use crate::collapser::plan::{node_at, PlanView};
use crate::concurrency::cell::WpResult;
use crate::types::ModeIndex;

verus! {

/// A place where photons enter a mode: sink `sink` on link `link` of the operator
/// in `cell`, or, with -1 for `cell`, the emission at place `link`.
pub struct Entry {
    pub cell: int,
    pub link: int,
    pub sink: int,
}

pub open spec fn is_entry(plan: PlanView, e: Entry) -> bool {
    if e.cell == -1 {
        0 <= e.link < plan.emitted.len() && e.sink == 0
    } else {
        &&& 0 <= e.cell < plan.cells.len()
        &&& plan.cells[e.cell] is Data
        &&& 0 <= e.link < node_at(plan.cells, e.cell).links.len()
        &&& 0 <= e.sink < node_at(plan.cells, e.cell).links[e.link].sinks.len()
    }
}

pub open spec fn entry_mode(plan: PlanView, e: Entry) -> ModeIndex {
    if e.cell == -1 {
        plan.emitted[e.link].0
    } else {
        node_at(plan.cells, e.cell).links[e.link].sinks[e.sink]
    }
}

/// The operator in cell `c` is the one that consumes the mode.
pub open spec fn consumed_by(plan: PlanView, mode: ModeIndex, c: int) -> bool {
    &&& mode < plan.consumers.len()
    &&& plan.consumers[mode as int] < plan.cells.len()
    &&& plan.root(plan.consumers[mode as int]) == c
}

/// The operator that the plan names for the mode has a link for it.
pub open spec fn is_claimed(plan: PlanView, mode: ModeIndex) -> bool {
    &&& mode < plan.consumers.len()
    &&& plan.consumers[mode as int] < plan.cells.len()
    &&& has_source(
        node_at(plan.cells, plan.root(plan.consumers[mode as int])).links,
        mode,
    )
}

/// No two links start at the same mode.
pub open spec fn distinct_sources(links: Seq<Link>) -> bool {
    forall|i: int, k: int|
        0 <= i < links.len() && 0 <= k < links.len() && (#[trigger] links[i]).source == (
        #[trigger] links[k]).source ==> i == k
}

/// Photons enter each mode at one place at most, and leave it again.
pub open spec fn is_circuit(plan: PlanView) -> bool {
    &&& forall|e: Entry| #[trigger] is_entry(plan, e) ==> is_claimed(plan, entry_mode(plan, e))
    &&& forall|e: Entry, f: Entry|
        #[trigger] is_entry(plan, e) && #[trigger] is_entry(plan, f) && entry_mode(plan, e)
            == entry_mode(plan, f) ==> e == f
    &&& forall|c: int|
        0 <= c < plan.cells.len() && (#[trigger] plan.cells[c]) is Data ==> distinct_sources(
            node_at(plan.cells, c).links,
        )
}

/// What the draws can come out as: the coin that picks one of two exits, and the
/// coin that decides, by the bit pattern of their indistinguishability, whether two
/// photons leave together.
pub struct Chance {
    pub coin: spec_fn(bool) -> bool,
    pub together: spec_fn(u64, bool) -> bool,
}

/// One draw sends a photon to one of two exits.
pub open spec fn drawn_split(chance: Chance, photon: Photon, first: Photon, second: Photon) -> bool {
    ||| (chance.coin)(true) && first == photon && second == Photon::Vac
    ||| (chance.coin)(false) && first == Photon::Vac && second == photon
}

/// Both photons take the first exit, or both take the second.
pub open spec fn leave_together(chance: Chance, exits: Seq<Photon>) -> bool {
    ||| (chance.coin)(true) && exits == seq![
        Photon::Single,
        Photon::Vac,
        Photon::Single,
        Photon::Vac,
    ]
    ||| (chance.coin)(false) && exits == seq![
        Photon::Vac,
        Photon::Single,
        Photon::Vac,
        Photon::Single,
    ]
}

/// Two photons meet. If there are two and the draw says so, they leave together;
/// otherwise each goes its own way.
pub open spec fn drawn_meeting(
    chance: Chance,
    indistinguishability_bits: u64,
    left: Photon,
    right: Photon,
    exits: Seq<Photon>,
) -> bool {
    let both = left == Photon::Single && right == Photon::Single;
    let apart = drawn_split(chance, left, exits[0], exits[1]) && drawn_split(
        chance,
        right,
        exits[2],
        exits[3],
    );
    ||| both && (chance.together)(indistinguishability_bits, true) && leave_together(chance, exits)
    ||| (both ==> (chance.together)(indistinguishability_bits, false)) && apart
}

/// The photons in the modes, where there is one.
pub type Photons = Seq<Option<Photon>>;

/// What stands in the mode, taken as known.
pub open spec fn at_mode(photons: Photons, mode: ModeIndex) -> Photon {
    photons[mode as int]->0
}

/// The photons in the sinks of the operator are what it makes of those in its
/// sources.
pub open spec fn passes(chance: Chance, node: Node, photons: Photons) -> bool {
    let links = node.links;
    match node.kind {
        NodeKind::Relay => at_mode(photons, links[0].sinks[0]) == at_mode(photons, links[0].source),
        NodeKind::Interfere(bits) => drawn_meeting(
            chance,
            bits,
            at_mode(photons, links[0].source),
            at_mode(photons, links[1].source),
            seq![
                at_mode(photons, links[0].sinks[0]),
                at_mode(photons, links[0].sinks[1]),
                at_mode(photons, links[1].sinks[0]),
                at_mode(photons, links[1].sinks[1]),
            ],
        ),
        NodeKind::Split | NodeKind::Multi => forall|k: int|
            0 <= k < links.len() ==> drawn_split(
                chance,
                at_mode(photons, (#[trigger] links[k]).source),
                at_mode(photons, links[k].sinks[0]),
                at_mode(photons, links[k].sinks[1]),
            ),
        NodeKind::Detect { .. } | NodeKind::Dump => true,
    }
}

/// A photon stands at every link of the operator in cell `c`.
pub open spec fn all_arrived(plan: PlanView, c: int, photons: Photons) -> bool {
    forall|k: int|
        0 <= k < node_at(plan.cells, c).links.len() ==> consumed_by(
            plan,
            (#[trigger] node_at(plan.cells, c).links[k]).source,
            c,
        ) && photons[node_at(plan.cells, c).links[k].source as int] is Some
}

/// What a detector makes of a photon.
pub open spec fn detected(kind: NodeKind, photon: Photon) -> WpResult {
    match photon {
        Photon::Single => WpResult::Success {
            time: kind->time,
            spd_id: kind->id,
            wp_snowflake: kind->wp_snowflake,
        },
        Photon::Vac => WpResult::Empty { wp_snowflake: kind->wp_snowflake },
    }
}

/// The mode holds a photon and its consumer is a detector.
pub open spec fn at_detector(plan: PlanView, photons: Photons, mode: int) -> bool {
    &&& 0 <= mode < photons.len()
    &&& photons[mode] is Some
    &&& consumer_kind(plan, mode) is Detect
}

pub open spec fn consumer_kind(plan: PlanView, mode: int) -> NodeKind {
    node_at(plan.cells, plan.root(plan.consumers[mode])).kind
}

/// The results are those of the modes in `seen`, in that order, which are all the
/// modes where a photon stands at a detector.
pub open spec fn records(
    plan: PlanView,
    photons: Photons,
    seen: Seq<int>,
    results: Seq<WpResult>,
) -> bool {
    &&& seen.no_duplicates()
    &&& seen.len() == results.len()
    &&& forall|i: int|
        0 <= i < seen.len() ==> at_detector(plan, photons, #[trigger] seen[i]) && results[i]
            == detected(consumer_kind(plan, seen[i]), photons[seen[i]]->0)
    &&& forall|m: int| #[trigger] at_detector(plan, photons, m) ==> seen.contains(m)
}

/// The photons have gone as far as they can. Those emitted are in place; an
/// operator that all its photons have reached has passed them on, one that waits
/// for some has passed none; and no photon came from elsewhere. `rank` gives an
/// order in which the modes were reached: sources before sinks.
pub open spec fn settled(plan: PlanView, chance: Chance, photons: Photons, rank: Seq<int>) -> bool {
    &&& photons.len() == plan.consumers.len()
    &&& rank.len() == photons.len()
    &&& forall|i: int|
        0 <= i < plan.emitted.len() ==> photons[(#[trigger] plan.emitted[i]).0 as int] == Some(
            plan.emitted[i].1,
        )
    &&& forall|c: int|
        0 <= c < plan.cells.len() && (#[trigger] plan.cells[c]) is Data ==> {
            if all_arrived(plan, c, photons) {
                &&& passes(chance, node_at(plan.cells, c), photons)
                &&& sinks_filled(node_at(plan.cells, c).links, photons, rank)
            } else {
                sinks_empty(node_at(plan.cells, c).links, photons)
            }
        }
    &&& forall|m: int|
        0 <= m < photons.len() && (#[trigger] photons[m]) is Some ==> exists|e: Entry| #[trigger]
            is_entry(plan, e) && entry_mode(plan, e) == m
}

/// Every sink holds a photon, and was reached after every source.
pub open spec fn sinks_filled(links: Seq<Link>, photons: Photons, rank: Seq<int>) -> bool {
    forall|k: int, j: int|
        0 <= k < links.len() && 0 <= j < links[k].sinks.len() ==> photons[(
        #[trigger] links[k].sinks[j]) as int] is Some && forall|i: int|
            0 <= i < links.len() ==> rank[(#[trigger] links[i]).source as int]
                < rank[links[k].sinks[j] as int]
}

pub open spec fn sinks_empty(links: Seq<Link>, photons: Photons) -> bool {
    forall|k: int, j: int|
        0 <= k < links.len() && 0 <= j < links[k].sinks.len() ==> photons[(
        #[trigger] links[k].sinks[j]) as int] is None
}

/// The results are what the detectors saw of photons that have settled.
pub open spec fn is_settled_outcome(plan: PlanView, chance: Chance, results: Seq<WpResult>) -> bool {
    exists|photons: Photons, rank: Seq<int>, seen: Seq<int>|
        #[trigger] settled(plan, chance, photons, rank) && #[trigger] records(
            plan,
            photons,
            seen,
            results,
        )
}

} // verus!
