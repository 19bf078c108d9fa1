//! What an island that is wired up makes of its photons, operator by operator.

use vstd::prelude::*;

use crate::collapser::circuit::{
    all_arrived, at_detector, at_mode, consumed_by, consumer_kind, detected, drawn_meeting,
    drawn_split, entry_mode, is_claimed, is_entry, passes, records, settled, sinks_filled, Chance,
    Entry, Photons,
};
use crate::collapser::course::is_outcome;
use crate::collapser::monte_carlo::either_side;
use crate::collapser::operator_laws::{
    an_operator_alone_is_planned_as_it_is, is_kind_of, is_planned_at, stands_alone,
};
use crate::collapser::outcome_laws::{
    every_operator_is_reached, lemma_plan_is_rooted, named_operators_are_there,
};
use crate::collapser::photon::{meets_others, Node, NodeKind, Photon};
use crate::collapser::photon_laws::{lemma_island_settles, lemma_plan_fits};
use crate::collapser::plan::{node_at, plan_of};
use crate::collapser::settling::fits_kind;
use crate::collapser::wiring::{
    is_exit, is_place, is_wired, lemma_emission_is_planned, lemma_link_is_planned,
    lemma_planned_link, link_at, links_of, wired_islands_have_an_outcome, Exit, Place,
};
use crate::concurrency::cell::WpResult;
use crate::concurrency::operator::{IslandView, Operator};
use crate::types::ModeIndex;

verus! {

/// There is a photon in the mode.
pub open spec fn is_lit(photons: Photons, mode: ModeIndex) -> bool {
    photons[mode as int] == Some(Photon::Single)
}

/// There was the chance of a photon in the mode, but there is none.
pub open spec fn is_dark(photons: Photons, mode: ModeIndex) -> bool {
    photons[mode as int] == Some(Photon::Vac)
}

/// A photon in the mode has gone to one of the two others; without one, both are dark.
pub open spec fn goes_one_way(
    photons: Photons,
    from: ModeIndex,
    first: ModeIndex,
    second: ModeIndex,
) -> bool {
    ||| is_dark(photons, from) && is_dark(photons, first) && is_dark(photons, second)
    ||| is_lit(photons, from) && is_lit(photons, first) && is_dark(photons, second)
    ||| is_lit(photons, from) && is_dark(photons, first) && is_lit(photons, second)
}

/// The photons are as the operator has it. A source emits two. A component with one way out
/// passes the photon on. A 2x2 component sends each photon to one of the two ways that it has;
/// two photons that meet there, and meet no other, go to the same side if the draw on the
/// indistinguishability of the operator cannot say otherwise.
pub open spec fn obeys(
    operators: Seq<Operator>,
    chance: Chance,
    photons: Photons,
    n: int,
) -> bool {
    match operators[n] {
        Operator::EPPS { sink_modes, .. } => is_lit(photons, sink_modes[0]) && is_lit(
            photons,
            sink_modes[1],
        ),
        Operator::Single { source_modes, sink_modes, .. } => {
            ||| is_lit(photons, source_modes[0]) && is_lit(photons, sink_modes[0])
            ||| is_dark(photons, source_modes[0]) && is_dark(photons, sink_modes[0])
        },
        Operator::DualUnivariate { source_modes, sink_modes, .. } => goes_one_way(
            photons,
            source_modes[0],
            sink_modes[0],
            sink_modes[1],
        ),
        Operator::DualBivariate {
            packet_indistinguishability_bits,
            source_modes,
            sink_modes,
            ..
        } => {
            &&& goes_one_way(photons, source_modes[0], sink_modes[0], sink_modes[1])
            &&& goes_one_way(photons, source_modes[1], sink_modes[2], sink_modes[3])
            &&& stands_alone(operators, n) && is_lit(photons, source_modes[0]) && is_lit(
                photons,
                source_modes[1],
            ) && !(chance.together)(packet_indistinguishability_bits, false) ==> is_lit(
                photons,
                sink_modes[0],
            ) == is_lit(photons, sink_modes[2])
        },
        Operator::SPD { source_modes, .. } => is_lit(photons, source_modes[0]) || is_dark(
            photons,
            source_modes[0],
        ),
        Operator::Dump { source_modes, .. } => is_lit(photons, source_modes[0]) || is_dark(
            photons,
            source_modes[0],
        ),
    }
}

/// The result is what the detector reports: a click with its name and time if there was a
/// photon in its mode, else that there was none.
pub open spec fn is_report(operator: Operator, photons: Photons, result: WpResult) -> bool {
    operator matches Operator::SPD { id, wp_snowflake, time, source_modes, .. } && {
        &&& is_lit(photons, source_modes[0]) ==> result == WpResult::Success {
            time,
            spd_id: id,
            wp_snowflake,
        }
        &&& !is_lit(photons, source_modes[0]) ==> result == WpResult::Empty { wp_snowflake }
    }
}

/// The results are those of the detectors at these places, which are all there are, one each.
pub open spec fn are_reports(
    operators: Seq<Operator>,
    photons: Photons,
    places: Seq<int>,
    results: Seq<WpResult>,
) -> bool {
    &&& places.len() == results.len()
    &&& places.no_duplicates()
    &&& forall|i: int|
        0 <= i < places.len() ==> 0 <= #[trigger] places[i] < operators.len() && is_report(
            operators[places[i]],
            photons,
            results[i],
        )
    &&& forall|n: int|
        0 <= n < operators.len() && (#[trigger] operators[n]) is SPD ==> places.contains(n)
}

/// All the operators are obeyed.
pub open spec fn all_obeyed(
    operators: Seq<Operator>,
    chance: Chance,
    photons: Photons,
) -> bool {
    forall|n: int| 0 <= n < operators.len() ==> #[trigger] obeys(operators, chance, photons, n)
}

/// In a wired island an operator that is no meeting stands alone.
proof fn lemma_stands_alone(island: IslandView, depth: spec_fn(int) -> nat, n: int)
    requires
        is_wired(island, depth),
        0 <= n < island.operators.len(),
        !(island.operators[n] is DualBivariate),
    ensures
        stands_alone(island.operators, n),
{
    let operators = island.operators;
    assert forall|i: int, m: ModeIndex|
        0 <= i < operators.len() && i != n && #[trigger] operators[i].sources().contains(
            m,
        ) implies !operators[n].sources().contains(m) by {
        if operators[n].sources().contains(m) {
            let a = operators[i].sources().index_of(m);
            let b = operators[n].sources().index_of(m);
            lemma_source_link(operators[i], a);
            lemma_source_link(operators[n], b);
            let p = Place { operator: i, link: a };
            let q = Place { operator: n, link: b };
            assert(is_place(operators, p) && is_place(operators, q));
            assert(link_at(operators, p).source == link_at(operators, q).source);
        }
    }
    assert(operators[n].sources().len() <= 1);
}

proof fn lemma_source_link(operator: Operator, k: int)
    requires
        0 <= k < operator.sources().len(),
    ensures
        0 <= k < links_of(operator).len(),
        links_of(operator)[k].source == operator.sources()[k],
{
}

/// What is known of a wired island whose photons have settled.
spec fn is_run(
    island: IslandView,
    depth: spec_fn(int) -> nat,
    chance: Chance,
    photons: Photons,
    rank: Seq<int>,
) -> bool {
    &&& is_wired(island, depth)
    &&& plan_of(island) is Some
    &&& settled(plan_of(island)->0, chance, photons, rank)
}

/// A photon has come to every link and passed on.
proof fn lemma_cell_passes(
    island: IslandView,
    depth: spec_fn(int) -> nat,
    chance: Chance,
    photons: Photons,
    rank: Seq<int>,
    c: int,
)
    requires
        is_run(island, depth, chance, photons, rank),
        0 <= c < (plan_of(island)->0).cells.len(),
        (plan_of(island)->0).cells[c] is Data,
    ensures
        ({
            let node = node_at((plan_of(island)->0).cells, c);
            &&& passes(chance, node, photons)
            &&& fits_kind(node)
            &&& forall|k: int|
                0 <= k < node.links.len() ==> photons[(#[trigger] node.links[k]).source as int]
                    is Some
            &&& forall|k: int, j: int|
                0 <= k < node.links.len() && 0 <= j < node.links[k].sinks.len() ==> photons[(
                #[trigger] node.links[k].sinks[j]) as int] is Some
        }),
{
    let plan = plan_of(island)->0;
    wired_islands_have_an_outcome(island, depth);
    every_operator_is_reached(plan, chance, photons, rank, c);
    lemma_plan_fits(island.operators, island.mode_max);
    let node = node_at(plan.cells, c);
    assert(all_arrived(plan, c, photons));
    assert(sinks_filled(node.links, photons, rank));
}

/// Each photon that comes to where packets meet leaves by its own link.
proof fn lemma_link_splits(chance: Chance, node: Node, photons: Photons, k: int)
    requires
        passes(chance, node, photons),
        fits_kind(node),
        meets_others(node),
        0 <= k < node.links.len(),
        photons[node.links[k].source as int] is Some,
        photons[node.links[k].sinks[0] as int] is Some,
        photons[node.links[k].sinks[1] as int] is Some,
    ensures
        goes_one_way(
            photons,
            node.links[k].source,
            node.links[k].sinks[0],
            node.links[k].sinks[1],
        ),
{
    let links = node.links;
    if let NodeKind::Interfere(bits) = node.kind {
        let exits = seq![
            at_mode(photons, links[0].sinks[0]),
            at_mode(photons, links[0].sinks[1]),
            at_mode(photons, links[1].sinks[0]),
            at_mode(photons, links[1].sinks[1]),
        ];
        assert(drawn_meeting(
            chance,
            bits,
            at_mode(photons, links[0].source),
            at_mode(photons, links[1].source),
            exits,
        ));
        assert(exits[0] == at_mode(photons, links[0].sinks[0]));
        assert(exits[1] == at_mode(photons, links[0].sinks[1]));
        assert(exits[2] == at_mode(photons, links[1].sinks[0]));
        assert(exits[3] == at_mode(photons, links[1].sinks[1]));
    } else {
        assert(drawn_split(
            chance,
            at_mode(photons, links[k].source),
            at_mode(photons, links[k].sinks[0]),
            at_mode(photons, links[k].sinks[1]),
        ));
    }
}

/// A packet that comes to a meeting leaves by one of the two exits that it has there.
proof fn lemma_meeting_splits(
    island: IslandView,
    depth: spec_fn(int) -> nat,
    chance: Chance,
    photons: Photons,
    rank: Seq<int>,
    p: Place,
)
    requires
        is_run(island, depth, chance, photons, rank),
        is_place(island.operators, p),
        island.operators[p.operator] is DualBivariate,
    ensures
        ({
            let link = link_at(island.operators, p);
            goes_one_way(photons, link.source, link.sinks[0], link.sinks[1])
        }),
{
    let (c, k) = lemma_link_is_planned(island, depth, p);
    lemma_cell_passes(island, depth, chance, photons, rank, c);
    let node = node_at((plan_of(island)->0).cells, c);
    assert(node.links[k].sinks.len() == 2);
    assert(photons[node.links[k].sinks[0] as int] is Some);
    assert(photons[node.links[k].sinks[1] as int] is Some);
    lemma_link_splits(chance, node, photons, k);
}

/// Two photons that meet no other go to the same side if the draw cannot say otherwise.
proof fn lemma_meeting_together(
    island: IslandView,
    depth: spec_fn(int) -> nat,
    chance: Chance,
    photons: Photons,
    rank: Seq<int>,
    n: int,
    bits: u64,
)
    requires
        is_run(island, depth, chance, photons, rank),
        0 <= n < island.operators.len(),
        island.operators[n] matches Operator::DualBivariate {
            packet_indistinguishability_bits,
            ..
        } && packet_indistinguishability_bits == bits,
        stands_alone(island.operators, n),
        is_lit(photons, links_of(island.operators[n])[0].source),
        is_lit(photons, links_of(island.operators[n])[1].source),
        !(chance.together)(bits, false),
    ensures
        is_lit(photons, links_of(island.operators[n])[0].sinks[0]) == is_lit(
            photons,
            links_of(island.operators[n])[1].sinks[0],
        ),
{
    let operators = island.operators;
    let plan = plan_of(island)->0;
    an_operator_alone_is_planned_as_it_is(island, n);
    let c = choose|c: int| #[trigger] is_planned_at(plan, operators[n], c);
    lemma_cell_passes(island, depth, chance, photons, rank, c);
    let node = node_at(plan.cells, c);
    let links = node.links;
    assert(links == links_of(operators[n]));
    assert(node.kind == NodeKind::Interfere(bits));
    assert(links.len() == 2);
    assert(links[0].sinks.len() == 2 && links[1].sinks.len() == 2);
    assert(photons[links[0].sinks[0] as int] is Some);
    assert(photons[links[1].sinks[0] as int] is Some);
    lemma_same_side(chance, node, photons, bits);
}

proof fn lemma_same_side(chance: Chance, node: Node, photons: Photons, bits: u64)
    requires
        node.kind == NodeKind::Interfere(bits),
        passes(chance, node, photons),
        is_lit(photons, node.links[0].source),
        is_lit(photons, node.links[1].source),
        photons[node.links[0].sinks[0] as int] is Some,
        photons[node.links[1].sinks[0] as int] is Some,
        !(chance.together)(bits, false),
    ensures
        is_lit(photons, node.links[0].sinks[0]) == is_lit(photons, node.links[1].sinks[0]),
{
    let links = node.links;
    let exits = seq![
        at_mode(photons, links[0].sinks[0]),
        at_mode(photons, links[0].sinks[1]),
        at_mode(photons, links[1].sinks[0]),
        at_mode(photons, links[1].sinks[1]),
    ];
    assert(drawn_meeting(
        chance,
        bits,
        at_mode(photons, links[0].source),
        at_mode(photons, links[1].source),
        exits,
    ));
    assert(exits[0] == at_mode(photons, links[0].sinks[0]));
    assert(exits[2] == at_mode(photons, links[1].sinks[0]));
}

proof fn lemma_meeting_obeyed(
    island: IslandView,
    depth: spec_fn(int) -> nat,
    chance: Chance,
    photons: Photons,
    rank: Seq<int>,
    n: int,
)
    requires
        is_run(island, depth, chance, photons, rank),
        0 <= n < island.operators.len(),
        island.operators[n] is DualBivariate,
    ensures
        obeys(island.operators, chance, photons, n),
{
    let operators = island.operators;
    let p = Place { operator: n, link: 0 };
    let q = Place { operator: n, link: 1 };
    assert(is_place(operators, p) && is_place(operators, q));
    lemma_meeting_splits(island, depth, chance, photons, rank, p);
    lemma_meeting_splits(island, depth, chance, photons, rank, q);
    if let Operator::DualBivariate {
        packet_indistinguishability_bits,
        source_modes,
        sink_modes,
        ..
    } = operators[n] {
        if stands_alone(operators, n) && is_lit(photons, source_modes[0]) && is_lit(
            photons,
            source_modes[1],
        ) && !(chance.together)(packet_indistinguishability_bits, false) {
            lemma_meeting_together(
                island,
                depth,
                chance,
                photons,
                rank,
                n,
                packet_indistinguishability_bits,
            );
        }
    }
}

/// An operator that is neither a source nor a meeting is obeyed.
proof fn lemma_other_obeyed(
    island: IslandView,
    depth: spec_fn(int) -> nat,
    chance: Chance,
    photons: Photons,
    rank: Seq<int>,
    n: int,
)
    requires
        is_run(island, depth, chance, photons, rank),
        0 <= n < island.operators.len(),
        !(island.operators[n] is DualBivariate),
        !(island.operators[n] is EPPS),
    ensures
        obeys(island.operators, chance, photons, n),
{
    let operators = island.operators;
    let operator = operators[n];
    let plan = plan_of(island)->0;
    lemma_stands_alone(island, depth, n);
    an_operator_alone_is_planned_as_it_is(island, n);
    let c = choose|c: int| #[trigger] is_planned_at(plan, operator, c);
    lemma_cell_passes(island, depth, chance, photons, rank, c);
    let node = node_at(plan.cells, c);
    let links = node.links;
    assert(links == links_of(operator));
    assert(photons[links[0].source as int] is Some);
    match operator {
        Operator::Single { .. } => {
            assert(photons[links[0].sinks[0] as int] is Some);
        },
        Operator::DualUnivariate { .. } => {
            assert(photons[links[0].sinks[0] as int] is Some);
            assert(photons[links[0].sinks[1] as int] is Some);
            assert(drawn_split(
                chance,
                at_mode(photons, links[0].source),
                at_mode(photons, links[0].sinks[0]),
                at_mode(photons, links[0].sinks[1]),
            ));
        },
        _ => {},
    }
}

proof fn lemma_source_obeyed(
    island: IslandView,
    depth: spec_fn(int) -> nat,
    chance: Chance,
    photons: Photons,
    rank: Seq<int>,
    n: int,
)
    requires
        is_run(island, depth, chance, photons, rank),
        0 <= n < island.operators.len(),
        island.operators[n] is EPPS,
    ensures
        obeys(island.operators, chance, photons, n),
{
    let operators = island.operators;
    let plan = plan_of(island)->0;
    let x = Exit { place: Place { operator: n, link: -1 }, exit: 0 };
    let y = Exit { place: Place { operator: n, link: -1 }, exit: 1 };
    assert(is_exit(operators, x) && is_exit(operators, y));
    lemma_plan_fits(operators, island.mode_max);
    let i = lemma_emission_is_planned(island, depth, x);
    let k = lemma_emission_is_planned(island, depth, y);
    assert(photons[plan.emitted[i].0 as int] == Some(plan.emitted[i].1));
    assert(photons[plan.emitted[k].0 as int] == Some(plan.emitted[k].1));
}

/// What a detector saw is the report of an operator.
proof fn lemma_seen_by(
    island: IslandView,
    depth: spec_fn(int) -> nat,
    chance: Chance,
    photons: Photons,
    rank: Seq<int>,
    seen: Seq<int>,
    results: Seq<WpResult>,
    i: int,
) -> (n: int)
    requires
        is_run(island, depth, chance, photons, rank),
        records(plan_of(island)->0, photons, seen, results),
        0 <= i < seen.len(),
    ensures
        0 <= n < island.operators.len(),
        is_report(island.operators[n], photons, results[i]),
        island.operators[n] matches Operator::SPD { source_modes, .. } && source_modes[0]
            == seen[i],
{
    let operators = island.operators;
    let plan = plan_of(island)->0;
    let m = seen[i];
    wired_islands_have_an_outcome(island, depth);
    assert(at_detector(plan, photons, m));
    assert(photons[m] is Some);
    let e = choose|e: Entry| #[trigger]
        is_entry(plan, e) && entry_mode(
            plan,
            e,
        ) == m;
    assert(is_claimed(
        plan,
        entry_mode(plan, e),
    ));
    lemma_plan_is_rooted(operators, island.mode_max);
    named_operators_are_there(operators, island.mode_max, m);
    let c = plan.root(plan.consumers[m]);
    let links = node_at(plan.cells, c).links;
    let k = choose|k: int| 0 <= k < links.len() && (#[trigger] links[k]).source == m;
    let p = lemma_planned_link(island, depth, c, k);
    let n = p.operator;
    if operators[n] is DualBivariate {
        let (d, l) = lemma_link_is_planned(island, depth, p);
        assert(d == c);
    } else {
        lemma_stands_alone(island, depth, n);
        an_operator_alone_is_planned_as_it_is(island, n);
        let d = choose|d: int| #[trigger] is_planned_at(plan, operators[n], d);
        lemma_source_link(operators[n], 0);
        assert(consumed_by(plan, operators[n].sources()[0], d));
        assert(d == c);
        assert(is_kind_of(node_at(plan.cells, c).kind, operators[n]));
    }
    assert(results[i] == detected(consumer_kind(plan, m), photons[m]->0));
    n
}

/// Every detector is among those that saw.
proof fn lemma_sees(
    island: IslandView,
    depth: spec_fn(int) -> nat,
    chance: Chance,
    photons: Photons,
    rank: Seq<int>,
    seen: Seq<int>,
    results: Seq<WpResult>,
    n: int,
) -> (i: int)
    requires
        is_run(island, depth, chance, photons, rank),
        records(plan_of(island)->0, photons, seen, results),
        0 <= n < island.operators.len(),
        island.operators[n] is SPD,
    ensures
        0 <= i < seen.len(),
        seen[i] == island.operators[n].sources()[0],
{
    let operators = island.operators;
    let plan = plan_of(island)->0;
    lemma_stands_alone(island, depth, n);
    an_operator_alone_is_planned_as_it_is(island, n);
    let c = choose|c: int| #[trigger] is_planned_at(plan, operators[n], c);
    lemma_cell_passes(island, depth, chance, photons, rank, c);
    lemma_source_link(operators[n], 0);
    let m = operators[n].sources()[0] as int;
    assert(node_at(plan.cells, c).links[0].source == m);
    assert(consumed_by(plan, operators[n].sources()[0], c));
    assert(at_detector(plan, photons, m));
    let i = seen.index_of(m);
    assert(seen[i] == m);
    i
}

/// In an island that is wired up, the photons do what its operators say, and the detectors
/// report it: every outcome comes from photons that obey each operator, and consists of the
/// reports of all its detectors, one each.
pub proof fn outcomes_obey_the_operators(
    island: IslandView,
    depth: spec_fn(int) -> nat,
    chance: Chance,
    results: Seq<WpResult>,
)
    requires
        is_wired(island, depth),
        is_outcome(plan_of(island)->0, chance, results),
    ensures
        exists|photons: Photons, places: Seq<int>|
            #[trigger] all_obeyed(island.operators, chance, photons) && #[trigger] are_reports(
                island.operators,
                photons,
                places,
                results,
            ),
{
    let operators = island.operators;
    wired_islands_have_an_outcome(island, depth);
    lemma_island_settles(island, chance, results);
    let plan = plan_of(island)->0;
    let (photons, rank, seen) = choose|photons: Photons, rank: Seq<int>, seen: Seq<int>|
        #[trigger] settled(plan, chance, photons, rank) && #[trigger] records(
            plan,
            photons,
            seen,
            results,
        );
    assert(is_run(island, depth, chance, photons, rank));
    assert(all_obeyed(operators, chance, photons)) by {
        assert forall|n: int| 0 <= n < operators.len() implies #[trigger] obeys(
            operators,
            chance,
            photons,
            n,
        ) by {
            if operators[n] is EPPS {
                lemma_source_obeyed(island, depth, chance, photons, rank, n);
            } else if operators[n] is DualBivariate {
                lemma_meeting_obeyed(island, depth, chance, photons, rank, n);
            } else {
                lemma_other_obeyed(island, depth, chance, photons, rank, n);
            }
        }
    }
    let by = |i: int|
        choose|n: int|
            0 <= n < operators.len() && #[trigger] reports_on(
                operators[n],
                photons,
                results[i],
                seen[i],
            );
    let places = Seq::new(seen.len(), by);
    assert forall|i: int| 0 <= i < seen.len() implies 0 <= #[trigger] places[i] < operators.len()
        && reports_on(operators[places[i]], photons, results[i], seen[i]) by {
        let n = lemma_seen_by(island, depth, chance, photons, rank, seen, results, i);
        assert(reports_on(operators[n], photons, results[i], seen[i]));
    }
    assert(places.no_duplicates()) by {
        assert forall|i: int, k: int|
            0 <= i < places.len() && 0 <= k < places.len() && i != k implies places[i]
            != places[k] by {
            assert(seen[i] != seen[k]);
            assert(reports_on(operators[places[i]], photons, results[i], seen[i]));
            assert(reports_on(operators[places[k]], photons, results[k], seen[k]));
        }
    }
    assert forall|n: int| 0 <= n < operators.len() && (#[trigger] operators[n])
        is SPD implies places.contains(n) by {
        let i = lemma_sees(island, depth, chance, photons, rank, seen, results, n);
        let o = places[i];
        assert(reports_on(operators[o], photons, results[i], seen[i]));
        lemma_one_detector(island, depth, n, o);
    }
    assert(are_reports(operators, photons, places, results)) by {
        assert forall|i: int| 0 <= i < places.len() implies 0 <= #[trigger] places[i]
            < operators.len() && is_report(operators[places[i]], photons, results[i]) by {
            assert(reports_on(operators[places[i]], photons, results[i], seen[i]));
        }
    }
}

/// The result is the report of that detector, which consumes the mode.
spec fn reports_on(operator: Operator, photons: Photons, result: WpResult, mode: int) -> bool {
    &&& is_report(operator, photons, result)
    &&& operator matches Operator::SPD { source_modes, .. } && source_modes[0] == mode
}

proof fn lemma_one_detector(island: IslandView, depth: spec_fn(int) -> nat, n: int, o: int)
    requires
        is_wired(island, depth),
        0 <= n < island.operators.len(),
        0 <= o < island.operators.len(),
        island.operators[n] is SPD,
        island.operators[o] is SPD,
        island.operators[n].sources()[0] == island.operators[o].sources()[0],
    ensures
        n == o,
{
    lemma_stands_alone(island, depth, n);
    if n != o {
        let m = island.operators[n].sources()[0];
        assert(island.operators[n].sources().contains(m));
        assert(island.operators[o].sources()[0] == m);
        assert(island.operators[o].sources().contains(m));
    }
}

/// A source emits into the mode.
pub open spec fn is_from_source(operators: Seq<Operator>, mode: ModeIndex) -> bool {
    exists|e: int|
        0 <= e < operators.len() && (#[trigger] operators[e] matches Operator::EPPS {
            sink_modes,
            ..
        } && (sink_modes[0] == mode || sink_modes[1] == mode))
}

/// The operator is a detector for the mode.
pub open spec fn is_detector_at(operators: Seq<Operator>, n: int, mode: ModeIndex) -> bool {
    0 <= n < operators.len() && (operators[n] matches Operator::SPD { source_modes, .. }
        && source_modes[0] == mode)
}

/// The detector has clicked.
pub open spec fn has_clicked(operator: Operator, results: Seq<WpResult>) -> bool {
    operator matches Operator::SPD { id, wp_snowflake, time, .. } && results.contains(
        WpResult::Success { time, spd_id: id, wp_snowflake },
    )
}

/// The detector has reported that there was no photon.
pub open spec fn is_empty(operator: Operator, results: Seq<WpResult>) -> bool {
    operator matches Operator::SPD { wp_snowflake, .. } && results.contains(
        WpResult::Empty { wp_snowflake },
    )
}

/// Two photons that meet, meet no other, and cannot be told apart click on the same side:
/// where `together` never says `false` to the indistinguishability of their operator, both are
/// seen by the detectors behind the first exits, or both by those behind the second. That is
/// so of whatever `collapse` gives.
pub proof fn photons_that_cannot_be_told_apart_click_on_one_side<F: Fn(u64) -> bool>(
    island: IslandView,
    depth: spec_fn(int) -> nat,
    together: F,
    results: Seq<WpResult>,
    n: int,
    detectors: Seq<int>,
)
    requires
        is_wired(island, depth),
        is_outcome(plan_of(island)->0, either_side(together), results),
        0 <= n < island.operators.len(),
        stands_alone(island.operators, n),
        detectors.len() == 4,
        island.operators[n] matches Operator::DualBivariate {
            packet_indistinguishability_bits,
            source_modes,
            sink_modes,
            ..
        } && {
            &&& !together.ensures((packet_indistinguishability_bits,), false)
            &&& is_from_source(island.operators, source_modes[0])
            &&& is_from_source(island.operators, source_modes[1])
            &&& is_detector_at(island.operators, detectors[0], sink_modes[0])
            &&& is_detector_at(island.operators, detectors[1], sink_modes[1])
            &&& is_detector_at(island.operators, detectors[2], sink_modes[2])
            &&& is_detector_at(island.operators, detectors[3], sink_modes[3])
        },
    ensures
        ({
            let clicked = |i: int| has_clicked(island.operators[detectors[i]], results);
            let empty = |i: int| is_empty(island.operators[detectors[i]], results);
            ||| clicked(0) && clicked(2) && empty(1) && empty(3)
            ||| clicked(1) && clicked(3) && empty(0) && empty(2)
        }),
{
    let operators = island.operators;
    let chance = either_side(together);
    outcomes_obey_the_operators(island, depth, chance, results);
    let (photons, places) = choose|photons: Photons, places: Seq<int>|
        #[trigger] all_obeyed(operators, chance, photons) && #[trigger] are_reports(
            operators,
            photons,
            places,
            results,
        );
    assert(obeys(operators, chance, photons, n));
    if let Operator::DualBivariate { source_modes, sink_modes, .. } = operators[n] {
        lemma_emitted_is_lit(operators, chance, photons, source_modes[0]);
        lemma_emitted_is_lit(operators, chance, photons, source_modes[1]);
        lemma_reported(operators, photons, places, results, detectors[0]);
        lemma_reported(operators, photons, places, results, detectors[1]);
        lemma_reported(operators, photons, places, results, detectors[2]);
        lemma_reported(operators, photons, places, results, detectors[3]);
    }
}

proof fn lemma_emitted_is_lit(
    operators: Seq<Operator>,
    chance: Chance,
    photons: Photons,
    mode: ModeIndex,
)
    requires
        all_obeyed(operators, chance, photons),
        is_from_source(operators, mode),
    ensures
        is_lit(photons, mode),
{
    let e = choose|e: int|
        0 <= e < operators.len() && (#[trigger] operators[e] matches Operator::EPPS {
            sink_modes,
            ..
        } && (sink_modes[0] == mode || sink_modes[1] == mode));
    assert(obeys(operators, chance, photons, e));
}

proof fn lemma_reported(
    operators: Seq<Operator>,
    photons: Photons,
    places: Seq<int>,
    results: Seq<WpResult>,
    n: int,
)
    requires
        are_reports(operators, photons, places, results),
        0 <= n < operators.len(),
        operators[n] is SPD,
    ensures
        is_lit(photons, operators[n].sources()[0]) ==> has_clicked(operators[n], results),
        !is_lit(photons, operators[n].sources()[0]) ==> is_empty(operators[n], results),
{
    let i = places.index_of(n);
    assert(places[i] == n);
    assert(is_report(operators[places[i]], photons, results[i]));
    assert(results.contains(results[i]));
}

} // verus!
