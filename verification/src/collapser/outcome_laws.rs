//! What holds of every outcome, however the draws fall.

use vstd::prelude::*;

use crate::collapser::circuit::{
    all_arrived, at_mode, consumed_by, detected, entry_mode, is_circuit, is_claimed, is_entry,
    leave_together, passes, settled, sinks_filled, Chance, Entry, Photons,
};
use crate::collapser::course::{
    arrived, can_fire, comes_to_an_end, fires, is_closed, is_course, is_outcome, is_reached,
    is_ready, leads_on, reached, walk_after, Exits, WalkView,
};
use crate::collapser::monotonic_map::{
    all_rooted, has_root, hops_of, lemma_root, lemma_root_pushed, lemma_root_redirected,
    MonotonicMapCell,
};
use crate::collapser::monte_carlo::certain_detection;
use crate::collapser::photon::{pair_links, Node, NodeKind, Photon};
use crate::collapser::plan::{node_at, plan_of, plan_of_operators, PlanView, UNCLAIMED};
use crate::concurrency::cell::WpResult;
use crate::concurrency::operator::{IslandView, Operator};
use crate::types::ModeIndex;

verus! {

/// Two photons that meet and cannot be told apart leave together: the draw on their
/// indistinguishability cannot come out `false`, so both take the same exit.
pub proof fn indistinguishable_photons_leave_together(
    plan: PlanView,
    chance: Chance,
    photons: Photons,
    rank: Seq<int>,
    c: int,
    bits: u64,
)
    requires
        settled(plan, chance, photons, rank),
        0 <= c < plan.cells.len(),
        plan.cells[c] is Data,
        node_at(plan.cells, c).kind == NodeKind::Interfere(bits),
        all_arrived(plan, c, photons),
        at_mode(photons, node_at(plan.cells, c).links[0].source) == Photon::Single,
        at_mode(photons, node_at(plan.cells, c).links[1].source) == Photon::Single,
        !(chance.together)(bits, false),
    ensures
        ({
            let links = node_at(plan.cells, c).links;
            let left = (at_mode(photons, links[0].sinks[0]), at_mode(photons, links[0].sinks[1]));
            let right = (at_mode(photons, links[1].sinks[0]), at_mode(photons, links[1].sinks[1]));
            &&& left == right
            &&& left == (Photon::Single, Photon::Vac) || left == (Photon::Vac, Photon::Single)
        }),
{
    let links = node_at(plan.cells, c).links;
    let exits = seq![
        at_mode(photons, links[0].sinks[0]),
        at_mode(photons, links[0].sinks[1]),
        at_mode(photons, links[1].sinks[0]),
        at_mode(photons, links[1].sinks[1]),
    ];
    assert(passes(chance, node_at(plan.cells, c), photons));
    assert(leave_together(chance, exits));
    assert(exits[0] == at_mode(photons, links[0].sinks[0]));
    assert(exits[1] == at_mode(photons, links[0].sinks[1]));
    assert(exits[2] == at_mode(photons, links[1].sinks[0]));
    assert(exits[3] == at_mode(photons, links[1].sinks[1]));
}

/// The same at any step of a course: the operator where they meet sends both to the same side.
pub proof fn indistinguishable_photons_are_sent_together(
    plan: PlanView,
    chance: Chance,
    walk: WalkView,
    out: Exits,
    bits: u64,
)
    requires
        walk.can_send(plan, chance, out),
        walk.taker(plan).kind == NodeKind::Interfere(bits),
        is_ready(walk.taker(plan)),
        arrived(walk.taker(plan), walk.stack.last().1)[0] == Photon::Single,
        arrived(walk.taker(plan), walk.stack.last().1)[1] == Photon::Single,
        !(chance.together)(bits, false),
    ensures
        (out[0].1, out[1].1) == (out[2].1, out[3].1),
        (out[0].1, out[1].1) == (Photon::Single, Photon::Vac) || (out[0].1, out[1].1) == (
            Photon::Vac,
            Photon::Single,
        ),
{
    let exits = seq![out[0].1, out[1].1, out[2].1, out[3].1];
    assert(leave_together(chance, exits));
    assert(exits[0] == out[0].1 && exits[1] == out[1].1);
    assert(exits[2] == out[2].1 && exits[3] == out[3].1);
}

/// The detectors of the plan are detectors of the island.
spec fn detectors_from(cells: Seq<MonotonicMapCell<Node>>, operators: Seq<Operator>) -> bool {
    forall|c: int|
        0 <= c < cells.len() && (#[trigger] cells[c]) is Data ==> (
        node_at(cells, c).kind matches NodeKind::Detect { id, wp_snowflake, time }
            ==> has_detector(operators, id, wp_snowflake, time))
}

/// One of the operators is this detector.
spec fn has_detector(
    operators: Seq<Operator>,
    id: u16,
    wp_snowflake: u32,
    time: u64,
) -> bool {
    exists|i: int| #![trigger operators[i]]
        0 <= i < operators.len() && certain_detection(operators[i]) == Some(
            WpResult::Success { time, spd_id: id, wp_snowflake },
        )
}

/// Handles of the plan lead to operators, and its detectors are the island's.
spec fn sound_plan(plan: PlanView, operators: Seq<Operator>) -> bool {
    &&& plan.cells.len() <= UNCLAIMED
    &&& all_rooted(hops_of(plan.cells))
    &&& detectors_from(plan.cells, operators)
    &&& forall|m: int|
        0 <= m < plan.consumers.len() ==> #[trigger] plan.consumers[m] == UNCLAIMED
            || plan.consumers[m] < plan.cells.len()
}

proof fn lemma_detectors_stay(
    cells: Seq<MonotonicMapCell<Node>>,
    operators: Seq<Operator>,
    more: Seq<Operator>,
)
    requires
        detectors_from(cells, operators),
        operators == more.drop_last(),
        more.len() > 0,
    ensures
        detectors_from(cells, more),
{
    assert forall|c: int| 0 <= c < cells.len() && (#[trigger] cells[c]) is Data implies (
    node_at(cells, c).kind matches NodeKind::Detect { id, wp_snowflake, time } ==> has_detector(
        more,
        id,
        wp_snowflake,
        time,
    )) by {
        if let NodeKind::Detect { id, wp_snowflake, time } = node_at(cells, c).kind {
            assert(has_detector(operators, id, wp_snowflake, time));
            let i = choose|i: int| #![trigger operators[i]]
                0 <= i < operators.len() && certain_detection(operators[i]) == Some(
                    WpResult::Success { time, spd_id: id, wp_snowflake },
                );
            assert(more[i] == operators[i]);
        }
    }
}

proof fn lemma_sound_plan(operators: Seq<Operator>, mode_max: u16)
    requires
        plan_of_operators(operators, mode_max) is Some,
    ensures
        sound_plan(plan_of_operators(operators, mode_max)->0, operators),
    decreases operators.len(),
{
    if operators.len() > 0 {
        let earlier = operators.drop_last();
        let operator = operators.last();
        lemma_sound_plan(earlier, mode_max);
        let plan = plan_of_operators(earlier, mode_max)->0;
        let next = plan_of_operators(operators, mode_max)->0;
        lemma_detectors_stay(plan.cells, earlier, operators);
        assert(operators[operators.len() - 1] == operator);
        lemma_root_pushed(hops_of(plan.cells));
        match operator {
            Operator::EPPS { .. } => {},
            Operator::DualBivariate {
                packet_indistinguishability_bits,
                source_modes,
                sink_modes,
                ..
            } => {
                lemma_sound_pair(
                    plan,
                    operators,
                    source_modes@,
                    sink_modes@,
                    packet_indistinguishability_bits,
                );
            },
            _ => {
                assert(hops_of(next.cells) =~= hops_of(plan.cells).push(None));
            },
        }
    }
}

proof fn lemma_sound_pair(
    plan: PlanView,
    operators: Seq<Operator>,
    sources: Seq<u16>,
    sinks: Seq<u16>,
    bits: u64,
)
    requires
        sound_plan(plan, operators),
        plan.with_pair(sources, sinks, bits) is Some,
    ensures
        sound_plan(plan.with_pair(sources, sinks, bits)->0, operators),
{
    let next = plan.with_pair(sources, sinks, bits)->0;
    let first = plan.consumers[sources[0] as int];
    let second = plan.consumers[sources[1] as int];
    let hops = hops_of(plan.cells);
    if first != UNCLAIMED {
        let joined = plan.with_joined(first, pair_links(sources, sinks))->0;
        assert(has_root(hops, first as int));
        lemma_root(hops, first as int);
        assert(hops_of(joined.cells) =~= hops);
        if second != UNCLAIMED {
            assert(has_root(hops, second as int));
            lemma_root(hops, second as int);
            let from = joined.root(second);
            lemma_root_redirected(hops, from, first);
            assert(hops_of(next.cells) =~= hops.update(from, Some(first)));
        }
    } else if second != UNCLAIMED {
        assert(has_root(hops, second as int));
        lemma_root(hops, second as int);
        assert(hops_of(next.cells) =~= hops);
    } else {
        lemma_root_pushed(hops);
        assert(hops_of(next.cells) =~= hops.push(None));
    }
}

/// Wherever the plan names an operator for a mode, there is one.
pub proof fn named_operators_are_there(operators: Seq<Operator>, mode_max: u16, mode: int)
    requires
        plan_of_operators(operators, mode_max) is Some,
        0 <= mode < (plan_of_operators(operators, mode_max)->0).consumers.len(),
        (plan_of_operators(operators, mode_max)->0).consumers[mode] != UNCLAIMED,
    ensures
        ({
            let plan = plan_of_operators(operators, mode_max)->0;
            let c = plan.root(plan.consumers[mode]);
            0 <= c < plan.cells.len() && plan.cells[c] is Data
        }),
{
    lemma_sound_plan(operators, mode_max);
    let plan = plan_of_operators(operators, mode_max)->0;
    let handle = plan.consumers[mode];
    assert(has_root(hops_of(plan.cells), handle as int));
    lemma_root(hops_of(plan.cells), handle as int);
}

/// Every handle of a plan leads to an operator.
pub proof fn lemma_plan_is_rooted(operators: Seq<Operator>, mode_max: u16)
    requires
        plan_of_operators(operators, mode_max) is Some,
    ensures
        ({
            let plan = plan_of_operators(operators, mode_max)->0;
            &&& all_rooted(hops_of(plan.cells))
            &&& plan.cells.len() <= UNCLAIMED
            &&& forall|m: int|
                0 <= m < plan.consumers.len() ==> #[trigger] plan.consumers[m] == UNCLAIMED
                    || plan.consumers[m] < plan.cells.len()
        }),
{
    lemma_sound_plan(operators, mode_max);
}

/// The result is that of a detector among the operators: a success carries its name and
/// time, and either kind the packet that it waits for.
pub open spec fn has_its_detector(operators: Seq<Operator>, result: WpResult) -> bool {
    exists|j: int| #![trigger operators[j]]
        0 <= j < operators.len() && (certain_detection(operators[j]) == Some(result) || (
        certain_detection(operators[j]) is Some && result == WpResult::Empty {
            wp_snowflake: certain_detection(operators[j])->0.snowflake(),
        }))
}

/// Operators keep their kinds on the way.
spec fn keeps_kinds(plan: PlanView, cells: Seq<MonotonicMapCell<Node>>) -> bool {
    &&& cells.len() == plan.cells.len()
    &&& forall|c: int|
        0 <= c < cells.len() ==> (#[trigger] cells[c] is Data) == (plan.cells[c] is Data)
    &&& forall|c: int|
        0 <= c < cells.len() ==> (#[trigger] node_at(cells, c)).kind == node_at(
            plan.cells,
            c,
        ).kind
}

proof fn lemma_course_has_its_detectors(
    plan: PlanView,
    chance: Chance,
    operators: Seq<Operator>,
    outs: Seq<Exits>,
)
    requires
        sound_plan(plan, operators),
        is_course(plan, chance, outs),
    ensures
        keeps_kinds(plan, walk_after(plan, outs).cells),
        forall|i: int|
            0 <= i < walk_after(plan, outs).results.len() ==> has_its_detector(
                operators,
                #[trigger] walk_after(plan, outs).results[i],
            ),
    decreases outs.len(),
{
    if outs.len() > 0 {
        let rest = outs.drop_last();
        lemma_course_has_its_detectors(plan, chance, operators, rest);
        let s = walk_after(plan, rest);
        let c = s.place(plan);
        let handle = plan.consumers[s.stack.last().0 as int];
        assert(is_claimed(plan, s.stack.last().0));
        assert(has_root(hops_of(plan.cells), handle as int));
        lemma_root(hops_of(plan.cells), handle as int);
        assert(plan.cells[c] is Data);
        assert(s.cells[c] is Data);
        assert(node_at(s.cells, c).kind == node_at(plan.cells, c).kind);
        let after = walk_after(plan, outs);
        assert(after.cells == s.cells.update(c, MonotonicMapCell::Data(s.taker(plan))));
        assert(s.taker(plan).kind == node_at(plan.cells, c).kind);
        assert forall|d: int| 0 <= d < after.cells.len() implies (#[trigger] node_at(
            after.cells,
            d,
        )).kind == node_at(plan.cells, d).kind by {
            if d != c {
                assert(after.cells[d] == s.cells[d]);
                assert(node_at(s.cells, d).kind == node_at(plan.cells, d).kind);
            }
        }
        assert forall|d: int| 0 <= d < after.cells.len() implies (#[trigger] after.cells[d] is Data)
            == (plan.cells[d] is Data) by {
            if d != c {
                assert(after.cells[d] == s.cells[d]);
            }
        }
        assert(keeps_kinds(plan, after.cells));
        if let NodeKind::Detect { id, wp_snowflake, time } = node_at(plan.cells, c).kind {
            assert(has_detector(operators, id, wp_snowflake, time));
            let j = choose|j: int| #![trigger operators[j]]
                0 <= j < operators.len() && certain_detection(operators[j]) == Some(
                    WpResult::Success { time, spd_id: id, wp_snowflake },
                );
            let result = detected(s.taker(plan).kind, s.stack.last().1);
            assert(0 <= j < operators.len());
            assert(has_its_detector(operators, result));
            assert forall|i: int| 0 <= i < after.results.len() implies has_its_detector(
                operators,
                #[trigger] after.results[i],
            ) by {
                if i < s.results.len() {
                    assert(after.results[i] == s.results[i]);
                } else {
                    assert(after.results[i] == result);
                }
            }
        }
    }
}

/// Every outcome is that of a detector of the island.
pub proof fn every_outcome_has_its_detector(
    island: IslandView,
    chance: Chance,
    results: Seq<WpResult>,
    i: int,
)
    requires
        plan_of(island) is Some,
        is_outcome(plan_of(island)->0, chance, results),
        0 <= i < results.len(),
    ensures
        has_its_detector(island.operators, results[i]),
{
    let plan = plan_of(island)->0;
    lemma_sound_plan(island.operators, island.mode_max);
    let outs = choose|outs: Seq<Exits>| #[trigger]
        is_course(plan, chance, outs) && walk_after(plan, outs).stack.len() == 0 && walk_after(
            plan,
            outs,
        ).results == results;
    lemma_course_has_its_detectors(plan, chance, island.operators, outs);
    assert(walk_after(plan, outs).results[i] == results[i]);
}

/// Photons enter the mode somewhere.
pub open spec fn is_fed(plan: PlanView, mode: ModeIndex) -> bool {
    exists|e: Entry| #[trigger] is_entry(plan, e) && entry_mode(plan, e) == mode
}

/// Photons go down: every exit of an operator lies deeper than all the modes it starts from.
pub open spec fn goes_down(plan: PlanView, depth: spec_fn(int) -> nat) -> bool {
    forall|c: int, k: int, l: int, j: int|
        #![trigger node_at(plan.cells, c).links[k], node_at(plan.cells, c).links[l].sinks[j]]
        0 <= c < plan.cells.len() && plan.cells[c] is Data && 0 <= k < node_at(
            plan.cells,
            c,
        ).links.len() && 0 <= l < node_at(plan.cells, c).links.len() && 0 <= j < node_at(
            plan.cells,
            c,
        ).links[l].sinks.len() ==> depth(node_at(plan.cells, c).links[k].source as int) < depth(
            node_at(plan.cells, c).links[l].sinks[j] as int,
        )
}

/// The circuit is complete: photons enter every mode that an operator starts from, the plan
/// names that operator for it, and no way through the operators leads back.
pub open spec fn is_complete(plan: PlanView) -> bool {
    &&& forall|c: int|
        0 <= c < plan.cells.len() && (#[trigger] plan.cells[c]) is Data ==> {
            let links = node_at(plan.cells, c).links;
            forall|k: int|
                0 <= k < links.len() ==> consumed_by(plan, (#[trigger] links[k]).source, c)
                    && is_fed(plan, links[k].source)
        }
    &&& exists|depth: spec_fn(int) -> nat| goes_down(plan, depth)
}

/// In a complete circuit, photons reach every mode that they can enter.
proof fn lemma_every_mode_is_reached(
    plan: PlanView,
    chance: Chance,
    photons: Photons,
    rank: Seq<int>,
    depth: spec_fn(int) -> nat,
    mode: ModeIndex,
)
    requires
        is_complete(plan),
        goes_down(plan, depth),
        settled(plan, chance, photons, rank),
        is_fed(plan, mode),
    ensures
        photons[mode as int] is Some,
    decreases depth(mode as int),
{
    let e = choose|e: Entry| #[trigger] is_entry(plan, e) && entry_mode(plan, e) == mode;
    if e.cell == -1 {
        assert(photons[plan.emitted[e.link].0 as int] == Some(plan.emitted[e.link].1));
    } else {
        let c = e.cell;
        let links = node_at(plan.cells, c).links;
        assert(plan.cells[c] is Data);
        assert forall|k: int| 0 <= k < links.len() implies consumed_by(
            plan,
            (#[trigger] node_at(plan.cells, c).links[k]).source,
            c,
        ) && photons[node_at(plan.cells, c).links[k].source as int] is Some by {
            assert(depth(node_at(plan.cells, c).links[k].source as int) < depth(
                node_at(plan.cells, c).links[e.link].sinks[e.sink] as int,
            ));
            lemma_every_mode_is_reached(plan, chance, photons, rank, depth, links[k].source);
        }
        assert(all_arrived(plan, c, photons));
        assert(sinks_filled(links, photons, rank));
        assert(photons[links[e.link].sinks[e.sink] as int] is Some);
    }
}

/// In a complete circuit every operator gets all its photons.
pub proof fn every_operator_is_reached(
    plan: PlanView,
    chance: Chance,
    photons: Photons,
    rank: Seq<int>,
    c: int,
)
    requires
        is_complete(plan),
        settled(plan, chance, photons, rank),
        0 <= c < plan.cells.len(),
        plan.cells[c] is Data,
    ensures
        all_arrived(plan, c, photons),
{
    let depth = choose|depth: spec_fn(int) -> nat| goes_down(plan, depth);
    assert forall|k: int| 0 <= k < node_at(plan.cells, c).links.len() implies consumed_by(
        plan,
        (#[trigger] node_at(plan.cells, c).links[k]).source,
        c,
    ) && photons[node_at(plan.cells, c).links[k].source as int] is Some by {
        lemma_every_mode_is_reached(
            plan,
            chance,
            photons,
            rank,
            depth,
            node_at(plan.cells, c).links[k].source,
        );
    }
}

/// In a complete circuit every course comes to an end.
pub proof fn complete_circuits_come_to_an_end(plan: PlanView)
    requires
        is_circuit(plan),
        is_complete(plan),
    ensures
        comes_to_an_end(plan),
{
    ways_that_go_down_come_to_an_end(plan);
}

/// Every course comes to an end where each mode that photons can enter has an operator to leave
/// by and all ways go down, however often a mode is entered.
pub proof fn ways_that_go_down_come_to_an_end(plan: PlanView)
    requires
        forall|e: Entry| #[trigger] is_entry(plan, e) ==> is_claimed(plan, entry_mode(plan, e)),
        exists|depth: spec_fn(int) -> nat| goes_down(plan, depth),
    ensures
        comes_to_an_end(plan),
{
    let claimed = Set::new(|m: int| 0 <= m <= u16::MAX && is_claimed(plan, m as ModeIndex));
    assert(is_closed(plan, claimed)) by {
        assert forall|i: int| 0 <= i < plan.emitted.len() implies claimed.contains(
            (#[trigger] plan.emitted[i]).0 as int,
        ) by {
            let e = Entry { cell: -1, link: i, sink: 0 };
            assert(is_entry(plan, e));
            assert(entry_mode(plan, e) == plan.emitted[i].0);
        }
        assert forall|c: int, k: int, j: int|
            0 <= c < plan.cells.len() && plan.cells[c] is Data && can_fire(plan, c, claimed) && 0
                <= k < node_at(plan.cells, c).links.len() && 0 <= j < node_at(
                plan.cells,
                c,
            ).links[k].sinks.len() implies claimed.contains(
            #[trigger] node_at(plan.cells, c).links[k].sinks[j] as int,
        ) by {
            let e = Entry { cell: c, link: k, sink: j };
            assert(is_entry(plan, e));
            assert(entry_mode(plan, e) == node_at(plan.cells, c).links[k].sinks[j]);
        }
    }
    assert forall|m: int| #[trigger] is_reached(plan, m) implies 0 <= m <= u16::MAX && is_claimed(
        plan,
        m as ModeIndex,
    ) by {
        assert(claimed.contains(m));
    }
    let depth = choose|depth: spec_fn(int) -> nat| goes_down(plan, depth);
    assert(leads_on(plan, depth));
}

/// Where no source emits, every course is at its end from the start, and nothing is seen:
/// whatever the operators are, the outcome is empty.
pub proof fn nothing_is_seen_in_the_dark(plan: PlanView, chance: Chance, results: Seq<WpResult>)
    requires
        plan.emitted.len() == 0,
        forall|c: int|
            0 <= c < plan.cells.len() && (#[trigger] plan.cells[c]) is Data ==> node_at(
                plan.cells,
                c,
            ).links.len() > 0,
    ensures
        comes_to_an_end(plan),
        is_outcome(plan, chance, results) <==> results.len() == 0,
{
    let none = Set::<int>::empty();
    assert(is_closed(plan, none)) by {
        assert forall|c: int, k: int, j: int|
            0 <= c < plan.cells.len() && plan.cells[c] is Data && can_fire(plan, c, none) && 0 <= k
                < node_at(plan.cells, c).links.len() && 0 <= j < node_at(
                plan.cells,
                c,
            ).links[k].sinks.len() implies none.contains(
            #[trigger] node_at(plan.cells, c).links[k].sinks[j] as int,
        ) by {
            assert(none.contains(node_at(plan.cells, c).links[k].source as int));
        }
    }
    assert forall|m: int| #[trigger] is_reached(plan, m) implies 0 <= m <= u16::MAX && is_claimed(
        plan,
        m as ModeIndex,
    ) by {
        assert(none.contains(m));
    }
    let depth = |m: int| 0nat;
    assert(leads_on(plan, depth)) by {
        assert forall|c: int, k: int, l: int, j: int|
            #![trigger node_at(plan.cells, c).links[k], node_at(plan.cells, c).links[l].sinks[j]]
            fires(plan, c) && 0 <= k < node_at(plan.cells, c).links.len() && 0 <= l < node_at(
                plan.cells,
                c,
            ).links.len() && 0 <= j < node_at(plan.cells, c).links[l].sinks.len() implies depth(
            node_at(plan.cells, c).links[k].source as int,
        ) < depth(node_at(plan.cells, c).links[l].sinks[j] as int) by {
            let source = node_at(plan.cells, c).links[k].source as int;
            assert(reached(plan).contains(source));
            assert(none.contains(source));
        }
    }
    let still = Seq::<Exits>::empty();
    assert(is_course(plan, chance, still));
    if results.len() == 0 {
        assert(walk_after(plan, still).results =~= results);
        assert(walk_after(plan, still).stack.len() == 0);
    }
    if is_outcome(plan, chance, results) {
        let outs = choose|outs: Seq<Exits>| #[trigger]
            is_course(plan, chance, outs) && walk_after(plan, outs).stack.len() == 0 && walk_after(
                plan,
                outs,
            ).results == results;
        lemma_dark_course(plan, chance, outs);
    }
}

proof fn lemma_dark_course(plan: PlanView, chance: Chance, outs: Seq<Exits>)
    requires
        plan.emitted.len() == 0,
        is_course(plan, chance, outs),
    ensures
        outs.len() == 0,
    decreases outs.len(),
{
    if outs.len() > 0 {
        lemma_dark_course(plan, chance, outs.drop_last());
    }
}

} // verus!
