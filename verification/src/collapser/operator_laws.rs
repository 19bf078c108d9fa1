//! What the operators of an island make of its photons.

use vstd::prelude::*;

use crate::collapser::circuit::{consumed_by, drawn_meeting, drawn_split, is_claimed, Chance};
use crate::collapser::course::{arrived, is_course, is_ready, released, walk_after, Exits};
use crate::collapser::monotonic_map::{
    all_rooted, has_root, hops_of, lemma_root, lemma_root_pushed, lemma_root_redirected,
    MonotonicMapCell,
};
use crate::collapser::outcome_laws::lemma_plan_is_rooted;
use crate::collapser::photon::{
    lemma_first_source, meets_others, pair_links, Node, NodeKind, Photon,
};
use crate::collapser::photon_laws::lemma_plan_fits;
use crate::collapser::plan::{node_at, plan_of, plan_of_operators, PlanView, UNCLAIMED};
use crate::collapser::settling::holds_nothing;
use crate::collapser::wiring::links_of;
use crate::concurrency::cell::WpResult;
use crate::concurrency::operator::{IslandView, Operator};
use crate::types::ModeIndex;

verus! {

/// No other operator consumes a mode of this one, and it consumes none twice.
pub open spec fn stands_alone(operators: Seq<Operator>, n: int) -> bool {
    &&& forall|i: int, m: ModeIndex|
        0 <= i < operators.len() && i != n && #[trigger] operators[i].sources().contains(m)
            ==> !operators[n].sources().contains(m)
    &&& operators[n].sources().no_duplicates()
}

/// The kind says what the operator is: a relay, a splitter, a meeting with just the
/// indistinguishability of the operator, a detector with its name, packet and time, or a dump.
pub open spec fn is_kind_of(kind: NodeKind, operator: Operator) -> bool {
    match operator {
        Operator::EPPS { .. } => false,
        Operator::Single { .. } => kind is Relay,
        Operator::DualUnivariate { .. } => kind is Split,
        Operator::DualBivariate { packet_indistinguishability_bits, .. } => kind
            matches NodeKind::Interfere(bits) && bits == packet_indistinguishability_bits,
        Operator::SPD { id: d, wp_snowflake: s, time: t, .. } => kind matches NodeKind::Detect {
            id,
            wp_snowflake,
            time,
        } && id == d && wp_snowflake == s && time == t,
        Operator::Dump { .. } => kind is Dump,
    }
}

/// The plan has the operator in that cell, with the kind and the links that it has.
pub open spec fn is_planned_at(plan: PlanView, operator: Operator, c: int) -> bool {
    &&& 0 <= c < plan.cells.len()
    &&& plan.cells[c] is Data
    &&& is_kind_of(node_at(plan.cells, c).kind, operator)
    &&& node_at(plan.cells, c).links == links_of(operator)
    &&& forall|k: int|
        0 <= k < operator.sources().len() ==> consumed_by(
            plan,
            #[trigger] operator.sources()[k],
            c,
        )
}

/// The plan names the cell for those modes, and for no others.
spec fn owns(plan: PlanView, modes: Seq<ModeIndex>, c: int) -> bool {
    &&& 0 <= c < plan.cells.len()
    &&& plan.cells[c] is Data
    &&& forall|m: int|
        0 <= m < plan.consumers.len() && #[trigger] plan.consumers[m] != UNCLAIMED && plan.root(
            plan.consumers[m],
        ) == c ==> modes.contains(m as ModeIndex)
    &&& forall|k: int|
        0 <= k < modes.len() ==> consumed_by(plan, #[trigger] modes[k], c) && plan.consumers[
            modes[k] as int] != UNCLAIMED
}

spec fn is_rooted(plan: PlanView) -> bool {
    &&& all_rooted(hops_of(plan.cells))
    &&& plan.cells.len() <= UNCLAIMED
    &&& plan.consumers.len() <= u16::MAX
    &&& forall|m: int|
        0 <= m < plan.consumers.len() ==> #[trigger] plan.consumers[m] == UNCLAIMED
            || plan.consumers[m] < plan.cells.len()
}

proof fn lemma_rooted_plan(operators: Seq<Operator>, mode_max: u16)
    requires
        plan_of_operators(operators, mode_max) is Some,
    ensures
        is_rooted(plan_of_operators(operators, mode_max)->0),
{
    lemma_plan_is_rooted(operators, mode_max);
    lemma_consumers_len(operators, mode_max);
}

proof fn lemma_consumers_len(operators: Seq<Operator>, mode_max: u16)
    requires
        plan_of_operators(operators, mode_max) is Some,
    ensures
        (plan_of_operators(operators, mode_max)->0).consumers.len() == mode_max,
    decreases operators.len(),
{
    if operators.len() > 0 {
        lemma_consumers_len(operators.drop_last(), mode_max);
    }
}

proof fn lemma_named(plan: PlanView, m: int)
    requires
        is_rooted(plan),
        0 <= m < plan.consumers.len(),
        plan.consumers[m] != UNCLAIMED,
    ensures
        0 <= plan.root(plan.consumers[m]) < plan.cells.len(),
        plan.cells[plan.root(plan.consumers[m])] is Data,
{
    assert(has_root(hops_of(plan.cells), plan.consumers[m] as int));
    lemma_root(hops_of(plan.cells), plan.consumers[m] as int);
}

/// A mode that no operator consumes is named for none.
proof fn lemma_unnamed(operators: Seq<Operator>, mode_max: u16, m: int)
    requires
        plan_of_operators(operators, mode_max) is Some,
        0 <= m < mode_max,
        forall|i: int|
            0 <= i < operators.len() ==> !(#[trigger] operators[i]).sources().contains(
                m as ModeIndex,
            ),
    ensures
        (plan_of_operators(operators, mode_max)->0).consumers[m] == UNCLAIMED,
    decreases operators.len(),
{
    if operators.len() > 0 {
        let rest = operators.drop_last();
        assert forall|i: int| 0 <= i < rest.len() implies !(
        #[trigger] rest[i]).sources().contains(m as ModeIndex) by {
            assert(rest[i] == operators[i]);
        }
        lemma_unnamed(rest, mode_max, m);
        lemma_consumers_len(rest, mode_max);
        let operator = operators.last();
        assert(operators[operators.len() - 1] == operator);
        lemma_has_sources(operator);
        assert(forall|k: int| 0 <= k < operator.sources().len() ==> #[trigger] operator.sources()[k]
            != m);
    }
}

proof fn lemma_has_sources(operator: Operator)
    ensures
        operator matches Operator::Single { source_modes, .. } ==> operator.sources().len() == 1
            && operator.sources()[0] == source_modes[0],
        operator matches Operator::DualUnivariate { source_modes, .. } ==> operator.sources().len()
            == 1 && operator.sources()[0] == source_modes[0],
        operator matches Operator::DualBivariate { source_modes, .. } ==> operator.sources().len()
            == 2 && operator.sources()[0] == source_modes[0] && operator.sources()[1]
            == source_modes[1],
        operator matches Operator::SPD { source_modes, .. } ==> operator.sources().len() == 1
            && operator.sources()[0] == source_modes[0],
        operator matches Operator::Dump { source_modes, .. } ==> operator.sources().len() == 1
            && operator.sources()[0] == source_modes[0],
        operator is EPPS ==> operator.sources().len() == 0,
{
}

/// An operator that consumes none of the modes leaves the cell alone.
proof fn lemma_cell_stays(
    plan: PlanView,
    next: PlanView,
    operator: Operator,
    modes: Seq<ModeIndex>,
    c: int,
)
    requires
        is_rooted(plan),
        owns(plan, modes, c),
        plan.with_operator(operator) == Some(next),
        forall|k: int|
            0 <= k < operator.sources().len() ==> !modes.contains(#[trigger] operator.sources()[k]),
    ensures
        owns(next, modes, c),
        next.cells[c] == plan.cells[c],
{
    lemma_has_sources(operator);
    let hops = hops_of(plan.cells);
    match operator {
        Operator::EPPS { .. } => {
            assert(next.cells == plan.cells && next.consumers == plan.consumers);
            assert forall|k: int| 0 <= k < modes.len() implies consumed_by(
                next,
                #[trigger] modes[k],
                c,
            ) && next.consumers[modes[k] as int] != UNCLAIMED by {
                assert(consumed_by(plan, modes[k], c));
            }
        },
        Operator::DualBivariate {
            packet_indistinguishability_bits,
            source_modes,
            sink_modes,
            ..
        } => {
            let a = source_modes[0] as int;
            let b = source_modes[1] as int;
            assert(!modes.contains(operator.sources()[0]));
            assert(!modes.contains(operator.sources()[1]));
            lemma_pair_leaves_alone(
                plan,
                next,
                source_modes@,
                sink_modes@,
                packet_indistinguishability_bits,
                modes,
                c,
            );
        },
        _ => {
            let source = operator.sources()[0];
            assert(!modes.contains(source));
            lemma_root_pushed(hops);
            assert(hops_of(next.cells) =~= hops.push(None));
            assert forall|m: int|
                0 <= m < next.consumers.len() && #[trigger] next.consumers[m] != UNCLAIMED
                    && next.root(next.consumers[m]) == c implies modes.contains(
                m as ModeIndex,
            ) by {
                if m == source {
                    assert(next.root(next.consumers[m]) == plan.cells.len());
                } else {
                    assert(next.consumers[m] == plan.consumers[m]);
                }
            }
            assert forall|k: int| 0 <= k < modes.len() implies consumed_by(
                next,
                #[trigger] modes[k],
                c,
            ) && next.consumers[modes[k] as int] != UNCLAIMED by {
                assert(consumed_by(plan, modes[k], c));
                assert(modes[k] != source);
            }
        },
    }
}

proof fn lemma_pair_leaves_alone(
    plan: PlanView,
    next: PlanView,
    sources: Seq<ModeIndex>,
    sinks: Seq<ModeIndex>,
    bits: u64,
    modes: Seq<ModeIndex>,
    c: int,
)
    requires
        is_rooted(plan),
        owns(plan, modes, c),
        plan.with_pair(sources, sinks, bits) == Some(next),
        !modes.contains(sources[0]),
        !modes.contains(sources[1]),
    ensures
        owns(next, modes, c),
        next.cells[c] == plan.cells[c],
{
    let hops = hops_of(plan.cells);
    let links = pair_links(sources, sinks);
    let a = sources[0] as int;
    let b = sources[1] as int;
    let first = plan.consumers[a];
    let second = plan.consumers[b];
    if first != UNCLAIMED {
        lemma_named(plan, a);
        assert(plan.root(first) != c);
    }
    if second != UNCLAIMED {
        lemma_named(plan, b);
        assert(plan.root(second) != c);
    }
    if first != UNCLAIMED && second != UNCLAIMED {
        let joined = plan.with_joined(first, links)->0;
        assert(hops_of(joined.cells) =~= hops);
        let from = plan.root(second);
        let to = plan.root(first);
        lemma_root_redirected(hops, from, first);
        assert(hops_of(next.cells) =~= hops.update(from, Some(first)));
        assert forall|m: int|
            0 <= m < next.consumers.len() && #[trigger] next.consumers[m] != UNCLAIMED
                && next.root(next.consumers[m]) == c implies modes.contains(m as ModeIndex) by {
            assert(next.consumers[m] == plan.consumers[m]);
            lemma_named(plan, m);
        }
    } else if first != UNCLAIMED || second != UNCLAIMED {
        assert(hops_of(next.cells) =~= hops);
        assert forall|m: int|
            0 <= m < next.consumers.len() && #[trigger] next.consumers[m] != UNCLAIMED
                && next.root(next.consumers[m]) == c implies modes.contains(m as ModeIndex) by {
            if m != a && m != b {
                assert(next.consumers[m] == plan.consumers[m]);
            }
        }
    } else {
        lemma_root_pushed(hops);
        assert(hops_of(next.cells) =~= hops.push(None));
        assert forall|m: int|
            0 <= m < next.consumers.len() && #[trigger] next.consumers[m] != UNCLAIMED
                && next.root(next.consumers[m]) == c implies modes.contains(m as ModeIndex) by {
            if m == a || m == b {
                assert(next.root(next.consumers[m]) == plan.cells.len());
            } else {
                assert(next.consumers[m] == plan.consumers[m]);
            }
        }
    }
    assert forall|k: int| 0 <= k < modes.len() implies consumed_by(next, #[trigger] modes[k], c)
        && next.consumers[modes[k] as int] != UNCLAIMED by {
        assert(consumed_by(plan, modes[k], c));
        assert(modes[k] != sources[0] && modes[k] != sources[1]);
        assert(next.consumers[modes[k] as int] == plan.consumers[modes[k] as int]);
    }
}

/// An operator that comes last and alone gets a cell of its own.
proof fn lemma_comes_alone(operators: Seq<Operator>, mode_max: u16) -> (c: int)
    requires
        operators.len() > 0,
        plan_of_operators(operators, mode_max) is Some,
        stands_alone(operators, operators.len() - 1),
        !(operators.last() is EPPS),
    ensures
        ({
            let plan = plan_of_operators(operators, mode_max)->0;
            &&& owns(plan, operators.last().sources(), c)
            &&& is_kind_of(node_at(plan.cells, c).kind, operators.last())
            &&& node_at(plan.cells, c).links == links_of(operators.last())
        }),
{
    let n = operators.len() - 1;
    let rest = operators.drop_last();
    let operator = operators.last();
    assert(operators[n] == operator);
    let plan = plan_of_operators(rest, mode_max)->0;
    let next = plan_of_operators(operators, mode_max)->0;
    let c = plan.cells.len() as int;
    let modes = operator.sources();
    lemma_has_sources(operator);
    lemma_rooted_plan(rest, mode_max);
    lemma_consumers_len(rest, mode_max);
    let hops = hops_of(plan.cells);
    assert forall|k: int| 0 <= k < modes.len() && #[trigger] modes[k] < mode_max implies plan.consumers[
        modes[k] as int] == UNCLAIMED by {
        assert forall|i: int| 0 <= i < rest.len() implies !(
        #[trigger] rest[i]).sources().contains(modes[k]) by {
            if rest[i].sources().contains(modes[k]) {
                assert(operators[i].sources().contains(modes[k]));
            }
        }
        lemma_unnamed(rest, mode_max, modes[k] as int);
    }
    assert(plan.with_operator(operator) == Some(next));
    lemma_root_pushed(hops);
    if let Operator::DualBivariate { source_modes, sink_modes, .. } = operator {
        assert(modes[0] == source_modes[0] && modes[1] == source_modes[1]);
        assert(plan.consumers[source_modes[0] as int] == UNCLAIMED);
        assert(plan.consumers[source_modes[1] as int] == UNCLAIMED);
        assert(next.cells.len() == plan.cells.len() + 1);
    } else {
        assert(node_at(next.cells, c).links =~= links_of(operator));
    }
    assert(hops_of(next.cells) =~= hops.push(None));
    assert forall|m: int|
        0 <= m < next.consumers.len() && #[trigger] next.consumers[m] != UNCLAIMED && next.root(
            next.consumers[m],
        ) == c implies modes.contains(m as ModeIndex) by {
        if !modes.contains(m as ModeIndex) {
            assert(forall|k: int| 0 <= k < modes.len() ==> #[trigger] modes[k] != m);
            assert(next.consumers[m] == plan.consumers[m]);
            lemma_named(plan, m);
        }
    }
    assert forall|k: int| 0 <= k < modes.len() implies consumed_by(next, #[trigger] modes[k], c)
        && next.consumers[modes[k] as int] != UNCLAIMED by {
        assert(next.consumers[modes[k] as int] == c);
    }
    c
}

proof fn lemma_stays_alone(operators: Seq<Operator>, n: int)
    requires
        0 <= n < operators.len() - 1,
        stands_alone(operators, n),
    ensures
        stands_alone(operators.drop_last(), n),
{
    let rest = operators.drop_last();
    assert forall|i: int, m: ModeIndex|
        0 <= i < rest.len() && i != n && #[trigger] rest[i].sources().contains(
            m,
        ) implies !rest[n].sources().contains(m) by {
        assert(operators[i].sources().contains(m));
    }
}

proof fn lemma_is_planned(operators: Seq<Operator>, mode_max: u16, n: int) -> (c: int)
    requires
        plan_of_operators(operators, mode_max) is Some,
        0 <= n < operators.len(),
        stands_alone(operators, n),
        !(operators[n] is EPPS),
    ensures
        ({
            let plan = plan_of_operators(operators, mode_max)->0;
            &&& owns(plan, operators[n].sources(), c)
            &&& is_kind_of(node_at(plan.cells, c).kind, operators[n])
            &&& node_at(plan.cells, c).links == links_of(operators[n])
        }),
    decreases operators.len(),
{
    if n == operators.len() - 1 {
        lemma_comes_alone(operators, mode_max)
    } else {
        let rest = operators.drop_last();
        lemma_stays_alone(operators, n);
        let c = lemma_is_planned(rest, mode_max, n);
        lemma_rooted_plan(rest, mode_max);
        let plan = plan_of_operators(rest, mode_max)->0;
        let next = plan_of_operators(operators, mode_max)->0;
        let operator = operators.last();
        let modes = operators[n].sources();
        assert forall|k: int| 0 <= k < operator.sources().len() implies !modes.contains(
            #[trigger] operator.sources()[k],
        ) by {
            assert(operators[operators.len() - 1].sources().contains(operator.sources()[k]));
        }
        lemma_cell_stays(plan, next, operator, modes, c);
        c
    }
}

/// An operator that shares its modes with no other is planned as it is: the plan has it with
/// its own kind, a meeting with its own indistinguishability, and with its own links.
pub proof fn an_operator_alone_is_planned_as_it_is(island: IslandView, n: int)
    requires
        plan_of(island) is Some,
        0 <= n < island.operators.len(),
        stands_alone(island.operators, n),
        !(island.operators[n] is EPPS),
    ensures
        exists|c: int| #[trigger] is_planned_at(plan_of(island)->0, island.operators[n], c),
{
    let c = lemma_is_planned(island.operators, island.mode_max, n);
    assert(is_planned_at(plan_of(island)->0, island.operators[n], c));
}

/// The cells hold operators of the same kinds, with the same links.
spec fn same_nodes(plan: PlanView, cells: Seq<MonotonicMapCell<Node>>) -> bool {
    &&& cells.len() == plan.cells.len()
    &&& forall|c: int|
        0 <= c < cells.len() ==> (#[trigger] cells[c] is Data) == (plan.cells[c] is Data)
    &&& forall|c: int|
        0 <= c < cells.len() ==> (#[trigger] node_at(cells, c)).kind == node_at(
            plan.cells,
            c,
        ).kind && node_at(cells, c).links == node_at(plan.cells, c).links && node_at(
            cells,
            c,
        ).held.len() == node_at(plan.cells, c).held.len()
}

proof fn lemma_course_keeps_nodes(plan: PlanView, chance: Chance, outs: Seq<Exits>)
    requires
        all_rooted(hops_of(plan.cells)),
        holds_nothing(plan),
        is_course(plan, chance, outs),
    ensures
        same_nodes(plan, walk_after(plan, outs).cells),
    decreases outs.len(),
{
    if outs.len() > 0 {
        let rest = outs.drop_last();
        lemma_course_keeps_nodes(plan, chance, rest);
        let s = walk_after(plan, rest);
        let after = walk_after(plan, outs);
        let c = s.place(plan);
        let handle = plan.consumers[s.stack.last().0 as int];
        assert(is_claimed(plan, s.stack.last().0));
        assert(has_root(hops_of(plan.cells), handle as int));
        lemma_root(hops_of(plan.cells), handle as int);
        assert(plan.cells[c] is Data);
        assert(node_at(s.cells, c).kind == node_at(plan.cells, c).kind);
        assert(after.cells == s.cells.update(c, MonotonicMapCell::Data(s.taker(plan))));
        lemma_first_source(node_at(plan.cells, c).links, s.stack.last().0);
        assert(node_at(plan.cells, c).held.len() == node_at(plan.cells, c).links.len());
        assert forall|d: int| 0 <= d < after.cells.len() implies (#[trigger] node_at(
            after.cells,
            d,
        )).kind == node_at(plan.cells, d).kind && node_at(after.cells, d).links == node_at(
            plan.cells,
            d,
        ).links && node_at(after.cells, d).held.len() == node_at(plan.cells, d).held.len() by {
            if d != c {
                assert(after.cells[d] == s.cells[d]);
                assert(node_at(s.cells, d).kind == node_at(plan.cells, d).kind);
            }
        }
        assert forall|d: int| 0 <= d < after.cells.len() implies (#[trigger] after.cells[d] is Data)
            == (plan.cells[d] is Data) by {
            if d != c {
                assert(after.cells[d] == s.cells[d]);
            }
        }
    }
}

/// Two packets that meet, and meet no other, are drawn for with the indistinguishability of
/// their own operator. Whenever it sends them on, they leave by its sinks: two for the one,
/// two for the other. If the draw on just those bits cannot come out `false`, two photons
/// leave on the same side; if it cannot come out `true`, each goes its own way.
pub proof fn a_lone_meeting_draws_with_its_own_bits(
    island: IslandView,
    chance: Chance,
    outs: Seq<Exits>,
    out: Exits,
    n: int,
    bits: u64,
    sources: [ModeIndex; 2],
    sinks: [ModeIndex; 4],
)
    requires
        plan_of(island) is Some,
        0 <= n < island.operators.len(),
        stands_alone(island.operators, n),
        island.operators[n] matches Operator::DualBivariate {
            packet_indistinguishability_bits,
            source_modes,
            sink_modes,
            ..
        } && packet_indistinguishability_bits == bits && source_modes == sources && sink_modes
            == sinks,
        is_course(plan_of(island)->0, chance, outs),
        walk_after(plan_of(island)->0, outs).can_send(plan_of(island)->0, chance, out),
        ({
            let mode = walk_after(plan_of(island)->0, outs).stack.last().0;
            mode == sources[0] || mode == sources[1]
        }),
        out.len() > 0,
    ensures
        ({
            let held = walk_after(plan_of(island)->0, outs).taker(plan_of(island)->0).held;
            let both = held[0] == Some(Photon::Single) && held[1] == Some(Photon::Single);
            let left = (out[0].1, out[1].1);
            let right = (out[2].1, out[3].1);
            &&& out.len() == 4
            &&& forall|i: int| 0 <= i < 4 ==> (#[trigger] out[i]).0 == sinks[i]
            &&& is_split(held[0]->0, left.0, left.1)
            &&& is_split(held[1]->0, right.0, right.1)
            &&& both && !(chance.together)(bits, false) ==> left == right
            &&& both && !(chance.together)(bits, true) ==> drawn_split(
                chance,
                Photon::Single,
                left.0,
                left.1,
            ) && drawn_split(chance, Photon::Single, right.0, right.1)
        }),
{
    let plan = plan_of(island)->0;
    let operator = island.operators[n];
    let c = lemma_is_planned(island.operators, island.mode_max, n);
    lemma_plan_is_rooted(island.operators, island.mode_max);
    lemma_plan_fits(island.operators, island.mode_max);
    lemma_course_keeps_nodes(plan, chance, outs);
    let walk = walk_after(plan, outs);
    let mode = walk.stack.last().0;
    lemma_has_sources(operator);
    let modes = operator.sources();
    assert(modes[0] == sources[0] && modes[1] == sources[1]);
    assert(consumed_by(plan, modes[0], c) && consumed_by(plan, modes[1], c));
    assert(walk.place(plan) == c);
    let node = walk.taker(plan);
    assert(node_at(walk.cells, c).kind == node_at(plan.cells, c).kind);
    assert(node.kind == NodeKind::Interfere(bits));
    assert(node.links == pair_links(sources@, sinks@));
    assert(meets_others(node));
    assert(is_ready(node));
    let photons = arrived(node, walk.stack.last().1);
    assert(released(chance, node, photons, out));
    assert(photons[0] == node.held[0]->0 && photons[1] == node.held[1]->0);
    let exits = seq![out[0].1, out[1].1, out[2].1, out[3].1];
    assert(drawn_meeting(chance, bits, photons[0], photons[1], exits));
    assert(exits[0] == out[0].1 && exits[1] == out[1].1 && exits[2] == out[2].1 && exits[3]
        == out[3].1);
    assert(node.links[0].sinks[0] == sinks[0] && node.links[0].sinks[1] == sinks[1]);
    assert(node.links[1].sinks[0] == sinks[2] && node.links[1].sinks[1] == sinks[3]);
    assert(out[0].0 == node.links[0].sinks[0]);
    assert(out[1].0 == node.links[0].sinks[1]);
    assert(out[2].0 == node.links[1].sinks[0]);
    assert(out[3].0 == node.links[1].sinks[1]);
    assert(node.held[0] is Some && node.held[1] is Some);
}

/// A photon leaves by one of the two ways, and none leaves by neither.
pub open spec fn is_split(photon: Photon, first: Photon, second: Photon) -> bool {
    match photon {
        Photon::Single => (first == Photon::Single) != (second == Photon::Single),
        Photon::Vac => first == Photon::Vac && second == Photon::Vac,
    }
}

/// What an operator that shares its modes with no other does with a photon that comes to it, on
/// any course: a component with one way out passes it on, one with two sends it one of the two
/// ways, a detector records it, or that there was none, under its own name, and it goes no
/// further from there, nor from a dump.
pub proof fn a_lone_operator_does_its_own(
    island: IslandView,
    chance: Chance,
    outs: Seq<Exits>,
    out: Exits,
    n: int,
)
    requires
        plan_of(island) is Some,
        0 <= n < island.operators.len(),
        stands_alone(island.operators, n),
        !(island.operators[n] is EPPS),
        !(island.operators[n] is DualBivariate),
        is_course(plan_of(island)->0, chance, outs),
        walk_after(plan_of(island)->0, outs).can_send(plan_of(island)->0, chance, out),
        walk_after(plan_of(island)->0, outs).stack.last().0 == island.operators[n].sources()[0],
    ensures
        ({
            let walk = walk_after(plan_of(island)->0, outs);
            let photon = walk.stack.last().1;
            let after = walk.sent(plan_of(island)->0, out);
            match island.operators[n] {
                Operator::Single { sink_modes, .. } => out.len() == 1 && out[0] == (
                    sink_modes[0],
                    photon,
                ) && after.results == walk.results,
                Operator::DualUnivariate { sink_modes, .. } => out.len() == 2 && out[0].0
                    == sink_modes[0] && out[1].0 == sink_modes[1] && is_split(
                    photon,
                    out[0].1,
                    out[1].1,
                ) && after.results == walk.results,
                Operator::SPD { id, wp_snowflake, time, .. } => out.len() == 0 && after.results
                    == walk.results.push(
                    if photon == Photon::Single {
                        WpResult::Success { time, spd_id: id, wp_snowflake }
                    } else {
                        WpResult::Empty { wp_snowflake }
                    },
                ),
                _ => out.len() == 0 && after.results == walk.results,
            }
        }),
{
    let plan = plan_of(island)->0;
    let operator = island.operators[n];
    let c = lemma_is_planned(island.operators, island.mode_max, n);
    lemma_plan_is_rooted(island.operators, island.mode_max);
    lemma_plan_fits(island.operators, island.mode_max);
    lemma_course_keeps_nodes(plan, chance, outs);
    let walk = walk_after(plan, outs);
    lemma_has_sources(operator);
    let modes = operator.sources();
    assert(consumed_by(plan, modes[0], c));
    assert(walk.place(plan) == c);
    let node = walk.taker(plan);
    assert(node_at(walk.cells, c).kind == node_at(plan.cells, c).kind);
    assert(node.links == links_of(operator));
    let photons = arrived(node, walk.stack.last().1);
    assert(is_ready(node));
    assert(released(chance, node, photons, out));
    match operator {
        Operator::Single { .. } => {
            assert(node.links[0].sinks[0] == operator.sinks()[0]);
            assert(out[0].0 == node.links[0].sinks[0]);
        },
        Operator::DualUnivariate { .. } => {
            assert(drawn_split(chance, photons[0], out[0].1, out[1].1));
            assert(out[0].0 == node.links[0].sinks[0]);
            assert(out[1].0 == node.links[0].sinks[1]);
        },
        _ => {},
    }
}

} // verus!
