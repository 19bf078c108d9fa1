//! One photon at a time through the operators of a plan.

use vstd::prelude::*;

use crate::collapser::circuit::{
    consumed_by, detected, drawn_split, is_claimed, leave_together, Chance,
};
use crate::collapser::course::{
    all_held, arrived, comes_to_an_end, exits_of, fires, is_course, is_outcome, is_reached,
    is_ready, leads_on, lemma_reached_is_closed, reached, released, walk_after, with_photon, Exits,
    WalkView,
};
use crate::collapser::monotonic_map::{
    all_rooted, has_root, hops_of, lemma_root, MonotonicMapCell,
};
use crate::collapser::photon::{
    first_source, has_source, lemma_first_source, meets_others, split_photon, MonteCarloOperator,
    Node, Photon,
};
use crate::collapser::plan::{
    fresh_operators, lemma_same_hops, node_at, node_cells, CollapsePlan, PlanView,
};
use crate::collapser::settling::{fits_kind, well_shaped};
use crate::concurrency::cell::{CollapseResult, WpResult};
use crate::types::ModeIndex;

verus! {

/// What the two sources of chance can come out as.
pub open spec fn chance_of<C: Fn() -> bool, F: Fn(u64) -> bool>(coin: C, together: F) -> Chance {
    Chance {
        coin: |side: bool| coin.ensures((), side),
        together: |bits: u64, yes: bool| together.ensures((bits,), yes),
    }
}

/// What stands at that place and the next.
spec fn sent(out: Seq<(ModeIndex, Photon)>, i: int) -> (Photon, Photon) {
    (out[i].1, out[i + 1].1)
}

/// Sends a photon to one of the two exits, by the coin.
fn send<C: Fn() -> bool>(
    photon: Photon,
    first: ModeIndex,
    second: ModeIndex,
    coin: &C,
    out: &mut Vec<(ModeIndex, Photon)>,
)
    requires
        coin.requires(()),
    ensures
        final(out)@.len() == old(out)@.len() + 2,
        final(out)@.take(old(out)@.len() as int) == old(out)@,
        final(out)@[old(out)@.len() as int].0 == first,
        final(out)@[old(out)@.len() as int + 1].0 == second,
        exists|side: bool| #[trigger]
            coin.ensures((), side) && sent(final(out)@, old(out)@.len() as int) == (if side {
                (photon, Photon::Vac)
            } else {
                (Photon::Vac, photon)
            }),
{
    let exits = split_photon(photon, coin());
    out.push((first, exits.0));
    out.push((second, exits.1));
    assert(out@.take(old(out)@.len() as int) =~= old(out)@);
}

impl MonteCarloOperator {
    /// Takes the photon in. The answer is whether it was the last that the operator
    /// waited for.
    pub fn arrive(&mut self, mode: ModeIndex, photon: Photon) -> (ready: bool)
        requires
            old(self).wf(),
            has_source(old(self).node().links, mode),
        ensures
            final(self).wf(),
            final(self).node().kind == old(self).node().kind,
            final(self).node().links == old(self).node().links,
            final(self).node().held == (if meets_others(old(self).node()) {
                old(self).node().held.update(
                    first_source(old(self).node().links, mode),
                    Some(photon),
                )
            } else {
                old(self).node().held
            }),
            ready == (meets_others(old(self).node()) ==> all_held(final(self).node())),
    {
        proof {
            lemma_first_source(self.node().links, mode);
        }
        match self {
            MonteCarloOperator::DoubleInterfering { sources, source_photons, .. } => {
                if mode == sources[0] {
                    source_photons[0] = Some(photon);
                } else {
                    source_photons[1] = Some(photon);
                }
                source_photons[0].is_some() && source_photons[1].is_some()
            },
            MonteCarloOperator::MultiModeMap(multi_mode_map) => {
                multi_mode_map.register_photon(mode, photon);
                multi_mode_map.is_ready()
            },
            _ => true,
        }
    }

    /// Sends the photons that the operator has on to its exits; `photon` is the last
    /// that arrived.
    pub fn release<C: Fn() -> bool, F: Fn(u64) -> bool>(
        &self,
        photon: Photon,
        coin: &C,
        together: &F,
        out: &mut Vec<(ModeIndex, Photon)>,
    )
        requires
            self.wf(),
            meets_others(self.node()) ==> all_held(self.node()),
            coin.requires(()),
            forall|bits: u64| #[trigger] together.requires((bits,)),
        ensures
            final(out)@.len() == old(out)@.len() + exits_of(self.node()),
            final(out)@.take(old(out)@.len() as int) == old(out)@,
            released(
                chance_of(*coin, *together),
                self.node(),
                arrived(self.node(), photon),
                final(out)@.skip(old(out)@.len() as int),
            ),
    {
        let ghost chance = chance_of(*coin, *together);
        let ghost at = out@.len() as int;
        match self {
            MonteCarloOperator::Single { sink, .. } => {
                out.push((*sink, photon));
                assert(out@.take(at) =~= old(out)@);
            },
            MonteCarloOperator::Double { sinks, .. } => {
                send(photon, sinks[0], sinks[1], coin, out);
                assert(drawn_split(chance, photon, out@[at].1, out@[at + 1].1));
                assert(out@.skip(at)[0] == out@[at] && out@.skip(at)[1] == out@[at + 1]);
            },
            MonteCarloOperator::DoubleInterfering {
                indistinguishability_bits,
                source_photons,
                sinks,
                ..
            } => {
                assert(self.node().held[0] is Some && self.node().held[1] is Some);
                let left = source_photons[0].unwrap();
                let right = source_photons[1].unwrap();
                if left.is_single() && right.is_single() && together(*indistinguishability_bits) {
                    let side = coin();
                    let first = split_photon(left, side);
                    let second = split_photon(right, side);
                    out.push((sinks[0], first.0));
                    out.push((sinks[1], first.1));
                    out.push((sinks[2], second.0));
                    out.push((sinks[3], second.1));
                    assert(out@.take(at) =~= old(out)@);
                    assert((chance.coin)(side));
                    assert(leave_together(
                        chance,
                        seq![out@[at].1, out@[at + 1].1, out@[at + 2].1, out@[at + 3].1],
                    ));
                } else {
                    send(left, sinks[0], sinks[1], coin, out);
                    let ghost half = out@;
                    send(right, sinks[2], sinks[3], coin, out);
                    assert(half[at] == out@.take(at + 2)[at] && half[at + 1] == out@.take(
                        at + 2,
                    )[at + 1]);
                    assert(out@.take(at) =~= half.take(at));
                    assert(drawn_split(chance, left, out@[at].1, out@[at + 1].1));
                    assert(drawn_split(chance, right, out@[at + 2].1, out@[at + 3].1));
                }
                assert(arrived(self.node(), photon)[0] == left);
                assert(arrived(self.node(), photon)[1] == right);
            },
            MonteCarloOperator::MultiModeMap(map) => {
                let n: usize = map.mode_map.len();
                let mut k: usize = 0;
                let ghost photons = arrived(self.node(), photon);
                while k < n
                    invariant
                        *self == MonteCarloOperator::MultiModeMap(*map),
                        map.wf(),
                        n == map.mode_map@.len(),
                        k <= n,
                        all_held(self.node()),
                        coin.requires(()),
                        chance == chance_of(*coin, *together),
                        photons == arrived(self.node(), photon),
                        at == old(out)@.len(),
                        out@.len() == at + 2 * k,
                        out@.take(at) == old(out)@,
                        forall|i: int|
                            #![trigger photons[i]]
                            #![trigger map.mode_map@[i]]
                            0 <= i < k ==> out@[at + 2 * i].0 == map.mode_map@[i].1 && out@[at + 2
                                * i + 1].0 == map.mode_map@[i].2 && drawn_split(
                                chance,
                                photons[i],
                                out@[at + 2 * i].1,
                                out@[at + 2 * i + 1].1,
                            ),
                    decreases n - k,
                {
                    assert(self.node().held[k as int] is Some);
                    let photon = map.source_photons[k].unwrap();
                    let entry = map.mode_map[k];
                    let ghost before = out@;
                    send(photon, entry.1, entry.2, coin, out);
                    proof {
                        assert(out@.take(at) =~= before.take(at));
                        assert forall|i: int| 0 <= i < before.len() implies out@[i] == before[i] by {
                            assert(out@.take(before.len() as int)[i] == before[i]);
                        }
                        assert(drawn_split(
                            chance,
                            photons[k as int],
                            out@[at + 2 * k].1,
                            out@[at + 2 * k + 1].1,
                        ));
                    }
                    k += 1;
                }
            },
            MonteCarloOperator::SPD { .. } | MonteCarloOperator::Dump { .. } => {
                assert(out@.take(at) =~= old(out)@);
            },
        }
        let ghost new = out@.skip(at);
        assert forall|k: int, j: int|
            0 <= k < self.node().links.len() && 0 <= j
                < self.node().links[k].sinks.len() implies new[2 * k + j].0 == (
        #[trigger] self.node().links[k].sinks[j]) by {
            if let MonteCarloOperator::MultiModeMap(map) = self {
                assert(map.mode_map@[k] == map.mode_map@[k]);
            }
        }
    }
}

impl MonteCarloOperator {
    /// What the operator records of the photon, if it is a detector.
    pub fn detect(&self, photon: Photon) -> (outcome: Option<WpResult>)
        ensures
            outcome == (if self.node().kind is Detect {
                Some(detected(self.node().kind, photon))
            } else {
                None
            }),
    {
        match self {
            MonteCarloOperator::SPD { id, wp_snowflake, time, .. } => Some(
                match photon {
                    Photon::Single => WpResult::Success {
                        spd_id: *id,
                        time: *time,
                        wp_snowflake: *wp_snowflake,
                    },
                    Photon::Vac => WpResult::Empty { wp_snowflake: *wp_snowflake },
                },
            ),
            _ => None,
        }
    }
}

spec fn all_wf(cells: Seq<MonotonicMapCell<MonteCarloOperator>>) -> bool {
    forall|c: int|
        0 <= c < cells.len() ==> (#[trigger] cells[c] matches MonotonicMapCell::Data(operator)
            ==> operator.wf())
}

impl MonteCarloOperator {
    /// Takes a photon in. With the last that the operator waits for, all its photons
    /// go on the stack as they leave, and a detection goes with the results.
    fn hand_over<C: Fn() -> bool, F: Fn(u64) -> bool>(
        &mut self,
        mode: ModeIndex,
        photon: Photon,
        coin: &C,
        together: &F,
        stack: &mut Vec<(ModeIndex, Photon)>,
        result: &mut CollapseResult,
    )
        requires
            old(self).wf(),
            has_source(old(self).node().links, mode),
            coin.requires(()),
            forall|bits: u64| #[trigger] together.requires((bits,)),
            old(result).wf(),
        ensures
            final(self).wf(),
            final(self).node() == with_photon(old(self).node(), mode, photon),
            final(stack)@ == old(stack)@ + final(stack)@.skip(old(stack)@.len() as int),
            if is_ready(final(self).node()) {
                released(
                    chance_of(*coin, *together),
                    final(self).node(),
                    arrived(final(self).node(), photon),
                    final(stack)@.skip(old(stack)@.len() as int),
                )
            } else {
                final(stack)@.skip(old(stack)@.len() as int).len() == 0
            },
            final(result).wf(),
            final(result)@ == (if final(self).node().kind is Detect {
                old(result)@.push(detected(final(self).node().kind, photon))
            } else {
                old(result)@
            }),
    {
        let ready = self.arrive(mode, photon);
        if ready {
            self.release(photon, coin, together, stack);
            if let Some(outcome) = self.detect(photon) {
                result.push(outcome);
            }
        }
        proof {
            let at = old(stack)@.len() as int;
            assert(stack@ =~= stack@.take(at) + stack@.skip(at));
            assert(stack@.take(at) =~= old(stack)@);
        }
    }
}

proof fn lemma_well_shaped(cells: Seq<MonotonicMapCell<MonteCarloOperator>>, plan: PlanView)
    requires
        plan.cells == node_cells(cells),
    ensures
        well_shaped(plan),
{
    assert forall|c: int| 0 <= c < plan.cells.len() && (
    #[trigger] plan.cells[c]) is Data implies fits_kind(node_at(plan.cells, c)) by {
        assert(cells[c] is Data);
    }
}

/// The operators hold only photons that came the right way.
spec fn holds_what_came(plan: PlanView, cells: Seq<MonotonicMapCell<Node>>) -> bool {
    &&& cells.len() == plan.cells.len()
    &&& forall|c: int|
        0 <= c < cells.len() && (#[trigger] plan.cells[c]) is Data ==> cells[c] is Data && came_to(
            plan,
            c,
            node_at(cells, c),
        )
}

spec fn came_to(plan: PlanView, c: int, node: Node) -> bool {
    &&& node.kind == node_at(plan.cells, c).kind
    &&& node.links == node_at(plan.cells, c).links
    &&& meets_others(node) ==> node.held.len() == node.links.len()
    &&& meets_others(node) ==> forall|k: int|
        0 <= k < node.links.len() && (#[trigger] node.held[k]) is Some ==> {
            let source = node.links[k].source;
            &&& reached(plan).contains(source as int)
            &&& consumed_by(plan, source, c)
            &&& first_source(node.links, source) == k
        }
}

/// Every photon on its way is in a mode that photons reach.
spec fn all_reached(plan: PlanView, stack: Exits) -> bool {
    forall|i: int|
        0 <= i < stack.len() ==> reached(plan).contains((#[trigger] stack[i]).0 as int)
}

/// The mode of an exit of the operator.
spec fn exit_mode(node: Node, i: int) -> ModeIndex {
    node.links[i / 2].sinks[i % 2]
}

/// How many steps a photon in the mode can cause at most, over so many levels.
spec fn weight(plan: PlanView, fuel: nat, mode: int) -> nat
    decreases fuel, 0nat,
{
    let c = plan.root(plan.consumers[mode]);
    if fuel > 0 && fires(plan, c) {
        1 + exits_weight(
            plan,
            (fuel - 1) as nat,
            node_at(plan.cells, c),
            exits_of(node_at(plan.cells, c)),
        )
    } else {
        1
    }
}

spec fn exits_weight(plan: PlanView, fuel: nat, node: Node, n: nat) -> nat
    decreases fuel, n,
{
    if n == 0 {
        0
    } else {
        exits_weight(plan, fuel, node, (n - 1) as nat) + weight(
            plan,
            fuel,
            exit_mode(node, n - 1) as int,
        )
    }
}

proof fn lemma_weight_grows(plan: PlanView, less: nat, more: nat, mode: int)
    requires
        less <= more,
    ensures
        1 <= weight(plan, less, mode) <= weight(plan, more, mode),
    decreases less, 0nat,
{
    let c = plan.root(plan.consumers[mode]);
    if less > 0 && fires(plan, c) {
        let node = node_at(plan.cells, c);
        lemma_exits_weight_grows(
            plan,
            (less - 1) as nat,
            (more - 1) as nat,
            node,
            exits_of(node),
        );
    }
}

proof fn lemma_exits_weight_grows(plan: PlanView, less: nat, more: nat, node: Node, n: nat)
    requires
        less <= more,
    ensures
        exits_weight(plan, less, node, n) <= exits_weight(plan, more, node, n),
    decreases less, n,
{
    if n > 0 {
        lemma_exits_weight_grows(plan, less, more, node, (n - 1) as nat);
        lemma_weight_grows(plan, less, more, exit_mode(node, n - 1) as int);
    }
}

/// The levels below a mode.
spec fn levels(depth: spec_fn(int) -> nat, top: nat, mode: int) -> nat {
    if depth(mode) <= top {
        (top - depth(mode)) as nat
    } else {
        0
    }
}

/// How many steps the photons on their way can cause at most.
spec fn load(plan: PlanView, depth: spec_fn(int) -> nat, top: nat, stack: Exits) -> nat
    decreases stack.len(),
{
    if stack.len() == 0 {
        0
    } else {
        let mode = stack.last().0 as int;
        load(plan, depth, top, stack.drop_last()) + weight(plan, levels(depth, top, mode), mode)
    }
}

/// No mode lies deeper.
spec fn is_bottom(depth: spec_fn(int) -> nat, top: nat) -> bool {
    forall|m: int| 0 <= m <= u16::MAX ==> #[trigger] depth(m) <= top
}

proof fn lemma_bottom(depth: spec_fn(int) -> nat, n: nat) -> (top: nat)
    ensures
        forall|m: int| 0 <= m < n ==> #[trigger] depth(m) <= top,
    decreases n,
{
    if n == 0 {
        0
    } else {
        let top = lemma_bottom(depth, (n - 1) as nat);
        if depth(n - 1) > top {
            depth(n - 1)
        } else {
            top
        }
    }
}

proof fn lemma_load_of_exits(
    plan: PlanView,
    depth: spec_fn(int) -> nat,
    top: nat,
    stack: Exits,
    out: Exits,
    node: Node,
    fuel: nat,
)
    requires
        out.len() <= exits_of(node),
        forall|i: int|
            0 <= i < out.len() ==> (#[trigger] out[i]).0 == exit_mode(node, i) && levels(
                depth,
                top,
                out[i].0 as int,
            ) <= fuel,
    ensures
        load(plan, depth, top, stack + out) <= load(plan, depth, top, stack) + exits_weight(
            plan,
            fuel,
            node,
            out.len(),
        ),
    decreases out.len(),
{
    if out.len() == 0 {
        assert(stack + out =~= stack);
    } else {
        let rest = out.drop_last();
        assert forall|i: int| 0 <= i < rest.len() implies (#[trigger] rest[i]).0 == exit_mode(
            node,
            i,
        ) && levels(depth, top, rest[i].0 as int) <= fuel by {
            assert(rest[i] == out[i]);
        }
        lemma_load_of_exits(plan, depth, top, stack, rest, node, fuel);
        assert((stack + out).drop_last() =~= stack + rest);
        assert((stack + out).last() == out.last());
        assert(out[out.len() - 1] == out.last());
        let mode = out.last().0 as int;
        lemma_weight_grows(plan, levels(depth, top, mode), fuel, mode);
    }
}

/// A photon in a mode that photons reach goes to an operator that is there.
proof fn lemma_consumer(plan: PlanView, s: WalkView)
    requires
        comes_to_an_end(plan),
        all_rooted(hops_of(plan.cells)),
        holds_what_came(plan, s.cells),
        all_reached(plan, s.stack),
        s.stack.len() > 0,
    ensures
        is_claimed(plan, s.stack.last().0),
        has_root(hops_of(plan.cells), plan.consumers[s.stack.last().0 as int] as int),
        0 <= s.place(plan) < plan.cells.len(),
        plan.cells[s.place(plan)] is Data,
        s.cells[s.place(plan)] is Data,
        came_to(plan, s.place(plan), node_at(s.cells, s.place(plan))),
        has_source(node_at(s.cells, s.place(plan)).links, s.stack.last().0),
{
    let mode = s.stack.last().0;
    lemma_reached_is_closed(plan);
    assert(s.stack[s.stack.len() - 1] == s.stack.last());
    assert(reached(plan).contains(mode as int));
    assert(is_reached(plan, mode as int));
    let handle = plan.consumers[mode as int];
    assert(has_root(hops_of(plan.cells), handle as int));
    lemma_root(hops_of(plan.cells), handle as int);
}

/// An operator that is ready once it has the photon gets all its photons.
proof fn lemma_ready_fires(plan: PlanView, s: WalkView)
    requires
        comes_to_an_end(plan),
        all_rooted(hops_of(plan.cells)),
        well_shaped(plan),
        holds_what_came(plan, s.cells),
        all_reached(plan, s.stack),
        s.stack.len() > 0,
    ensures
        came_to(plan, s.place(plan), s.taker(plan)),
        is_ready(s.taker(plan)) ==> fires(plan, s.place(plan)),
{
    lemma_consumer(plan, s);
    lemma_reached_is_closed(plan);
    let c = s.place(plan);
    let mode = s.stack.last().0;
    let was = node_at(s.cells, c);
    let node = s.taker(plan);
    assert(s.stack[s.stack.len() - 1] == s.stack.last());
    assert(fits_kind(node_at(plan.cells, c)));
    lemma_first_source(node.links, mode);
    let first = first_source(node.links, mode);
    assert(consumed_by(plan, mode, c));
    if is_ready(node) {
        assert forall|k: int| 0 <= k < node_at(plan.cells, c).links.len() implies {
            let source = (#[trigger] node_at(plan.cells, c).links[k]).source;
            &&& reached(plan).contains(source as int)
            &&& consumed_by(plan, source, c)
            &&& first_source(node_at(plan.cells, c).links, source) == k
        } by {
            if meets_others(node) {
                assert(node.held[k] is Some);
                if k != first {
                    assert(was.held[k] is Some);
                }
            } else {
                assert(k == 0 && first == 0);
            }
        }
    }
}

/// What an operator sends on goes deeper, to modes that photons reach.
proof fn lemma_exits_go_on(
    plan: PlanView,
    chance: Chance,
    depth: spec_fn(int) -> nat,
    s: WalkView,
    out: Exits,
)
    requires
        comes_to_an_end(plan),
        all_rooted(hops_of(plan.cells)),
        well_shaped(plan),
        leads_on(plan, depth),
        holds_what_came(plan, s.cells),
        all_reached(plan, s.stack),
        s.can_send(plan, chance, out),
    ensures
        out.len() == 0 || out.len() == exits_of(node_at(plan.cells, s.place(plan))),
        out.len() > 0 ==> fires(plan, s.place(plan)),
        forall|i: int|
            0 <= i < out.len() ==> (#[trigger] out[i]).0 == exit_mode(
                node_at(plan.cells, s.place(plan)),
                i,
            ) && reached(plan).contains(out[i].0 as int) && depth(s.stack.last().0 as int)
                < depth(out[i].0 as int),
{
    lemma_consumer(plan, s);
    lemma_ready_fires(plan, s);
    lemma_reached_is_closed(plan);
    let c = s.place(plan);
    let node = s.taker(plan);
    let links = node_at(plan.cells, c).links;
    let mode = s.stack.last().0;
    assert(fits_kind(node_at(plan.cells, c)));
    if out.len() > 0 {
        lemma_first_source(links, mode);
        let first = first_source(links, mode);
        assert forall|i: int| 0 <= i < out.len() implies (#[trigger] out[i]).0 == exit_mode(
            node_at(plan.cells, c),
            i,
        ) && reached(plan).contains(out[i].0 as int) && depth(mode as int) < depth(
            out[i].0 as int,
        ) by {
            let k = i / 2;
            let j = i % 2;
            assert(0 <= k < links.len());
            assert(links[k].sinks.len() > j);
            assert(out[2 * k + j].0 == node.links[k].sinks[j]);
            assert(2 * k + j == i);
            assert(reached(plan).contains(node_at(plan.cells, c).links[k].sinks[j] as int));
            assert(depth(node_at(plan.cells, c).links[first].source as int) < depth(
                node_at(plan.cells, c).links[k].sinks[j] as int,
            ));
        }
    }
}

/// What holds while the photons are on their way.
#[verifier::opaque]
spec fn on_its_way(plan: PlanView, s: WalkView) -> bool {
    &&& comes_to_an_end(plan)
    &&& all_rooted(hops_of(plan.cells))
    &&& well_shaped(plan)
    &&& holds_what_came(plan, s.cells)
    &&& all_reached(plan, s.stack)
}

/// With every step there is less to do.
proof fn lemma_step(
    plan: PlanView,
    chance: Chance,
    depth: spec_fn(int) -> nat,
    top: nat,
    s: WalkView,
    out: Exits,
)
    requires
        on_its_way(plan, s),
        leads_on(plan, depth),
        is_bottom(depth, top),
        s.can_send(plan, chance, out),
    ensures
        on_its_way(plan, s.sent(plan, out)),
        load(plan, depth, top, s.sent(plan, out).stack) < load(plan, depth, top, s.stack),
{
    reveal(on_its_way);
    lemma_consumer(plan, s);
    lemma_ready_fires(plan, s);
    lemma_exits_go_on(plan, chance, depth, s, out);
    let c = s.place(plan);
    let node = node_at(plan.cells, c);
    let mode = s.stack.last().0 as int;
    let next = s.sent(plan, out);
    let kept = s.stack.drop_last();
    assert(holds_what_came(plan, next.cells)) by {
        assert forall|d: int| 0 <= d < next.cells.len() && (
        #[trigger] plan.cells[d]) is Data implies next.cells[d] is Data && came_to(
            plan,
            d,
            node_at(next.cells, d),
        ) by {
            if d != c {
                assert(next.cells[d] == s.cells[d]);
            }
        }
    }
    assert(all_reached(plan, next.stack)) by {
        assert forall|i: int| 0 <= i < next.stack.len() implies reached(plan).contains(
            (#[trigger] next.stack[i]).0 as int,
        ) by {
            if i < kept.len() {
                assert(next.stack[i] == s.stack[i]);
            } else {
                assert(next.stack[i] == out[i - kept.len()]);
            }
        }
    }
    let fuel = levels(depth, top, mode);
    assert(depth(mode) <= top);
    if out.len() == 0 {
        assert(kept + out =~= kept);
        lemma_weight_grows(plan, fuel, fuel, mode);
    } else {
        assert(depth(out[0].0 as int) <= top);
        assert(depth(mode) < depth(out[0].0 as int));
        assert forall|i: int| 0 <= i < out.len() implies (#[trigger] out[i]).0 == exit_mode(
            node,
            i,
        ) && levels(depth, top, out[i].0 as int) <= (fuel - 1) as nat by {
            assert(depth(out[i].0 as int) <= top);
        }
        lemma_load_of_exits(plan, depth, top, kept, out, node, (fuel - 1) as nat);
    }
}

impl CollapsePlan {
    /// Sends the photons on their way, and collects what the detectors record.
    pub fn walk<C: Fn() -> bool, F: Fn(u64) -> bool>(self, coin: &C, together: &F) -> (result:
        CollapseResult)
        requires
            self.wf(),
            comes_to_an_end(self@),
            coin.requires(()),
            forall|bits: u64| #[trigger] together.requires((bits,)),
        ensures
            result.wf(),
            is_outcome(self@, chance_of(*coin, *together), result@),
    {
        let ghost plan = self@;
        let ghost chance = chance_of(*coin, *together);
        let mut operators = self.operators;
        let mode_operator_map = self.mode_operator_map;
        let mut active_modes = self.active_modes;
        let mut result = CollapseResult::new();
        let ghost mut outs: Seq<Exits> = seq![];
        let ghost depth = choose|depth: spec_fn(int) -> nat| leads_on(plan, depth);
        let ghost top = lemma_bottom(depth, 0x1_0000);
        proof {
            lemma_same_hops(operators@);
            lemma_well_shaped(operators@, plan);
            lemma_start(plan, operators@);
            assert(WalkView::start(plan) == (WalkView {
                stack: active_modes@,
                cells: node_cells(operators@),
                results: result@,
            }));
        }
        loop
            invariant
                coin.requires(()),
                forall|bits: u64| #[trigger] together.requires((bits,)),
                plan == self@,
                chance == chance_of(*coin, *together),
                mode_operator_map@ == plan.consumers,
                hops_of(operators@) == hops_of(plan.cells),
                all_wf(operators@),
                result.wf(),
                leads_on(plan, depth),
                is_bottom(depth, top),
                is_course(plan, chance, outs),
                walk_after(plan, outs) == (WalkView {
                    stack: active_modes@,
                    cells: node_cells(operators@),
                    results: result@,
                }),
                on_its_way(plan, walk_after(plan, outs)),
            decreases load(plan, depth, top, active_modes@),
        {
            let ghost s = walk_after(plan, outs);
            let ghost before = operators@;
            let (mode, photon) = match active_modes.pop() {
                Some(top) => top,
                None => {
                    assert(s.stack.len() == 0);
                    return result;
                },
            };
            let ghost kept = active_modes@;
            proof {
                assert(s.stack.last() == (mode, photon));
                assert(kept =~= s.stack.drop_last());
                reveal(on_its_way);
                lemma_consumer(plan, s);
            }
            let handle: u16 = mode_operator_map[mode as usize];
            let ghost c = plan.root(handle);
            assert(before[c] is Data);
            let operator = operators.get(handle);
            operator.hand_over(mode, photon, coin, together, &mut active_modes, &mut result);
            let ghost node = operator.node();
            proof {
                let out = active_modes@.skip(kept.len() as int);
                assert(node == s.taker(plan));
                assert(s.can_send(plan, chance, out));
                let next = s.sent(plan, out);
                assert(node_cells(operators@) =~= next.cells);
                assert(hops_of(operators@) =~= hops_of(before));
                assert(next == (WalkView {
                    stack: active_modes@,
                    cells: node_cells(operators@),
                    results: result@,
                }));
                lemma_step(plan, chance, depth, top, s, out);
                assert(outs.push(out).drop_last() =~= outs);
                outs = outs.push(out);
            }
        }
    }
}

proof fn lemma_start(plan: PlanView, operators: Seq<MonotonicMapCell<MonteCarloOperator>>)
    requires
        comes_to_an_end(plan),
        well_shaped(plan),
        plan.cells == node_cells(operators),
        all_rooted(hops_of(plan.cells)),
        fresh_operators(operators),
    ensures
        on_its_way(plan, WalkView::start(plan)),
{
    reveal(on_its_way);
    lemma_reached_is_closed(plan);
    assert forall|c: int| 0 <= c < plan.cells.len() && (
    #[trigger] plan.cells[c]) is Data implies came_to(plan, c, node_at(plan.cells, c)) by {
        assert(operators[c] is Data);
    }
}

} // verus!
