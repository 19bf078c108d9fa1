//! From the operators of an island to a map of who consumes which mode.

use vstd::prelude::*;

use crate::collapser::monotonic_map::{
    all_rooted, has_root, hops_of, lemma_root, lemma_root_pushed, lemma_root_redirected, root_of,
    MonotonicMap, MonotonicMapCell,
};
use crate::collapser::photon::{
    entry_link, joined_node, meets_others, none_held, pair_links, Link, MonteCarloOperator, Node,
    Photon,
};
use crate::concurrency::operator::{IslandOfInteraction, IslandView, Operator};
use crate::types::ModeIndex;

verus! {

/// Marks a mode that no operator consumes.
pub const UNCLAIMED: u16 = 0xffff;

/// The operators of an island, merged where packets met, with the operator that
/// consumes each mode, and the photons that the sources emit.
#[verifier::ext_equal]
pub struct PlanView {
    pub cells: Seq<MonotonicMapCell<Node>>,
    pub consumers: Seq<u16>,
    pub emitted: Seq<(ModeIndex, Photon)>,
}

pub open spec fn node_cells(cells: Seq<MonotonicMapCell<MonteCarloOperator>>) -> Seq<
    MonotonicMapCell<Node>,
> {
    cells.map_values(
        |cell: MonotonicMapCell<MonteCarloOperator>|
            match cell {
                MonotonicMapCell::Data(operator) => MonotonicMapCell::Data(operator.node()),
                MonotonicMapCell::Moved(next) => MonotonicMapCell::Moved(next),
            },
    )
}

pub open spec fn node_at(cells: Seq<MonotonicMapCell<Node>>, c: int) -> Node {
    cells[c]->Data_0
}

impl PlanView {
    pub open spec fn empty(mode_max: u16) -> PlanView {
        PlanView {
            cells: seq![],
            consumers: Seq::new(mode_max as nat, |m: int| UNCLAIMED),
            emitted: seq![],
        }
    }

    /// The cell that a handle leads to.
    pub open spec fn root(self, handle: u16) -> int {
        root_of(hops_of(self.cells), handle as int)
    }

    /// The plan with one more operator, which alone consumes `source`.
    pub open spec fn with_node(self, source: ModeIndex, node: Node) -> Option<PlanView> {
        if source < self.consumers.len() && self.cells.len() < UNCLAIMED {
            Some(
                PlanView {
                    cells: self.cells.push(MonotonicMapCell::Data(node)),
                    consumers: self.consumers.update(source as int, self.cells.len() as u16),
                    ..self
                },
            )
        } else {
            None
        }
    }

    /// The plan with the pair of packets meeting where `handle` leads.
    pub open spec fn with_joined(self, handle: u16, more: Seq<Link>) -> Option<PlanView> {
        let c = self.root(handle);
        if meets_others(node_at(self.cells, c)) {
            Some(
                PlanView {
                    cells: self.cells.update(
                        c,
                        MonotonicMapCell::Data(joined_node(node_at(self.cells, c), more)),
                    ),
                    ..self
                },
            )
        } else {
            None
        }
    }

    /// The plan with what `handle` leads to moved into what `into` leads to. There
    /// is none where both lead to the same: the packets have met already.
    pub open spec fn with_merged(self, handle: u16, into: u16) -> Option<PlanView> {
        let from = self.root(handle);
        let to = self.root(into);
        if from != to && meets_others(node_at(self.cells, from)) {
            Some(
                PlanView {
                    cells: self.cells.update(from, MonotonicMapCell::Moved(into)).update(
                        to,
                        MonotonicMapCell::Data(
                            joined_node(node_at(self.cells, to), node_at(self.cells, from).links),
                        ),
                    ),
                    ..self
                },
            )
        } else {
            None
        }
    }

    /// The plan with a pair of packets meeting.
    pub open spec fn with_pair(
        self,
        sources: Seq<ModeIndex>,
        sinks: Seq<ModeIndex>,
        indistinguishability_bits: u64,
    ) -> Option<PlanView> {
        if !(sources[0] < self.consumers.len() && sources[1] < self.consumers.len()) {
            None
        } else {
            let first = self.consumers[sources[0] as int];
            let second = self.consumers[sources[1] as int];
            let links = pair_links(sources, sinks);
            if first != UNCLAIMED {
                match self.with_joined(first, links) {
                    None => None,
                    Some(joined) => if second != UNCLAIMED {
                        joined.with_merged(second, first)
                    } else {
                        Some(
                            PlanView {
                                consumers: joined.consumers.update(sources[1] as int, first),
                                ..joined
                            },
                        )
                    },
                }
            } else if second != UNCLAIMED {
                match self.with_joined(second, links) {
                    None => None,
                    Some(joined) => Some(
                        PlanView {
                            consumers: joined.consumers.update(sources[0] as int, second),
                            ..joined
                        },
                    ),
                }
            } else if self.cells.len() < UNCLAIMED {
                let handle = self.cells.len() as u16;
                Some(
                    PlanView {
                        cells: self.cells.push(
                            MonotonicMapCell::Data(
                                Node {
                                    kind: crate::collapser::photon::NodeKind::Interfere(
                                        indistinguishability_bits,
                                    ),
                                    links,
                                    held: none_held(2),
                                },
                            ),
                        ),
                        consumers: self.consumers.update(sources[0] as int, handle).update(
                            sources[1] as int,
                            handle,
                        ),
                        ..self
                    },
                )
            } else {
                None
            }
        }
    }

    /// The plan with one more operator of the island.
    pub open spec fn with_operator(self, operator: Operator) -> Option<PlanView> {
        match operator {
            Operator::EPPS { sink_modes, .. } => Some(
                PlanView {
                    emitted: self.emitted.push((sink_modes[0], Photon::Single)).push(
                        (sink_modes[1], Photon::Single),
                    ),
                    ..self
                },
            ),
            Operator::Single { source_modes, sink_modes, .. } => self.with_node(
                source_modes[0],
                MonteCarloOperator::Single { source: source_modes[0], sink: sink_modes[0] }.node(),
            ),
            Operator::DualBivariate {
                packet_indistinguishability_bits,
                source_modes,
                sink_modes,
                ..
            } => self.with_pair(source_modes@, sink_modes@, packet_indistinguishability_bits),
            Operator::DualUnivariate { source_modes, sink_modes, .. } => self.with_node(
                source_modes[0],
                MonteCarloOperator::Double { source: source_modes[0], sinks: sink_modes }.node(),
            ),
            Operator::SPD { id, wp_snowflake, time, source_modes, .. } => self.with_node(
                source_modes[0],
                MonteCarloOperator::SPD { source: source_modes[0], id, wp_snowflake, time }.node(),
            ),
            Operator::Dump { source_modes, .. } => self.with_node(
                source_modes[0],
                MonteCarloOperator::Dump { source: source_modes[0] }.node(),
            ),
        }
    }
}

/// The plan of the operators in their order. There is none where an operator
/// names a mode that the island does not have, where packets meet that another
/// operator consumes, or where the meetings close a circle.
pub open spec fn plan_of_operators(operators: Seq<Operator>, mode_max: u16) -> Option<PlanView>
    decreases operators.len(),
{
    if operators.len() == 0 {
        Some(PlanView::empty(mode_max))
    } else {
        match plan_of_operators(operators.drop_last(), mode_max) {
            None => None,
            Some(plan) => plan.with_operator(operators.last()),
        }
    }
}

pub open spec fn plan_of(island: IslandView) -> Option<PlanView> {
    plan_of_operators(island.operators, island.mode_max)
}

/// Who consumes which mode of an island, and what its sources emit.
pub struct CollapsePlan {
    pub operators: MonotonicMap<MonteCarloOperator>,
    pub mode_operator_map: Vec<u16>,  // maps mode index to operator index
    pub active_modes: Vec<(ModeIndex, Photon)>,
}

impl View for CollapsePlan {
    type V = PlanView;

    open spec fn view(&self) -> PlanView {
        PlanView {
            cells: node_cells(self.operators@),
            consumers: self.mode_operator_map@,
            emitted: self.active_modes@,
        }
    }
}

/// The operators are as they should be, and none holds a photon yet.
pub open spec fn fresh_operators(cells: Seq<MonotonicMapCell<MonteCarloOperator>>) -> bool {
    forall|c: int|
        0 <= c < cells.len() ==> (#[trigger] cells[c] matches MonotonicMapCell::Data(operator) ==> {
            &&& operator.wf()
            &&& operator.node().held == none_held(operator.node().links.len())
        })
}

pub proof fn lemma_same_hops(cells: Seq<MonotonicMapCell<MonteCarloOperator>>)
    ensures
        hops_of(node_cells(cells)) == hops_of(cells),
{
    assert(hops_of(node_cells(cells)) =~= hops_of(cells));
}

impl CollapsePlan {
    /// Every handle in the plan leads to an operator, and no photon has moved yet.
    pub open spec fn wf(self) -> bool {
        &&& self.operators@.len() <= UNCLAIMED
        &&& self.mode_operator_map@.len() <= u16::MAX
        &&& all_rooted(hops_of(self.operators@))
        &&& fresh_operators(self.operators@)
        &&& forall|m: int|
            0 <= m < self.mode_operator_map@.len() ==> #[trigger] self.mode_operator_map@[m]
                == UNCLAIMED || self.mode_operator_map@[m] < self.operators@.len()
    }

    fn claim(&mut self, source: ModeIndex, operator: MonteCarloOperator) -> (claimed: bool)
        requires
            old(self).wf(),
            operator.wf(),
            operator.node().held == none_held(operator.node().links.len()),
        ensures
            claimed == (old(self)@.with_node(source, operator.node()) is Some),
            claimed ==> final(self).wf(),
            claimed ==> Some(final(self)@) == old(self)@.with_node(source, operator.node()),
    {
        if source as usize >= self.mode_operator_map.len() || self.operators.len()
            >= UNCLAIMED as usize {
            return false;
        }
        let ghost cells = self.operators@;
        let handle: u16 = self.operators.add(operator);
        self.mode_operator_map.set(source as usize, handle);
        proof {
            lemma_root_pushed(hops_of(cells));
            assert(hops_of(self.operators@) =~= hops_of(cells).push(None));
            assert(self@.cells =~= old(self)@.cells.push(MonotonicMapCell::Data(operator.node())));
        }
        true
    }

    fn join_at(
        &mut self,
        handle: u16,
        first: (ModeIndex, ModeIndex, ModeIndex),
        second: (ModeIndex, ModeIndex, ModeIndex),
    ) -> (joined: bool)
        requires
            old(self).wf(),
            handle < old(self).operators@.len(),
        ensures
            joined == (old(self)@.with_joined(
                handle,
                seq![entry_link(first), entry_link(second)],
            ) is Some),
            joined ==> final(self).wf(),
            joined ==> Some(final(self)@) == old(self)@.with_joined(
                handle,
                seq![entry_link(first), entry_link(second)],
            ),
            joined ==> hops_of(final(self).operators@) == hops_of(old(self).operators@),
    {
        let ghost cells = self.operators@;
        let ghost root = root_of(hops_of(cells), handle as int);
        proof {
            assert(has_root(hops_of(cells), handle as int));
            lemma_root(hops_of(cells), handle as int);
            lemma_same_hops(cells);
        }
        let joined = self.operators.get(handle).join(first, second);
        proof {
            assert(hops_of(self.operators@) =~= hops_of(cells));
            if joined {
                assert(self@.cells =~= old(self)@.with_joined(
                    handle,
                    seq![entry_link(first), entry_link(second)],
                )->0.cells);
            }
        }
        joined
    }

    fn merge(&mut self, handle: u16, into: u16) -> (merged: bool)
        requires
            old(self).wf(),
            handle < old(self).operators@.len(),
            into < old(self).operators@.len(),
            node_at(old(self)@.cells, old(self)@.root(into)).kind is Multi,
        ensures
            merged == (old(self)@.with_merged(handle, into) is Some),
            merged ==> final(self).wf(),
            merged ==> Some(final(self)@) == old(self)@.with_merged(handle, into),
    {
        let ghost cells = self.operators@;
        let ghost hops = hops_of(cells);
        proof {
            assert(has_root(hops, handle as int));
            assert(has_root(hops, into as int));
            lemma_root(hops, handle as int);
            lemma_root(hops, into as int);
            lemma_same_hops(cells);
        }
        let from: u16 = self.operators.resolve(handle);
        let to: u16 = self.operators.resolve(into);
        if from == to {
            return false;
        }
        let moved = self.operators.move_out_to(handle, into);
        let ghost redirected = self.operators@;
        proof {
            assert(hops_of(redirected) =~= hops.update(from as int, Some(into)));
            lemma_root_redirected(hops, from as int, into);
            assert(has_root(hops_of(redirected), into as int));
            assert(root_of(hops_of(redirected), into as int) == to);
            assert(cells[from as int] is Data && cells[to as int] is Data);
        }
        let merged = self.operators.get(into).absorb(moved);
        proof {
            assert(hops_of(self.operators@) =~= hops_of(redirected));
            if merged {
                assert(self@.cells =~= old(self)@.with_merged(handle, into)->0.cells);
            }
        }
        merged
    }

    fn record_pair(&mut self, sources: [ModeIndex; 2], sinks: [ModeIndex; 4], bits: u64) -> (ok: bool)
        requires
            old(self).wf(),
        ensures
            ok == (old(self)@.with_pair(sources@, sinks@, bits) is Some),
            ok ==> final(self).wf(),
            ok ==> Some(final(self)@) == old(self)@.with_pair(sources@, sinks@, bits),
    {
        let modes: usize = self.mode_operator_map.len();
        if sources[0] as usize >= modes || sources[1] as usize >= modes {
            return false;
        }
        let mode_1: u16 = self.mode_operator_map[sources[0] as usize];
        let mode_2: u16 = self.mode_operator_map[sources[1] as usize];
        let first = (sources[0], sinks[0], sinks[1]);
        let second = (sources[1], sinks[2], sinks[3]);
        proof {
            assert(seq![entry_link(first), entry_link(second)] =~= pair_links(sources@, sinks@));
            lemma_same_hops(self.operators@);
        }
        if mode_1 != UNCLAIMED {
            if !self.join_at(mode_1, first, second) {
                return false;
            }
            if mode_2 != UNCLAIMED {
                proof {
                    lemma_same_hops(self.operators@);
                    assert(has_root(hops_of(self.operators@), mode_1 as int));
                    lemma_root(hops_of(self.operators@), mode_1 as int);
                }
                self.merge(mode_2, mode_1)
            } else {
                self.mode_operator_map.set(sources[1] as usize, mode_1);
                true
            }
        } else if mode_2 != UNCLAIMED {
            if !self.join_at(mode_2, first, second) {
                return false;
            }
            self.mode_operator_map.set(sources[0] as usize, mode_2);
            true
        } else {
            // no collision, phew.
            if self.operators.len() >= UNCLAIMED as usize {
                return false;
            }
            let ghost cells = self.operators@;
            let operator = MonteCarloOperator::DoubleInterfering {
                indistinguishability_bits: bits,
                sources,
                source_photons: [None, None],
                sinks,
            };
            assert(operator.node().held =~= none_held(2));
            let handle: u16 = self.operators.add(operator);
            self.mode_operator_map.set(sources[0] as usize, handle);
            self.mode_operator_map.set(sources[1] as usize, handle);
            proof {
                lemma_root_pushed(hops_of(cells));
                assert(hops_of(self.operators@) =~= hops_of(cells).push(None));
                assert(self@.cells =~= old(self)@.cells.push(
                    MonotonicMapCell::Data(operator.node()),
                ));
            }
            true
        }
    }

    fn record(&mut self, operator: Operator) -> (ok: bool)
        requires
            old(self).wf(),
        ensures
            ok == (old(self)@.with_operator(operator) is Some),
            ok ==> final(self).wf(),
            ok ==> Some(final(self)@) == old(self)@.with_operator(operator),
    {
        match operator {
            Operator::EPPS { sink_modes, .. } => {
                self.active_modes.push((sink_modes[0], Photon::Single));
                self.active_modes.push((sink_modes[1], Photon::Single));
                true
            },
            Operator::Single { source_modes, sink_modes, .. } => {
                self.claim(
                    source_modes[0],
                    MonteCarloOperator::Single { source: source_modes[0], sink: sink_modes[0] },
                )
            },
            Operator::DualBivariate {
                packet_indistinguishability_bits,
                source_modes,
                sink_modes,
                ..
            } => self.record_pair(source_modes, sink_modes, packet_indistinguishability_bits),
            Operator::DualUnivariate { source_modes, sink_modes, .. } => {
                self.claim(
                    source_modes[0],
                    MonteCarloOperator::Double { source: source_modes[0], sinks: sink_modes },
                )
            },
            Operator::SPD { id, wp_snowflake, time, source_modes, .. } => {
                self.claim(
                    source_modes[0],
                    MonteCarloOperator::SPD { source: source_modes[0], id, wp_snowflake, time },
                )
            },
            Operator::Dump { source_modes, .. } => {
                self.claim(source_modes[0], MonteCarloOperator::Dump { source: source_modes[0] })
            },
        }
    }

    /// The plan of an island, if it has one.
    pub fn build(island: &IslandOfInteraction) -> (plan: Option<CollapsePlan>)
        ensures
            plan is Some <==> plan_of(island@) is Some,
            plan matches Some(p) ==> p.wf() && Some(p@) == plan_of(island@),
    {
        let mut plan = CollapsePlan {
            operators: MonotonicMap::new(),
            mode_operator_map: vec![UNCLAIMED; island.mode_max as usize],
            active_modes: Vec::new(),
        };
        let ghost ops = island@.operators;
        let n: usize = island.operator_count();
        let mut i: usize = 0;
        proof {
            assert(plan@ =~= PlanView::empty(island.mode_max));
            assert(ops.take(0) =~= seq![]);
        }
        while i < n
            invariant
                ops == island@.operators,
                n == ops.len(),
                i <= n,
                plan.wf(),
                Some(plan@) == plan_of_operators(ops.take(i as int), island.mode_max),
            decreases n - i,
        {
            let operator = island.operator_at(i);
            let ok = plan.record(operator);
            assert(ops.take(i + 1).drop_last() =~= ops.take(i as int));
            if !ok {
                proof {
                    lemma_no_plan_stays(ops, island.mode_max, i + 1);
                }
                return None;
            }
            i += 1;
        }
        assert(ops.take(n as int) =~= ops);
        Some(plan)
    }
}

/// Operators without a plan get none by adding more.
pub proof fn lemma_no_plan_stays(operators: Seq<Operator>, mode_max: u16, n: int)
    requires
        0 <= n <= operators.len(),
        plan_of_operators(operators.take(n), mode_max) is None,
    ensures
        plan_of_operators(operators, mode_max) is None,
    decreases operators.len() - n,
{
    if n < operators.len() {
        assert(operators.take(n + 1).drop_last() =~= operators.take(n));
        lemma_no_plan_stays(operators, mode_max, n + 1);
    } else {
        assert(operators.take(n) =~= operators);
    }
}

} // verus!
