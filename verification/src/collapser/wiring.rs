//! Islands whose operators are wired up: their photons have an outcome.

use vstd::prelude::*;

use crate::collapser::circuit::{
    consumed_by, distinct_sources, entry_mode, is_circuit, is_claimed, is_entry, Entry,
};
use crate::collapser::course::comes_to_an_end;
use crate::collapser::monotonic_map::{
    all_rooted, has_root, hops_of, lemma_root, lemma_root_pushed, lemma_root_redirected,
    MonotonicMapCell,
};
use crate::collapser::outcome_laws::{
    complete_circuits_come_to_an_end, goes_down, is_complete, is_fed, lemma_plan_is_rooted,
};
use crate::collapser::photon::{
    has_source, joined_node, meets_others, pair_links, with_link, with_links, Link, Node,
};
use crate::collapser::plan::{node_at, plan_of, plan_of_operators, PlanView, UNCLAIMED};
use crate::concurrency::operator::{IslandView, Operator};
use crate::types::ModeIndex;

verus! {

/// The links of an operator: each mode that it consumes, with the modes it leads to.
pub open spec fn links_of(operator: Operator) -> Seq<Link> {
    match operator {
        Operator::EPPS { .. } => seq![],
        Operator::Single { source_modes, sink_modes, .. } => seq![
            Link { source: source_modes[0], sinks: seq![sink_modes[0]] },
        ],
        Operator::DualBivariate { source_modes, sink_modes, .. } => pair_links(
            source_modes@,
            sink_modes@,
        ),
        Operator::DualUnivariate { source_modes, sink_modes, .. } => seq![
            Link { source: source_modes[0], sinks: seq![sink_modes[0], sink_modes[1]] },
        ],
        Operator::SPD { source_modes, .. } => seq![Link { source: source_modes[0], sinks: seq![] }],
        Operator::Dump { source_modes, .. } => seq![
            Link { source: source_modes[0], sinks: seq![] },
        ],
    }
}

/// The modes that a source emits into.
pub open spec fn emitted_by(operator: Operator) -> Seq<ModeIndex> {
    match operator {
        Operator::EPPS { sink_modes, .. } => sink_modes@,
        _ => seq![],
    }
}

/// A link of one of the operators.
pub struct Place {
    pub operator: int,
    pub link: int,
}

pub open spec fn is_place(operators: Seq<Operator>, p: Place) -> bool {
    0 <= p.operator < operators.len() && 0 <= p.link < links_of(operators[p.operator]).len()
}

pub open spec fn link_at(operators: Seq<Operator>, p: Place) -> Link {
    links_of(operators[p.operator])[p.link]
}

/// An exit of a link, or, with -1 for the link, an emission of a source.
pub struct Exit {
    pub place: Place,
    pub exit: int,
}

pub open spec fn is_exit(operators: Seq<Operator>, x: Exit) -> bool {
    if x.place.link == -1 {
        0 <= x.place.operator < operators.len() && 0 <= x.exit < emitted_by(
            operators[x.place.operator],
        ).len()
    } else {
        is_place(operators, x.place) && 0 <= x.exit < link_at(operators, x.place).sinks.len()
    }
}

pub open spec fn exit_mode(operators: Seq<Operator>, x: Exit) -> ModeIndex {
    if x.place.link == -1 {
        emitted_by(operators[x.place.operator])[x.exit]
    } else {
        link_at(operators, x.place).sinks[x.exit]
    }
}

/// One of the operators consumes the mode.
pub open spec fn is_consumed(operators: Seq<Operator>, mode: ModeIndex) -> bool {
    exists|p: Place| #[trigger] is_place(operators, p) && link_at(operators, p).source == mode
}

/// One of the operators leads to the mode.
pub open spec fn is_produced(operators: Seq<Operator>, mode: ModeIndex) -> bool {
    exists|x: Exit| #[trigger] is_exit(operators, x) && exit_mode(operators, x) == mode
}

/// Every mode is produced once: by one exit, or by the same exit of meetings that share the
/// packet it comes from.
pub open spec fn produced_once(operators: Seq<Operator>) -> bool {
    forall|x: Exit, y: Exit| #[trigger]
        is_exit(operators, x) && #[trigger] is_exit(operators, y) && exit_mode(operators, x)
            == exit_mode(operators, y) ==> x == y || {
            &&& x.place.link != -1
            &&& y.place.link != -1
            &&& x.exit == y.exit
            &&& link_at(operators, x.place).source == link_at(operators, y.place).source
        }
}

/// Modes that are produced are consumed, and modes that are consumed are produced.
pub open spec fn all_connected(operators: Seq<Operator>) -> bool {
    &&& forall|x: Exit| #[trigger]
        is_exit(operators, x) ==> is_consumed(operators, exit_mode(operators, x))
    &&& forall|p: Place| #[trigger]
        is_place(operators, p) ==> is_produced(operators, link_at(operators, p).source)
}

/// Only meetings of packets share a mode, and then the packet leaves each the same way.
pub open spec fn shared_alike(operators: Seq<Operator>) -> bool {
    forall|p: Place, q: Place| #[trigger]
        is_place(operators, p) && #[trigger] is_place(operators, q) && link_at(operators, p).source
            == link_at(operators, q).source ==> p == q || {
            &&& p.operator != q.operator
            &&& operators[p.operator] is DualBivariate
            &&& operators[q.operator] is DualBivariate
            &&& link_at(operators, p) == link_at(operators, q)
        }
}

/// The packets that have met, directly or through others, all go by one mode among them.
pub open spec fn company(operators: Seq<Operator>, mode: int) -> int
    decreases operators.len(),
{
    if operators.len() == 0 {
        mode
    } else {
        match operators.last() {
            Operator::DualBivariate { source_modes, .. } => {
                let first = company(operators.drop_last(), source_modes[0] as int);
                let second = company(operators.drop_last(), source_modes[1] as int);
                let own = company(operators.drop_last(), mode);
                if own == second {
                    first
                } else {
                    own
                }
            },
            _ => company(operators.drop_last(), mode),
        }
    }
}

/// No meeting closes a circle: its packets had not met before, not through others either.
pub open spec fn no_circles(operators: Seq<Operator>) -> bool {
    forall|n: int|
        0 <= n < operators.len() ==> (#[trigger] operators[n] matches Operator::DualBivariate {
            source_modes,
            ..
        } ==> company(operators.take(n), source_modes[0] as int) != company(
            operators.take(n),
            source_modes[1] as int,
        ))
}

/// The modes go down: exits lie deeper than where they come from, and packets meet in equal
/// depth.
pub open spec fn modes_go_down(operators: Seq<Operator>, depth: spec_fn(int) -> nat) -> bool {
    &&& forall|x: Exit| #[trigger]
        is_exit(operators, x) && x.place.link != -1 ==> depth(
            link_at(operators, x.place).source as int,
        ) < depth(exit_mode(operators, x) as int)
    &&& forall|n: int|
        0 <= n < operators.len() ==> (#[trigger] operators[n] matches Operator::DualBivariate {
            source_modes,
            ..
        } ==> depth(source_modes[0] as int) == depth(source_modes[1] as int))
}

/// What holds of the first operators of an island as it holds of all.
pub open spec fn is_laid_out(
    operators: Seq<Operator>,
    mode_max: u16,
    depth: spec_fn(int) -> nat,
) -> bool {
    &&& operators.len() <= UNCLAIMED
    &&& forall|p: Place| #[trigger]
        is_place(operators, p) ==> link_at(operators, p).source < mode_max
    &&& shared_alike(operators)
    &&& no_circles(operators)
    &&& modes_go_down(operators, depth)
}

/// The operators of the island are wired up: the modes they consume are modes of the island;
/// every mode is produced once and consumed; packets leave meetings that share them the same
/// way; the modes go down; and no meeting closes a circle. There are no more operators than
/// handles.
pub open spec fn is_wired(island: IslandView, depth: spec_fn(int) -> nat) -> bool {
    &&& is_laid_out(island.operators, island.mode_max, depth)
    &&& produced_once(island.operators)
    &&& all_connected(island.operators)
}

/// The plan names an operator for the mode.
spec fn is_named(plan: PlanView, m: int) -> bool {
    0 <= m < plan.consumers.len() && plan.consumers[m] != UNCLAIMED
}

/// The cell of that operator.
spec fn home(plan: PlanView, m: int) -> int {
    plan.root(plan.consumers[m])
}

/// The mode is one of those that the links start from.
spec fn starts_at(links: Seq<Link>, m: int) -> bool {
    0 <= m <= u16::MAX && has_source(links, m as ModeIndex)
}

/// Handles lead to operators.
spec fn is_rooted(plan: PlanView) -> bool {
    &&& all_rooted(hops_of(plan.cells))
    &&& plan.cells.len() <= UNCLAIMED
    &&& forall|m: int|
        0 <= m < plan.consumers.len() ==> #[trigger] plan.consumers[m] == UNCLAIMED
            || plan.consumers[m] < plan.cells.len()
}

proof fn lemma_home(plan: PlanView, m: int)
    requires
        is_rooted(plan),
        is_named(plan, m),
    ensures
        plan.consumers[m] < plan.cells.len(),
        0 <= home(plan, m) < plan.cells.len(),
        plan.cells[home(plan, m)] is Data,
{
    assert(has_root(hops_of(plan.cells), plan.consumers[m] as int));
    lemma_root(hops_of(plan.cells), plan.consumers[m] as int);
}

/// The operators that consumed one of these modes before.
spec fn homes(plan: PlanView, links: Seq<Link>) -> Set<int> {
    Set::new(|c: int| exists|m: int| #[trigger]
        is_named(plan, m) && starts_at(links, m) && home(plan, m) == c)
}

/// The link stood in one of the cells before.
spec fn was_in(plan: PlanView, cells: Set<int>, link: Link) -> bool {
    exists|c: int| #[trigger]
        cells.contains(c) && 0 <= c < plan.cells.len() && plan.cells[c] is Data && node_at(
            plan.cells,
            c,
        ).links.contains(link)
}

/// The plan with the links in cell `t`, together with all that was in the cells of the
/// operators that consumed one of these modes before.
spec fn gathers(plan: PlanView, next: PlanView, links: Seq<Link>, t: int) -> bool {
    let old = homes(plan, links);
    &&& next.emitted == plan.emitted
    &&& next.consumers.len() == plan.consumers.len()
    &&& plan.cells.len() <= next.cells.len() <= plan.cells.len() + 1
    &&& 0 <= t < next.cells.len()
    &&& next.cells[t] is Data
    &&& t == plan.cells.len() || old.contains(t)
    &&& forall|m: int| #[trigger]
        is_named(next, m) <==> is_named(plan, m) || (starts_at(links, m) && m
            < plan.consumers.len())
    &&& forall|m: int| #[trigger]
        is_named(next, m) ==> home(next, m) == (if starts_at(links, m) || old.contains(
            home(plan, m),
        ) {
            t
        } else {
            home(plan, m)
        })
    &&& forall|c: int|
        0 <= c < plan.cells.len() && !old.contains(c) ==> #[trigger] next.cells[c] == plan.cells[c]
    &&& forall|c: int|
        0 <= c < next.cells.len() && c != t && (#[trigger] next.cells[c]) is Data ==> c
            < plan.cells.len() && !old.contains(c)
    &&& forall|k: int|
        0 <= k < node_at(next.cells, t).links.len() ==> links.contains(
            #[trigger] node_at(next.cells, t).links[k],
        ) || was_in(plan, old, node_at(next.cells, t).links[k])
    &&& forall|m: int| #[trigger]
        is_named(next, m) && home(next, m) == t ==> starts_at(node_at(next.cells, t).links, m)
    &&& distinct_sources(node_at(next.cells, t).links)
}

proof fn lemma_with_links(links: Seq<Link>, more: Seq<Link>)
    ensures
        distinct_sources(links) ==> distinct_sources(with_links(links, more)),
        forall|k: int|
            0 <= k < with_links(links, more).len() ==> links.contains(
                #[trigger] with_links(links, more)[k],
            ) || more.contains(with_links(links, more)[k]),
        forall|m: ModeIndex|
            has_source(links, m) || has_source(more, m) ==> #[trigger] has_source(
                with_links(links, more),
                m,
            ),
    decreases more.len(),
{
    if more.len() > 0 {
        let rest = more.drop_last();
        let last = more.last();
        lemma_with_links(links, rest);
        let before = with_links(links, rest);
        let after = with_links(links, more);
        assert(after == with_link(before, last));
        assert(more[more.len() - 1] == last);
        assert forall|k: int| 0 <= k < after.len() implies links.contains(#[trigger] after[k])
            || more.contains(after[k]) by {
            if k < before.len() {
                assert(after[k] == before[k]);
                if rest.contains(before[k]) {
                    assert(more[rest.index_of(before[k])] == before[k]);
                }
            }
        }
        assert forall|m: ModeIndex| has_source(links, m) || has_source(more, m) implies #[trigger]
            has_source(after, m) by {
            if has_source(before, m) {
                let k = choose|k: int| 0 <= k < before.len() && (#[trigger] before[k]).source == m;
                assert(after[k].source == m);
            } else {
                let k = choose|k: int| 0 <= k < more.len() && (#[trigger] more[k]).source == m;
                if k < rest.len() {
                    assert(rest[k].source == m);
                }
                assert(last.source == m);
                assert(after[before.len() as int].source == m);
            }
        }
        if distinct_sources(links) {
            assert forall|i: int, k: int|
                0 <= i < after.len() && 0 <= k < after.len() && (#[trigger] after[i]).source == (
                #[trigger] after[k]).source implies i == k by {
                if i < before.len() {
                    assert(after[i] == before[i]);
                }
                if k < before.len() {
                    assert(after[k] == before[k]);
                }
            }
        }
    } else {
        assert forall|k: int| 0 <= k < links.len() implies links.contains(
            #[trigger] with_links(links, more)[k],
        ) by {
            assert(with_links(links, more)[k] == links[k]);
        }
    }
}

proof fn lemma_joined(node: Node, more: Seq<Link>)
    requires
        distinct_sources(node.links),
    ensures
        distinct_sources(joined_node(node, more).links),
        forall|k: int|
            0 <= k < joined_node(node, more).links.len() ==> node.links.contains(
                #[trigger] joined_node(node, more).links[k],
            ) || more.contains(joined_node(node, more).links[k]),
        forall|m: int|
            starts_at(node.links, m) || starts_at(more, m) ==> #[trigger] starts_at(
                joined_node(node, more).links,
                m,
            ),
{
    let none = Seq::<Link>::empty();
    lemma_with_links(none, node.links);
    let base = if node.kind is Interfere {
        with_links(none, node.links)
    } else {
        node.links
    };
    lemma_with_links(base, more);
    let all = joined_node(node, more).links;
    assert(all == with_links(base, more));
    assert forall|k: int| 0 <= k < all.len() implies node.links.contains(#[trigger] all[k])
        || more.contains(all[k]) by {
        if base.contains(all[k]) && node.kind is Interfere {
            let i = base.index_of(all[k]);
            assert(with_links(none, node.links)[i] == all[k]);
            assert(!none.contains(all[k]));
        }
    }
}

/// A pair starts at its two modes.
proof fn lemma_pair_starts(sources: Seq<ModeIndex>, sinks: Seq<ModeIndex>)
    ensures
        forall|m: int| #[trigger]
            starts_at(pair_links(sources, sinks), m) <==> m == sources[0] || m == sources[1],
{
    let links = pair_links(sources, sinks);
    assert(links[0].source == sources[0] && links[1].source == sources[1]);
}

/// Every mode that the plan names an operator for is one that the operator has a link for,
/// and no operator has two.
spec fn is_tidy(plan: PlanView) -> bool {
    &&& forall|m: int| #[trigger]
        is_named(plan, m) ==> starts_at(node_at(plan.cells, home(plan, m)).links, m)
    &&& forall|c: int|
        0 <= c < plan.cells.len() && (#[trigger] plan.cells[c]) is Data ==> distinct_sources(
            node_at(plan.cells, c).links,
        )
}

/// An operator of its own for modes that none consumed.
proof fn lemma_new_gathers(plan: PlanView, next: PlanView, node: Node)
    requires
        is_rooted(plan),
        plan.cells.len() < UNCLAIMED,
        distinct_sources(node.links),
        forall|m: int| #[trigger] starts_at(node.links, m) ==> m < plan.consumers.len(),
        forall|m: int| #[trigger] is_named(plan, m) ==> !starts_at(node.links, m),
        next.emitted == plan.emitted,
        next.cells == plan.cells.push(MonotonicMapCell::Data(node)),
        next.consumers.len() == plan.consumers.len(),
        forall|m: int|
            0 <= m < plan.consumers.len() ==> #[trigger] next.consumers[m] == (if starts_at(
                node.links,
                m,
            ) {
                plan.cells.len() as u16
            } else {
                plan.consumers[m]
            }),
    ensures
        gathers(plan, next, node.links, plan.cells.len() as int),
{
    let links = node.links;
    let t = plan.cells.len() as int;
    let old = homes(plan, links);
    lemma_root_pushed(hops_of(plan.cells));
    assert(hops_of(next.cells) =~= hops_of(plan.cells).push(None));
    assert(forall|c: int| !old.contains(c));
    assert(node_at(next.cells, t) == node);
    assert forall|m: int| #[trigger] is_named(next, m) <==> is_named(plan, m) || (starts_at(
        links,
        m,
    ) && m < plan.consumers.len()) by {
        if 0 <= m < plan.consumers.len() {
            assert(next.consumers[m] == next.consumers[m]);
        }
    }
    assert forall|m: int| #[trigger] is_named(next, m) implies home(next, m) == (if starts_at(
        links,
        m,
    ) || old.contains(home(plan, m)) {
        t
    } else {
        home(plan, m)
    }) by {
        if !starts_at(links, m) {
            assert(next.consumers[m] == plan.consumers[m]);
            assert(is_named(plan, m));
            lemma_home(plan, m);
        } else {
            assert(next.consumers[m] == t);
        }
    }
    assert forall|m: int| #[trigger] is_named(next, m) && home(next, m) == t implies starts_at(
        links,
        m,
    ) by {
        if !starts_at(links, m) {
            assert(is_named(plan, m));
            lemma_home(plan, m);
        }
    }
}

/// A pair of packets joins the operator that consumes one of them.
proof fn lemma_join_gathers(
    plan: PlanView,
    next: PlanView,
    links: Seq<Link>,
    joins: int,
    other: int,
)
    requires
        is_rooted(plan),
        is_tidy(plan),
        forall|m: int| #[trigger] starts_at(links, m) <==> m == joins || m == other,
        is_named(plan, joins),
        0 <= other < plan.consumers.len(),
        !is_named(plan, other),
        next == (PlanView {
            cells: plan.cells.update(
                home(plan, joins),
                MonotonicMapCell::Data(
                    joined_node(node_at(plan.cells, home(plan, joins)), links),
                ),
            ),
            consumers: plan.consumers.update(other, plan.consumers[joins]),
            ..plan
        }),
    ensures
        gathers(plan, next, links, home(plan, joins)),
{
    let t = home(plan, joins);
    let old = homes(plan, links);
    lemma_home(plan, joins);
    assert(starts_at(links, joins) && starts_at(links, other));
    assert(old =~= set![t]);
    assert(hops_of(next.cells) =~= hops_of(plan.cells));
    let node = node_at(plan.cells, t);
    assert(plan.cells[t] is Data);
    lemma_joined(node, links);
    assert(node_at(next.cells, t) == joined_node(node, links));
    assert forall|m: int| #[trigger] is_named(next, m) <==> is_named(plan, m) || (starts_at(
        links,
        m,
    ) && m < plan.consumers.len()) by {}
    assert forall|m: int| #[trigger] is_named(next, m) implies home(next, m) == (if starts_at(
        links,
        m,
    ) || old.contains(home(plan, m)) {
        t
    } else {
        home(plan, m)
    }) by {
        if m != other {
            assert(next.consumers[m] == plan.consumers[m]);
            assert(is_named(plan, m));
        }
    }
    assert forall|k: int| 0 <= k < node_at(next.cells, t).links.len() implies links.contains(
        #[trigger] node_at(next.cells, t).links[k],
    ) || was_in(plan, old, node_at(next.cells, t).links[k]) by {
        assert(old.contains(t));
    }
    assert forall|m: int| #[trigger] is_named(next, m) && home(next, m) == t implies starts_at(
        node_at(next.cells, t).links,
        m,
    ) by {
        if !starts_at(links, m) {
            assert(is_named(plan, m));
        }
    }
}

/// A pair of packets brings two operators together.
proof fn lemma_merge_gathers(
    plan: PlanView,
    next: PlanView,
    links: Seq<Link>,
    first: int,
    second: int,
)
    requires
        is_rooted(plan),
        is_tidy(plan),
        forall|m: int| #[trigger] starts_at(links, m) <==> m == first || m == second,
        is_named(plan, first),
        is_named(plan, second),
        home(plan, first) != home(plan, second),
        ({
            let t = home(plan, first);
            let from = home(plan, second);
            next == (PlanView {
                cells: plan.cells.update(
                    t,
                    MonotonicMapCell::Data(joined_node(node_at(plan.cells, t), links)),
                ).update(from, MonotonicMapCell::Moved(plan.consumers[first])).update(
                    t,
                    MonotonicMapCell::Data(
                        joined_node(
                            joined_node(node_at(plan.cells, t), links),
                            node_at(plan.cells, from).links,
                        ),
                    ),
                ),
                ..plan
            })
        }),
    ensures
        gathers(plan, next, links, home(plan, first)),
{
    let t = home(plan, first);
    let from = home(plan, second);
    let old = homes(plan, links);
    lemma_home(plan, first);
    lemma_home(plan, second);
    assert(starts_at(links, first) && starts_at(links, second));
    assert(old =~= set![t, from]) by {
        assert forall|c: int| old.contains(c) <==> set![t, from].contains(c) by {}
    }
    let hops = hops_of(plan.cells);
    lemma_root_redirected(hops, from, plan.consumers[first]);
    assert(hops_of(next.cells) =~= hops.update(from, Some(plan.consumers[first])));
    let node = node_at(plan.cells, t);
    let moved = node_at(plan.cells, from);
    assert(plan.cells[t] is Data && plan.cells[from] is Data);
    lemma_joined(node, links);
    lemma_joined(joined_node(node, links), moved.links);
    let all = node_at(next.cells, t).links;
    assert(all == joined_node(joined_node(node, links), moved.links).links);
    assert forall|m: int| #[trigger] is_named(next, m) <==> is_named(plan, m) || (starts_at(
        links,
        m,
    ) && m < plan.consumers.len()) by {}
    assert forall|m: int| #[trigger] is_named(next, m) implies home(next, m) == (if starts_at(
        links,
        m,
    ) || old.contains(home(plan, m)) {
        t
    } else {
        home(plan, m)
    }) by {
        assert(is_named(plan, m));
        lemma_home(plan, m);
    }
    assert forall|k: int| 0 <= k < all.len() implies links.contains(#[trigger] all[k]) || was_in(
        plan,
        old,
        all[k],
    ) by {
        assert(old.contains(t) && old.contains(from));
        if !moved.links.contains(all[k]) {
            let i = joined_node(node, links).links.index_of(all[k]);
            assert(joined_node(node, links).links[i] == all[k]);
        }
    }
    assert forall|m: int| #[trigger] is_named(next, m) && home(next, m) == t implies starts_at(
        all,
        m,
    ) by {
        assert(is_named(plan, m));
        lemma_home(plan, m);
        assert(starts_at(node_at(plan.cells, home(plan, m)).links, m));
    }
}

/// Packets meet that come in the mode.
spec fn is_met(operators: Seq<Operator>, m: int) -> bool {
    exists|p: Place| #[trigger]
        is_place(operators, p) && operators[p.operator] is DualBivariate && link_at(
            operators,
            p,
        ).source == m
}

/// The link is one of an operator.
spec fn is_link_of(operators: Seq<Operator>, link: Link) -> bool {
    exists|p: Place| #[trigger] is_place(operators, p) && link_at(operators, p) == link
}

/// The plan names an operator for every mode that is consumed.
spec fn names_all(operators: Seq<Operator>, plan: PlanView) -> bool {
    forall|m: int|
        0 <= m < plan.consumers.len() ==> #[trigger] is_named(plan, m) == is_consumed(
            operators,
            m as ModeIndex,
        )
}

/// The links in the plan are those of the operators, each where the plan says.
spec fn links_fit(operators: Seq<Operator>, plan: PlanView) -> bool {
    forall|c: int, k: int|
        0 <= c < plan.cells.len() && plan.cells[c] is Data && 0 <= k < node_at(
            plan.cells,
            c,
        ).links.len() ==> {
            let link = #[trigger] node_at(plan.cells, c).links[k];
            &&& is_link_of(operators, link)
            &&& is_named(plan, link.source as int)
            &&& home(plan, link.source as int) == c
        }
}

/// Where packets meet, the operator can take more of them.
spec fn meetings_fit(operators: Seq<Operator>, plan: PlanView) -> bool {
    forall|m: int| #[trigger]
        is_named(plan, m) && is_met(operators, m) ==> meets_others(
            node_at(plan.cells, home(plan, m)),
        )
}

/// Modes that one operator consumes are in the same company, and in equal depth.
spec fn company_fits(
    operators: Seq<Operator>,
    plan: PlanView,
    depth: spec_fn(int) -> nat,
) -> bool {
    forall|m: int, o: int| #[trigger]
        is_named(plan, m) && #[trigger] is_named(plan, o) && home(plan, m) == home(plan, o)
            ==> company(operators, m) == company(operators, o) && depth(m) == depth(o)
}

/// How the plan of the operators looks.
spec fn follows(
    operators: Seq<Operator>,
    mode_max: u16,
    plan: PlanView,
    depth: spec_fn(int) -> nat,
) -> bool {
    &&& plan.consumers.len() == mode_max
    &&& plan.cells.len() <= operators.len()
    &&& is_tidy(plan)
    &&& names_all(operators, plan)
    &&& links_fit(operators, plan)
    &&& meetings_fit(operators, plan)
    &&& company_fits(operators, plan, depth)
}

/// The places of all operators but the last, and those of the last.
proof fn lemma_places(operators: Seq<Operator>)
    requires
        operators.len() > 0,
    ensures
        forall|p: Place| #[trigger]
            is_place(operators.drop_last(), p) ==> is_place(operators, p) && link_at(operators, p)
                == link_at(operators.drop_last(), p) && operators[p.operator]
                == operators.drop_last()[p.operator],
        forall|p: Place| #[trigger]
            is_place(operators, p) ==> is_place(operators.drop_last(), p) || (p.operator
                == operators.len() - 1 && 0 <= p.link < links_of(operators.last()).len()
                && link_at(operators, p) == links_of(operators.last())[p.link]),
        forall|k: int|
            0 <= k < links_of(operators.last()).len() ==> {
                let p = Place { operator: operators.len() - 1, link: k };
                is_place(operators, p) && link_at(operators, p) == #[trigger] links_of(
                    operators.last(),
                )[k]
            },
{
    let n = operators.len() - 1;
    assert(operators[n] == operators.last());
    assert forall|k: int| 0 <= k < links_of(operators.last()).len() implies {
        let p = Place { operator: operators.len() - 1, link: k };
        is_place(operators, p) && link_at(operators, p) == #[trigger] links_of(
            operators.last(),
        )[k]
    } by {
        let p = Place { operator: operators.len() - 1, link: k };
        assert(is_place(operators, p));
    }
}

proof fn lemma_consumed_on(operators: Seq<Operator>, mode: ModeIndex)
    requires
        operators.len() > 0,
    ensures
        is_consumed(operators, mode) == (is_consumed(operators.drop_last(), mode) || has_source(
            links_of(operators.last()),
            mode,
        )),
{
    lemma_places(operators);
    let earlier = operators.drop_last();
    let links = links_of(operators.last());
    if is_consumed(earlier, mode) {
        let p = choose|p: Place| #[trigger]
            is_place(earlier, p) && link_at(earlier, p).source == mode;
        assert(is_place(operators, p));
    }
    if has_source(links, mode) {
        let k = choose|k: int| 0 <= k < links.len() && (#[trigger] links[k]).source == mode;
        let p = Place { operator: operators.len() - 1, link: k };
        assert(is_place(operators, p));
    }
    if is_consumed(operators, mode) {
        let p = choose|p: Place| #[trigger]
            is_place(operators, p) && link_at(operators, p).source == mode;
        if !is_place(earlier, p) {
            assert(links[p.link].source == mode);
        }
    }
}

/// What is laid out stays so without the last operator.
proof fn lemma_laid_out_earlier(
    operators: Seq<Operator>,
    mode_max: u16,
    depth: spec_fn(int) -> nat,
)
    requires
        operators.len() > 0,
        is_laid_out(operators, mode_max, depth),
    ensures
        is_laid_out(operators.drop_last(), mode_max, depth),
{
    let earlier = operators.drop_last();
    lemma_places(operators);
    assert forall|p: Place| #[trigger] is_place(earlier, p) implies link_at(earlier, p).source
        < mode_max by {
        assert(is_place(operators, p));
    }
    assert(shared_alike(earlier)) by {
        assert forall|p: Place, q: Place| #[trigger]
            is_place(earlier, p) && #[trigger] is_place(earlier, q) && link_at(earlier, p).source
                == link_at(earlier, q).source implies p == q || {
            &&& p.operator != q.operator
            &&& earlier[p.operator] is DualBivariate
            &&& earlier[q.operator] is DualBivariate
            &&& link_at(earlier, p) == link_at(earlier, q)
        } by {
            assert(is_place(operators, p) && is_place(operators, q));
        }
    }
    assert(no_circles(earlier)) by {
        assert forall|n: int| 0 <= n < earlier.len() implies (
        #[trigger] earlier[n] matches Operator::DualBivariate { source_modes, .. } ==> company(
            earlier.take(n),
            source_modes[0] as int,
        ) != company(earlier.take(n), source_modes[1] as int)) by {
            assert(earlier.take(n) =~= operators.take(n));
            assert(earlier[n] == operators[n]);
        }
    }
    assert(modes_go_down(earlier, depth)) by {
        assert forall|x: Exit| #[trigger]
            is_exit(earlier, x) && x.place.link != -1 implies depth(
            link_at(earlier, x.place).source as int,
        ) < depth(exit_mode(earlier, x) as int) by {
            assert(is_place(earlier, x.place));
            assert(is_exit(operators, x));
        }
        assert forall|n: int| 0 <= n < earlier.len() implies (
        #[trigger] earlier[n] matches Operator::DualBivariate { source_modes, .. } ==> depth(
            source_modes[0] as int,
        ) == depth(source_modes[1] as int)) by {
            assert(earlier[n] == operators[n]);
        }
    }
}

/// One more operator whose links are gathered in cell `t`.
proof fn lemma_follows_on(
    operators: Seq<Operator>,
    mode_max: u16,
    plan: PlanView,
    next: PlanView,
    depth: spec_fn(int) -> nat,
    t: int,
)
    requires
        operators.len() > 0,
        is_laid_out(operators, mode_max, depth),
        is_rooted(plan),
        follows(operators.drop_last(), mode_max, plan, depth),
        gathers(plan, next, links_of(operators.last()), t),
        operators.last() is DualBivariate ==> meets_others(node_at(next.cells, t)),
    ensures
        follows(operators, mode_max, next, depth),
{
    let links = links_of(operators.last());
    lemma_tidy_on(plan, next, links, t);
    lemma_names_on(operators, mode_max, plan, next, t);
    lemma_links_on(operators, mode_max, plan, next, t);
    lemma_meetings_on(operators, mode_max, plan, next, t);
    lemma_company_on(operators, mode_max, plan, next, depth, t);
}

proof fn lemma_tidy_on(plan: PlanView, next: PlanView, links: Seq<Link>, t: int)
    requires
        is_rooted(plan),
        is_tidy(plan),
        gathers(plan, next, links, t),
    ensures
        is_tidy(next),
{
    assert forall|m: int| #[trigger] is_named(next, m) implies starts_at(
        node_at(next.cells, home(next, m)).links,
        m,
    ) by {
        if home(next, m) != t {
            assert(is_named(plan, m));
            lemma_home(plan, m);
            assert(next.cells[home(plan, m)] == plan.cells[home(plan, m)]);
        }
    }
    assert forall|c: int| 0 <= c < next.cells.len() && (#[trigger] next.cells[c])
        is Data implies distinct_sources(node_at(next.cells, c).links) by {
        if c != t {
            assert(plan.cells[c] is Data);
        }
    }
}

proof fn lemma_names_on(
    operators: Seq<Operator>,
    mode_max: u16,
    plan: PlanView,
    next: PlanView,
    t: int,
)
    requires
        operators.len() > 0,
        plan.consumers.len() == mode_max,
        names_all(operators.drop_last(), plan),
        gathers(plan, next, links_of(operators.last()), t),
    ensures
        names_all(operators, next),
{
    assert forall|m: int| 0 <= m < next.consumers.len() implies #[trigger] is_named(next, m)
        == is_consumed(operators, m as ModeIndex) by {
        assert(m <= u16::MAX);
        lemma_consumed_on(operators, m as ModeIndex);
        assert(is_named(plan, m) == is_consumed(operators.drop_last(), m as ModeIndex));
    }
}

proof fn lemma_link_of_earlier(operators: Seq<Operator>, link: Link)
    requires
        operators.len() > 0,
        is_link_of(operators.drop_last(), link) || links_of(operators.last()).contains(link),
    ensures
        is_link_of(operators, link),
{
    lemma_places(operators);
    let earlier = operators.drop_last();
    if is_link_of(earlier, link) {
        let p = choose|p: Place| #[trigger] is_place(earlier, p) && link_at(earlier, p) == link;
        assert(is_place(operators, p));
    } else {
        let k = links_of(operators.last()).index_of(link);
        assert(links_of(operators.last())[k] == link);
        let p = Place { operator: operators.len() - 1, link: k };
        assert(is_place(operators, p));
    }
}

proof fn lemma_links_on(
    operators: Seq<Operator>,
    mode_max: u16,
    plan: PlanView,
    next: PlanView,
    t: int,
)
    requires
        operators.len() > 0,
        plan.consumers.len() == mode_max,
        forall|p: Place| #[trigger]
            is_place(operators, p) ==> link_at(operators, p).source < mode_max,
        links_fit(operators.drop_last(), plan),
        gathers(plan, next, links_of(operators.last()), t),
    ensures
        links_fit(operators, next),
{
    let links = links_of(operators.last());
    let old = homes(plan, links);
    lemma_places(operators);
    assert forall|c: int, k: int|
        0 <= c < next.cells.len() && next.cells[c] is Data && 0 <= k < node_at(
            next.cells,
            c,
        ).links.len() implies {
        let link = #[trigger] node_at(next.cells, c).links[k];
        &&& is_link_of(operators, link)
        &&& is_named(next, link.source as int)
        &&& home(next, link.source as int) == c
    } by {
        let link = node_at(next.cells, c).links[k];
        let m = link.source as int;
        if c != t {
            assert(next.cells[c] == plan.cells[c]);
            assert(node_at(plan.cells, c).links[k] == link);
            lemma_link_of_earlier(operators, link);
            assert(is_named(plan, m) && home(plan, m) == c);
            assert(is_named(next, m));
            assert(!starts_at(links, m)) by {
                if starts_at(links, m) {
                    assert(old.contains(c));
                }
            }
        } else if links.contains(link) {
            lemma_link_of_earlier(operators, link);
            let i = links.index_of(link);
            assert(links[i].source == link.source);
            assert(starts_at(links, m));
            let p = Place { operator: operators.len() - 1, link: i };
            assert(is_place(operators, p) && link_at(operators, p) == links[i]);
            assert(is_named(next, m));
        } else {
            assert(was_in(plan, old, link));
            let d = choose|d: int| #[trigger]
                old.contains(d) && 0 <= d < plan.cells.len() && plan.cells[d] is Data && node_at(
                    plan.cells,
                    d,
                ).links.contains(link);
            let i = node_at(plan.cells, d).links.index_of(link);
            assert(node_at(plan.cells, d).links[i] == link);
            lemma_link_of_earlier(operators, link);
            assert(is_named(plan, m) && home(plan, m) == d);
            assert(is_named(next, m));
        }
    }
}

/// Where the last operator is no meeting, nobody consumed its mode before.
proof fn lemma_alone(operators: Seq<Operator>, mode_max: u16, plan: PlanView)
    requires
        operators.len() > 0,
        !(operators.last() is DualBivariate),
        shared_alike(operators),
        plan.consumers.len() == mode_max,
        names_all(operators.drop_last(), plan),
    ensures
        forall|m: int| #[trigger]
            is_named(plan, m) ==> !starts_at(links_of(operators.last()), m),
        forall|c: int| !(#[trigger] homes(plan, links_of(operators.last())).contains(c)),
        forall|m: int| #[trigger]
            is_met(operators, m) ==> !starts_at(links_of(operators.last()), m),
{
    let links = links_of(operators.last());
    let earlier = operators.drop_last();
    lemma_places(operators);
    assert forall|m: int| #[trigger] is_named(plan, m) implies !starts_at(links, m) by {
        if starts_at(links, m) {
            assert(is_consumed(earlier, m as ModeIndex));
            let p = choose|p: Place| #[trigger]
                is_place(earlier, p) && link_at(earlier, p).source == m as ModeIndex;
            let k = choose|k: int|
                0 <= k < links.len() && (#[trigger] links[k]).source == m as ModeIndex;
            let q = Place { operator: operators.len() - 1, link: k };
            assert(is_place(operators, p) && is_place(operators, q));
        }
    }
    assert forall|m: int| #[trigger] is_met(operators, m) implies !starts_at(links, m) by {
        if starts_at(links, m) {
            let p = choose|p: Place| #[trigger]
                is_place(operators, p) && operators[p.operator] is DualBivariate && link_at(
                    operators,
                    p,
                ).source == m;
            let k = choose|k: int|
                0 <= k < links.len() && (#[trigger] links[k]).source == m as ModeIndex;
            let q = Place { operator: operators.len() - 1, link: k };
            assert(is_place(operators, p) && is_place(operators, q));
        }
    }
}

proof fn lemma_meetings_on(
    operators: Seq<Operator>,
    mode_max: u16,
    plan: PlanView,
    next: PlanView,
    t: int,
)
    requires
        operators.len() > 0,
        shared_alike(operators),
        is_rooted(plan),
        plan.consumers.len() == mode_max,
        names_all(operators.drop_last(), plan),
        meetings_fit(operators.drop_last(), plan),
        gathers(plan, next, links_of(operators.last()), t),
        operators.last() is DualBivariate ==> meets_others(node_at(next.cells, t)),
    ensures
        meetings_fit(operators, next),
{
    let links = links_of(operators.last());
    let earlier = operators.drop_last();
    lemma_places(operators);
    if !(operators.last() is DualBivariate) {
        lemma_alone(operators, mode_max, plan);
    }
    assert forall|m: int| #[trigger]
        is_named(next, m) && is_met(operators, m) implies meets_others(
        node_at(next.cells, home(next, m)),
    ) by {
        if home(next, m) != t {
            assert(is_named(plan, m));
            lemma_home(plan, m);
            assert(next.cells[home(plan, m)] == plan.cells[home(plan, m)]);
            let p = choose|p: Place| #[trigger]
                is_place(operators, p) && operators[p.operator] is DualBivariate && link_at(
                    operators,
                    p,
                ).source == m;
            if !is_place(earlier, p) {
                assert(links[p.link].source == m as ModeIndex);
                assert(starts_at(links, m));
            }
            assert(is_met(earlier, m));
        } else if !(operators.last() is DualBivariate) {
            assert(!starts_at(links, m));
            assert(is_named(plan, m));
            lemma_home(plan, m);
        }
    }
}

/// A mode that comes to the cell of a meeting joins the company of its first packet.
proof fn lemma_joins_company(
    operators: Seq<Operator>,
    plan: PlanView,
    next: PlanView,
    depth: spec_fn(int) -> nat,
    t: int,
    m: int,
)
    requires
        operators.len() > 0,
        operators.last() is DualBivariate,
        modes_go_down(operators, depth),
        is_rooted(plan),
        company_fits(operators.drop_last(), plan, depth),
        gathers(plan, next, links_of(operators.last()), t),
        is_named(next, m),
        home(next, m) == t,
    ensures
        ({
            let a = operators.last()->DualBivariate_source_modes[0] as int;
            company(operators, m) == company(operators.drop_last(), a) && depth(m) == depth(a)
        }),
{
    let earlier = operators.drop_last();
    let links = links_of(operators.last());
    let old = homes(plan, links);
    assert(operators[operators.len() - 1] == operators.last());
    if let Operator::DualBivariate { source_modes, sink_modes, .. } = operators.last() {
        lemma_pair_starts(source_modes@, sink_modes@);
        if !starts_at(links, m) {
            assert(is_named(plan, m));
            lemma_home(plan, m);
            assert(old.contains(home(plan, m)));
            let o = choose|o: int| #[trigger]
                is_named(plan, o) && starts_at(links, o) && home(plan, o) == home(plan, m);
            assert(company(earlier, m) == company(earlier, o));
        }
    }
}

proof fn lemma_company_on(
    operators: Seq<Operator>,
    mode_max: u16,
    plan: PlanView,
    next: PlanView,
    depth: spec_fn(int) -> nat,
    t: int,
)
    requires
        operators.len() > 0,
        shared_alike(operators),
        modes_go_down(operators, depth),
        is_rooted(plan),
        plan.consumers.len() == mode_max,
        names_all(operators.drop_last(), plan),
        company_fits(operators.drop_last(), plan, depth),
        gathers(plan, next, links_of(operators.last()), t),
    ensures
        company_fits(operators, next, depth),
{
    let earlier = operators.drop_last();
    let links = links_of(operators.last());
    if !(operators.last() is DualBivariate) {
        lemma_alone(operators, mode_max, plan);
    }
    assert forall|m: int, o: int| #[trigger]
        is_named(next, m) && #[trigger] is_named(next, o) && home(next, m) == home(
            next,
            o,
        ) implies company(operators, m) == company(operators, o) && depth(m) == depth(o) by {
        if home(next, m) != t {
            assert(is_named(plan, m) && is_named(plan, o));
            assert(company(earlier, m) == company(earlier, o));
        } else if operators.last() is DualBivariate {
            lemma_joins_company(operators, plan, next, depth, t, m);
            lemma_joins_company(operators, plan, next, depth, t, o);
        } else {
            if !starts_at(links, m) {
                lemma_home(plan, m);
            }
            if !starts_at(links, o) {
                lemma_home(plan, o);
            }
            assert(links.len() == 1);
            assert(m == links[0].source && o == links[0].source);
        }
    }
}

/// A pair of packets that had not met finds its operator.
proof fn lemma_pair_gathers(
    operators: Seq<Operator>,
    mode_max: u16,
    plan: PlanView,
    depth: spec_fn(int) -> nat,
) -> (t: int)
    requires
        operators.len() > 0,
        operators.last() is DualBivariate,
        is_laid_out(operators, mode_max, depth),
        is_rooted(plan),
        follows(operators.drop_last(), mode_max, plan, depth),
    ensures
        plan.with_operator(operators.last()) is Some,
        gathers(plan, plan.with_operator(operators.last())->0, links_of(operators.last()), t),
        meets_others(node_at((plan.with_operator(operators.last())->0).cells, t)),
{
    let n = operators.len() - 1;
    let earlier = operators.drop_last();
    let links = links_of(operators.last());
    assert(operators[n] == operators.last());
    assert(operators.take(n) =~= earlier);
    lemma_places(operators);
    let a = operators.last()->DualBivariate_source_modes[0] as int;
    let b = operators.last()->DualBivariate_source_modes[1] as int;
    let sinks = operators.last()->DualBivariate_sink_modes;
    let bits = operators.last()->packet_indistinguishability_bits;
    lemma_pair_starts(operators.last()->DualBivariate_source_modes@, sinks@);
    let p = Place { operator: n, link: 0 };
    let q = Place { operator: n, link: 1 };
    assert(links[0].source == a && links[1].source == b);
    assert(is_place(operators, p) && is_place(operators, q));
    assert(p != q);
    assert(a != b);
    assert(a < mode_max && b < mode_max);
    if is_named(plan, a) {
        lemma_home(plan, a);
        lemma_met_before(operators, mode_max, plan, a);
    }
    if is_named(plan, b) {
        lemma_home(plan, b);
        lemma_met_before(operators, mode_max, plan, b);
    }
    let next = plan.with_operator(operators.last())->0;
    if is_named(plan, a) && is_named(plan, b) {
        let t = home(plan, a);
        let from = home(plan, b);
        assert(t != from) by {
            assert(company(earlier, a) != company(earlier, b));
        }
        let joined = plan.with_joined(plan.consumers[a], links)->0;
        assert(hops_of(joined.cells) =~= hops_of(plan.cells));
        assert(node_at(joined.cells, from) == node_at(plan.cells, from));
        lemma_merge_gathers(plan, next, links, a, b);
        t
    } else if is_named(plan, a) {
        lemma_join_gathers(plan, next, links, a, b);
        home(plan, a)
    } else if is_named(plan, b) {
        lemma_join_gathers(plan, next, links, b, a);
        home(plan, b)
    } else {
        let node = node_at(next.cells, plan.cells.len() as int);
        assert(node.links == links);
        assert(distinct_sources(links));
        lemma_new_gathers(plan, next, node);
        plan.cells.len() as int
    }
}

/// Where somebody consumes a packet that meets another, packets meet already.
proof fn lemma_met_before(operators: Seq<Operator>, mode_max: u16, plan: PlanView, m: int)
    requires
        operators.len() > 0,
        operators.last() is DualBivariate,
        shared_alike(operators),
        plan.consumers.len() == mode_max,
        names_all(operators.drop_last(), plan),
        meetings_fit(operators.drop_last(), plan),
        is_named(plan, m),
        starts_at(links_of(operators.last()), m),
    ensures
        meets_others(node_at(plan.cells, home(plan, m))),
{
    let earlier = operators.drop_last();
    let links = links_of(operators.last());
    lemma_places(operators);
    assert(is_consumed(earlier, m as ModeIndex));
    let p = choose|p: Place| #[trigger]
        is_place(earlier, p) && link_at(earlier, p).source == m as ModeIndex;
    let k = choose|k: int|
        0 <= k < links.len() && (#[trigger] links[k]).source == m as ModeIndex;
    let q = Place { operator: operators.len() - 1, link: k };
    assert(is_place(operators, p) && is_place(operators, q));
    assert(earlier[p.operator] is DualBivariate);
    assert(is_met(earlier, m));
}

/// An operator that is neither a source nor a meeting gets its own cell.
proof fn lemma_single_gathers(
    operators: Seq<Operator>,
    mode_max: u16,
    plan: PlanView,
    depth: spec_fn(int) -> nat,
)
    requires
        operators.len() > 0,
        !(operators.last() is DualBivariate),
        !(operators.last() is EPPS),
        is_laid_out(operators, mode_max, depth),
        is_rooted(plan),
        follows(operators.drop_last(), mode_max, plan, depth),
    ensures
        plan.with_operator(operators.last()) is Some,
        gathers(
            plan,
            plan.with_operator(operators.last())->0,
            links_of(operators.last()),
            plan.cells.len() as int,
        ),
{
    let links = links_of(operators.last());
    lemma_places(operators);
    lemma_alone(operators, mode_max, plan);
    let p = Place { operator: operators.len() - 1, link: 0 };
    assert(links.len() == 1);
    assert(link_at(operators, p) == links[0]);
    assert(is_place(operators, p));
    assert(links[0].source < mode_max);
    let next = plan.with_operator(operators.last())->0;
    let node = node_at(next.cells, plan.cells.len() as int);
    assert(node.links =~= links);
    assert forall|m: int| #[trigger] starts_at(node.links, m) <==> m == links[0].source by {
        if m == links[0].source {
            assert(node.links[0].source == m as ModeIndex);
        }
    }
    lemma_new_gathers(plan, next, node);
}

/// A source adds no link.
proof fn lemma_follows_source(
    operators: Seq<Operator>,
    mode_max: u16,
    plan: PlanView,
    next: PlanView,
    depth: spec_fn(int) -> nat,
)
    requires
        operators.len() > 0,
        operators.last() is EPPS,
        follows(operators.drop_last(), mode_max, plan, depth),
        next.cells == plan.cells,
        next.consumers == plan.consumers,
    ensures
        follows(operators, mode_max, next, depth),
{
    let earlier = operators.drop_last();
    lemma_places(operators);
    assert(forall|m: int| is_named(next, m) == is_named(plan, m));
    assert(forall|m: int| home(next, m) == home(plan, m));
    assert(names_all(operators, next)) by {
        assert forall|m: int| 0 <= m < next.consumers.len() implies #[trigger] is_named(next, m)
            == is_consumed(operators, m as ModeIndex) by {
            lemma_consumed_on(operators, m as ModeIndex);
            assert(is_named(plan, m) == is_consumed(earlier, m as ModeIndex));
        }
    }
    assert(links_fit(operators, next)) by {
        assert forall|c: int, k: int|
            0 <= c < next.cells.len() && next.cells[c] is Data && 0 <= k < node_at(
                next.cells,
                c,
            ).links.len() implies {
            let link = #[trigger] node_at(next.cells, c).links[k];
            &&& is_link_of(operators, link)
            &&& is_named(next, link.source as int)
            &&& home(next, link.source as int) == c
        } by {
            lemma_link_of_earlier(operators, node_at(plan.cells, c).links[k]);
            assert(is_named(plan, node_at(plan.cells, c).links[k].source as int));
        }
    }
    assert(meetings_fit(operators, next)) by {
        assert forall|m: int| #[trigger]
            is_named(next, m) && is_met(operators, m) implies meets_others(
            node_at(next.cells, home(next, m)),
        ) by {
            let p = choose|p: Place| #[trigger]
                is_place(operators, p) && operators[p.operator] is DualBivariate && link_at(
                    operators,
                    p,
                ).source == m;
            assert(is_place(earlier, p));
            assert(is_met(earlier, m));
            assert(is_named(plan, m));
        }
    }
    assert(company_fits(operators, next, depth)) by {
        assert forall|m: int, o: int| #[trigger]
            is_named(next, m) && #[trigger] is_named(next, o) && home(next, m) == home(
                next,
                o,
            ) implies company(operators, m) == company(operators, o) && depth(m) == depth(o) by {
            assert(is_named(plan, m) && is_named(plan, o));
        }
    }
    assert(is_tidy(next)) by {
        assert forall|m: int| #[trigger] is_named(next, m) implies starts_at(
            node_at(next.cells, home(next, m)).links,
            m,
        ) by {
            assert(is_named(plan, m));
        }
    }
}

/// Operators that are laid out have a plan.
proof fn lemma_has_plan(operators: Seq<Operator>, mode_max: u16, depth: spec_fn(int) -> nat)
    requires
        is_laid_out(operators, mode_max, depth),
    ensures
        plan_of_operators(operators, mode_max) is Some,
        follows(operators, mode_max, plan_of_operators(operators, mode_max)->0, depth),
    decreases operators.len(),
{
    if operators.len() == 0 {
        lemma_empty_follows(operators, mode_max, depth);
    } else {
        let earlier = operators.drop_last();
        lemma_laid_out_earlier(operators, mode_max, depth);
        lemma_has_plan(earlier, mode_max, depth);
        lemma_plan_is_rooted(earlier, mode_max);
        let plan = plan_of_operators(earlier, mode_max)->0;
        assert(is_rooted(plan));
        let next = plan.with_operator(operators.last())->0;
        if operators.last() is EPPS {
            lemma_follows_source(operators, mode_max, plan, next, depth);
        } else if operators.last() is DualBivariate {
            let t = lemma_pair_gathers(operators, mode_max, plan, depth);
            lemma_follows_on(operators, mode_max, plan, next, depth, t);
        } else {
            lemma_single_gathers(operators, mode_max, plan, depth);
            lemma_follows_on(
                operators,
                mode_max,
                plan,
                next,
                depth,
                plan.cells.len() as int,
            );
        }
    }
}

proof fn lemma_empty_follows(operators: Seq<Operator>, mode_max: u16, depth: spec_fn(int) -> nat)
    requires
        operators.len() == 0,
    ensures
        follows(operators, mode_max, PlanView::empty(mode_max), depth),
{
    let plan = PlanView::empty(mode_max);
    assert(forall|m: int| !is_named(plan, m));
    assert(forall|p: Place| !is_place(operators, p));
}

/// What the sources emit into: all of it, and each mode once.
spec fn emissions_fit(operators: Seq<Operator>, plan: PlanView) -> bool {
    &&& forall|i: int|
        0 <= i < plan.emitted.len() ==> is_emitted(operators, (#[trigger] plan.emitted[i]).0)
    &&& forall|x: Exit| #[trigger]
        is_exit(operators, x) && x.place.link == -1 ==> emits_into(plan, exit_mode(operators, x))
    &&& forall|i: int, k: int|
        0 <= i < plan.emitted.len() && 0 <= k < plan.emitted.len() && (#[trigger] plan.emitted[i]).0
            == (#[trigger] plan.emitted[k]).0 ==> i == k
}

/// A source emits into the mode.
spec fn is_emitted(operators: Seq<Operator>, mode: ModeIndex) -> bool {
    exists|x: Exit| #[trigger]
        is_exit(operators, x) && x.place.link == -1 && exit_mode(operators, x) == mode
}

spec fn emits_into(plan: PlanView, mode: ModeIndex) -> bool {
    exists|i: int| 0 <= i < plan.emitted.len() && (#[trigger] plan.emitted[i]).0 == mode
}

proof fn lemma_exits(operators: Seq<Operator>)
    requires
        operators.len() > 0,
    ensures
        forall|x: Exit| #[trigger]
            is_exit(operators.drop_last(), x) ==> is_exit(operators, x) && exit_mode(operators, x)
                == exit_mode(operators.drop_last(), x) && x.place.operator < operators.len() - 1,
        forall|x: Exit| #[trigger]
            is_exit(operators, x) && x.place.operator < operators.len() - 1 ==> is_exit(
                operators.drop_last(),
                x,
            ),
{
    lemma_places(operators);
    let earlier = operators.drop_last();
    assert forall|x: Exit| #[trigger] is_exit(earlier, x) implies is_exit(operators, x)
        && exit_mode(operators, x) == exit_mode(earlier, x) && x.place.operator < operators.len()
        - 1 by {
        assert(operators[x.place.operator] == earlier[x.place.operator]);
    }
    assert forall|x: Exit| #[trigger]
        is_exit(operators, x) && x.place.operator < operators.len() - 1 implies is_exit(
        earlier,
        x,
    ) by {
        assert(operators[x.place.operator] == earlier[x.place.operator]);
    }
}

proof fn lemma_emissions(operators: Seq<Operator>, mode_max: u16)
    requires
        plan_of_operators(operators, mode_max) is Some,
        produced_once(operators),
    ensures
        emissions_fit(operators, plan_of_operators(operators, mode_max)->0),
    decreases operators.len(),
{
    let next = plan_of_operators(operators, mode_max)->0;
    if operators.len() > 0 {
        let n = operators.len() - 1;
        let earlier = operators.drop_last();
        lemma_exits(operators);
        lemma_places(operators);
        assert(operators[n] == operators.last());
        assert(produced_once(earlier)) by {
            assert forall|x: Exit, y: Exit| #[trigger]
                is_exit(earlier, x) && #[trigger] is_exit(earlier, y) && exit_mode(earlier, x)
                    == exit_mode(earlier, y) implies x == y || {
                &&& x.place.link != -1
                &&& y.place.link != -1
                &&& x.exit == y.exit
                &&& link_at(earlier, x.place).source == link_at(earlier, y.place).source
            } by {
                assert(is_exit(operators, x) && is_exit(operators, y));
                if x.place.link != -1 && y.place.link != -1 {
                    assert(is_place(earlier, x.place) && is_place(earlier, y.place));
                }
            }
        }
        lemma_emissions(earlier, mode_max);
        let plan = plan_of_operators(earlier, mode_max)->0;
        assert forall|mode: ModeIndex| #[trigger] is_emitted(earlier, mode) implies is_emitted(
            operators,
            mode,
        ) by {
            let x = choose|x: Exit| #[trigger]
                is_exit(earlier, x) && x.place.link == -1 && exit_mode(earlier, x) == mode;
            assert(is_exit(operators, x));
        }
        if let Operator::EPPS { sink_modes, .. } = operators.last() {
            assert(sink_modes@ =~= seq![sink_modes[0], sink_modes[1]]);
            lemma_emitted_on(operators, plan, next, sink_modes[0], sink_modes[1]);
        } else {
            assert(next.emitted == plan.emitted);
            assert forall|i: int| 0 <= i < next.emitted.len() implies is_emitted(
                operators,
                (#[trigger] next.emitted[i]).0,
            ) by {
                assert(is_emitted(earlier, plan.emitted[i].0));
            }
            assert forall|x: Exit| #[trigger]
                is_exit(operators, x) && x.place.link == -1 implies emits_into(
                next,
                exit_mode(operators, x),
            ) by {
                assert(is_exit(earlier, x));
                assert(emits_into(plan, exit_mode(earlier, x)));
            }
        }
    }
}

proof fn lemma_emitted_on(
    operators: Seq<Operator>,
    plan: PlanView,
    next: PlanView,
    first: ModeIndex,
    second: ModeIndex,
)
    requires
        operators.len() > 0,
        operators.last() is EPPS,
        emitted_by(operators.last()) == seq![first, second],
        produced_once(operators),
        emissions_fit(operators.drop_last(), plan),
        next.emitted.len() == plan.emitted.len() + 2,
        forall|i: int| 0 <= i < plan.emitted.len() ==> next.emitted[i] == plan.emitted[i],
        next.emitted[plan.emitted.len() as int].0 == first,
        next.emitted[plan.emitted.len() as int + 1].0 == second,
    ensures
        emissions_fit(operators, next),
{
    let n = operators.len() - 1;
    let earlier = operators.drop_last();
    let old = plan.emitted.len() as int;
    lemma_exits(operators);
    assert(operators[n] == operators.last());
    let x0 = Exit { place: Place { operator: n, link: -1 }, exit: 0 };
    let x1 = Exit { place: Place { operator: n, link: -1 }, exit: 1 };
    assert(is_exit(operators, x0) && exit_mode(operators, x0) == first);
    assert(is_exit(operators, x1) && exit_mode(operators, x1) == second);
    assert(first != second) by {
        assert(x0.exit != x1.exit);
    }
    assert forall|i: int| 0 <= i < old implies is_emitted(operators, plan.emitted[i].0)
        && plan.emitted[i].0 != first && (#[trigger] plan.emitted[i]).0 != second by {
        let x = choose|x: Exit| #[trigger]
            is_exit(earlier, x) && x.place.link == -1 && exit_mode(earlier, x)
                == plan.emitted[i].0;
        assert(is_exit(operators, x));
    }
    assert forall|i: int| 0 <= i < next.emitted.len() implies is_emitted(
        operators,
        (#[trigger] next.emitted[i]).0,
    ) by {
        if i < old {
            assert(next.emitted[i] == plan.emitted[i]);
        }
    }
    assert forall|x: Exit| #[trigger] is_exit(operators, x) && x.place.link == -1 implies emits_into(
        next,
        exit_mode(operators, x),
    ) by {
        if x.place.operator < n {
            assert(is_exit(earlier, x));
            let mode = exit_mode(earlier, x);
            assert(emits_into(plan, mode));
            let i = choose|i: int| 0 <= i < old && (#[trigger] plan.emitted[i]).0 == mode;
            assert(next.emitted[i].0 == mode);
        } else if x.exit == 0 {
            assert(next.emitted[old].0 == first);
        } else {
            assert(next.emitted[old + 1].0 == second);
        }
    }
    assert forall|i: int, k: int|
        0 <= i < next.emitted.len() && 0 <= k < next.emitted.len() && (#[trigger] next.emitted[i]).0
            == (#[trigger] next.emitted[k]).0 implies i == k by {
        if i < old {
            assert(next.emitted[i] == plan.emitted[i]);
        }
        if k < old {
            assert(next.emitted[k] == plan.emitted[k]);
        }
    }
}

/// What is known of the plan of an island that is wired up.
spec fn is_wired_plan(island: IslandView, plan: PlanView, depth: spec_fn(int) -> nat) -> bool {
    &&& is_wired(island, depth)
    &&& is_rooted(plan)
    &&& follows(island.operators, island.mode_max, plan, depth)
    &&& emissions_fit(island.operators, plan)
}

/// An exit of the operators for an entry of the plan.
proof fn lemma_exit_of(
    island: IslandView,
    plan: PlanView,
    depth: spec_fn(int) -> nat,
    e: Entry,
) -> (x: Exit)
    requires
        is_wired_plan(island, plan, depth),
        is_entry(plan, e),
    ensures
        is_exit(island.operators, x),
        exit_mode(island.operators, x) == entry_mode(plan, e),
        (x.place.link == -1) == (e.cell == -1),
        e.cell != -1 ==> x.exit == e.sink && link_at(island.operators, x.place) == node_at(
            plan.cells,
            e.cell,
        ).links[e.link],
{
    let operators = island.operators;
    if e.cell == -1 {
        assert(is_emitted(operators, plan.emitted[e.link].0));
        choose|x: Exit| #[trigger]
            is_exit(operators, x) && x.place.link == -1 && exit_mode(operators, x)
                == plan.emitted[e.link].0
    } else {
        let link = node_at(plan.cells, e.cell).links[e.link];
        assert(is_link_of(operators, link));
        let p = choose|p: Place| #[trigger] is_place(operators, p) && link_at(operators, p) == link;
        let x = Exit { place: p, exit: e.sink };
        assert(is_exit(operators, x));
        x
    }
}

/// An entry of the plan for an exit of the operators.
proof fn lemma_entry_of(
    island: IslandView,
    plan: PlanView,
    depth: spec_fn(int) -> nat,
    x: Exit,
) -> (e: Entry)
    requires
        is_wired_plan(island, plan, depth),
        is_exit(island.operators, x),
    ensures
        is_entry(plan, e),
        entry_mode(plan, e) == exit_mode(island.operators, x),
{
    let operators = island.operators;
    if x.place.link == -1 {
        let mode = exit_mode(operators, x);
        assert(emits_into(plan, mode));
        let i = choose|i: int| 0 <= i < plan.emitted.len() && (#[trigger] plan.emitted[i]).0
            == mode;
        let e = Entry { cell: -1, link: i, sink: 0 };
        assert(is_entry(plan, e));
        e
    } else {
        let link = link_at(operators, x.place);
        let m = link.source as int;
        assert(is_place(operators, x.place));
        assert(is_consumed(operators, link.source));
        assert(is_named(plan, m));
        lemma_home(plan, m);
        let c = home(plan, m);
        let links = node_at(plan.cells, c).links;
        assert(starts_at(links, m));
        let k = choose|k: int| 0 <= k < links.len() && (#[trigger] links[k]).source == m;
        assert(node_at(plan.cells, c).links[k].source == m);
        assert(is_link_of(operators, links[k]));
        let p = choose|p: Place| #[trigger]
            is_place(operators, p) && link_at(operators, p) == links[k];
        assert(links[k] == link);
        let e = Entry { cell: c, link: k, sink: x.exit };
        assert(is_entry(plan, e));
        e
    }
}

proof fn lemma_wired_circuit(island: IslandView, plan: PlanView, depth: spec_fn(int) -> nat)
    requires
        is_wired_plan(island, plan, depth),
    ensures
        is_circuit(plan),
{
    let operators = island.operators;
    assert forall|e: Entry| #[trigger] is_entry(plan, e) implies is_claimed(
        plan,
        entry_mode(plan, e),
    ) by {
        let x = lemma_exit_of(island, plan, depth, e);
        let mode = entry_mode(plan, e);
        assert(is_consumed(operators, mode));
        let p = choose|p: Place| #[trigger]
            is_place(operators, p) && link_at(operators, p).source == mode;
        assert(mode < island.mode_max);
        assert(is_named(plan, mode as int));
        lemma_home(plan, mode as int);
    }
    assert forall|e: Entry, f: Entry| #[trigger]
        is_entry(plan, e) && #[trigger] is_entry(plan, f) && entry_mode(plan, e) == entry_mode(
            plan,
            f,
        ) implies e == f by {
        let x = lemma_exit_of(island, plan, depth, e);
        let y = lemma_exit_of(island, plan, depth, f);
        if e.cell != -1 || f.cell != -1 {
            let links = node_at(plan.cells, e.cell).links;
            assert(e.cell != -1 && f.cell != -1);
            assert(node_at(plan.cells, e.cell).links[e.link].source == node_at(
                plan.cells,
                f.cell,
            ).links[f.link].source);
            assert(e.cell == f.cell);
            assert(distinct_sources(links));
            assert(e.link == f.link);
        } else {
            assert(plan.emitted[e.link].0 == plan.emitted[f.link].0);
        }
    }
}

proof fn lemma_wired_complete(island: IslandView, plan: PlanView, depth: spec_fn(int) -> nat)
    requires
        is_wired_plan(island, plan, depth),
    ensures
        is_complete(plan),
{
    let operators = island.operators;
    assert forall|c: int| 0 <= c < plan.cells.len() && (#[trigger] plan.cells[c]) is Data implies {
        let links = node_at(plan.cells, c).links;
        forall|k: int|
            0 <= k < links.len() ==> consumed_by(plan, (#[trigger] links[k]).source, c) && is_fed(
                plan,
                links[k].source,
            )
    } by {
        let links = node_at(plan.cells, c).links;
        assert forall|k: int| 0 <= k < links.len() implies consumed_by(
            plan,
            (#[trigger] links[k]).source,
            c,
        ) && is_fed(plan, links[k].source) by {
            let link = node_at(plan.cells, c).links[k];
            assert(is_named(plan, link.source as int));
            lemma_home(plan, link.source as int);
            let p = choose|p: Place| #[trigger]
                is_place(operators, p) && link_at(operators, p) == link;
            assert(is_produced(operators, link.source));
            let x = choose|x: Exit| #[trigger]
                is_exit(operators, x) && exit_mode(operators, x) == link.source;
            let e = lemma_entry_of(island, plan, depth, x);
            assert(is_entry(plan, e) && entry_mode(plan, e) == link.source);
        }
    }
    assert(goes_down(plan, depth)) by {
        assert forall|c: int, k: int, l: int, j: int|
            #![trigger node_at(plan.cells, c).links[k], node_at(plan.cells, c).links[l].sinks[j]]
            0 <= c < plan.cells.len() && plan.cells[c] is Data && 0 <= k < node_at(
                plan.cells,
                c,
            ).links.len() && 0 <= l < node_at(plan.cells, c).links.len() && 0 <= j < node_at(
                plan.cells,
                c,
            ).links[l].sinks.len() implies depth(node_at(plan.cells, c).links[k].source as int)
            < depth(node_at(plan.cells, c).links[l].sinks[j] as int) by {
            let e = Entry { cell: c, link: l, sink: j };
            assert(is_entry(plan, e));
            let x = lemma_exit_of(island, plan, depth, e);
            let one = node_at(plan.cells, c).links[k].source as int;
            let other = node_at(plan.cells, c).links[l].source as int;
            assert(is_named(plan, one) && is_named(plan, other));
            assert(depth(one) == depth(other));
        }
    }
}

proof fn lemma_is_wired_plan(island: IslandView, depth: spec_fn(int) -> nat)
    requires
        is_wired(island, depth),
    ensures
        plan_of(island) is Some,
        is_wired_plan(island, plan_of(island)->0, depth),
{
    lemma_has_plan(island.operators, island.mode_max, depth);
    lemma_plan_is_rooted(island.operators, island.mode_max);
    lemma_emissions(island.operators, island.mode_max);
}

/// Every link of an operator is in the plan of a wired island.
pub proof fn lemma_link_is_planned(
    island: IslandView,
    depth: spec_fn(int) -> nat,
    p: Place,
) -> (at: (int, int))
    requires
        is_wired(island, depth),
        is_place(island.operators, p),
    ensures
        plan_of(island) is Some,
        ({
            let plan = plan_of(island)->0;
            &&& 0 <= at.0 < plan.cells.len()
            &&& plan.cells[at.0] is Data
            &&& 0 <= at.1 < node_at(plan.cells, at.0).links.len()
            &&& node_at(plan.cells, at.0).links[at.1] == link_at(island.operators, p)
            &&& consumed_by(plan, link_at(island.operators, p).source, at.0)
            &&& island.operators[p.operator] is DualBivariate ==> meets_others(
                node_at(plan.cells, at.0),
            )
        }),
{
    lemma_is_wired_plan(island, depth);
    let plan = plan_of(island)->0;
    let operators = island.operators;
    let link = link_at(operators, p);
    let m = link.source as int;
    assert(is_consumed(operators, link.source));
    assert(is_named(plan, m));
    lemma_home(plan, m);
    let c = home(plan, m);
    let links = node_at(plan.cells, c).links;
    assert(starts_at(links, m));
    let k = choose|k: int| 0 <= k < links.len() && (#[trigger] links[k]).source == m;
    assert(node_at(plan.cells, c).links[k].source == m);
    assert(is_link_of(operators, links[k]));
    let q = choose|q: Place| #[trigger] is_place(operators, q) && link_at(operators, q) == links[k];
    assert(links[k] == link);
    if operators[p.operator] is DualBivariate {
        assert(is_met(operators, m));
    }
    (c, k)
}

/// Every link in the plan of a wired island is that of an operator.
pub proof fn lemma_planned_link(
    island: IslandView,
    depth: spec_fn(int) -> nat,
    c: int,
    k: int,
) -> (p: Place)
    requires
        is_wired(island, depth),
        plan_of(island) is Some,
        0 <= c < (plan_of(island)->0).cells.len(),
        (plan_of(island)->0).cells[c] is Data,
        0 <= k < node_at((plan_of(island)->0).cells, c).links.len(),
    ensures
        is_place(island.operators, p),
        link_at(island.operators, p) == node_at((plan_of(island)->0).cells, c).links[k],
{
    lemma_is_wired_plan(island, depth);
    let link = node_at((plan_of(island)->0).cells, c).links[k];
    assert(is_link_of(island.operators, link));
    choose|p: Place| #[trigger]
        is_place(island.operators, p) && link_at(island.operators, p) == link
}

/// What a source emits into is in the plan of a wired island.
pub proof fn lemma_emission_is_planned(
    island: IslandView,
    depth: spec_fn(int) -> nat,
    x: Exit,
) -> (i: int)
    requires
        is_wired(island, depth),
        is_exit(island.operators, x),
        x.place.link == -1,
    ensures
        plan_of(island) is Some,
        0 <= i < (plan_of(island)->0).emitted.len(),
        (plan_of(island)->0).emitted[i].0 == exit_mode(island.operators, x),
{
    lemma_is_wired_plan(island, depth);
    let plan = plan_of(island)->0;
    let mode = exit_mode(island.operators, x);
    assert(emits_into(plan, mode));
    choose|i: int| 0 <= i < plan.emitted.len() && (#[trigger] plan.emitted[i]).0 == mode
}

/// Islands that are wired up have an outcome: their operators make a plan, which is a complete
/// circuit, and every course through it comes to an end.
pub proof fn wired_islands_have_an_outcome(island: IslandView, depth: spec_fn(int) -> nat)
    requires
        is_wired(island, depth),
    ensures
        plan_of(island) is Some,
        is_circuit(plan_of(island)->0),
        is_complete(plan_of(island)->0),
        comes_to_an_end(plan_of(island)->0),
{
    lemma_is_wired_plan(island, depth);
    let plan = plan_of(island)->0;
    lemma_wired_circuit(island, plan, depth);
    lemma_wired_complete(island, plan, depth);
    complete_circuits_come_to_an_end(plan);
}

} // verus!
