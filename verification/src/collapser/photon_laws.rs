//! What becomes of the photons.

use vstd::prelude::*;

use crate::collapser::circuit::{
    all_arrived, at_detector, at_mode, consumed_by, consumer_kind, detected, drawn_meeting,
    drawn_split, entry_mode, is_circuit, is_claimed, is_entry, is_settled_outcome, passes, records,
    settled, sinks_empty, Chance, Entry, Photons,
};
use crate::collapser::monotonic_map::hops_of;
use crate::collapser::course::is_outcome;
use crate::collapser::outcome_laws::{
    every_operator_is_reached, is_complete, lemma_plan_is_rooted, named_operators_are_there,
};
use crate::collapser::settling::{circuits_settle, fits_kind, holds_nothing, well_shaped};
use crate::collapser::photon::{
    has_source, joined_node, meets_others, pair_links, with_link, with_links, Link, Node, NodeKind,
    Photon,
};
use crate::collapser::plan::{node_at, plan_of, plan_of_operators, PlanView, UNCLAIMED};
use crate::concurrency::cell::WpResult;
use crate::concurrency::operator::{IslandView, Operator};
use crate::types::ModeIndex;

verus! {

/// The number of photons in a mode.
pub open spec fn photon_number(photons: Photons, mode: int) -> nat {
    if photons[mode] == Some(Photon::Single) {
        1
    } else {
        0
    }
}

/// The number of photons in the modes, one by one.
pub open spec fn photons_at(photons: Photons, modes: Seq<int>) -> nat
    decreases modes.len(),
{
    if modes.len() == 0 {
        0
    } else {
        photons_at(photons, modes.drop_last()) + photon_number(photons, modes.last())
    }
}

/// The modes that the first `n` links start from.
pub open spec fn sources_of(links: Seq<Link>, n: nat) -> Seq<int>
    decreases n,
{
    if n == 0 {
        seq![]
    } else {
        sources_of(links, (n - 1) as nat).push(links[n - 1].source as int)
    }
}

pub open spec fn as_ints(modes: Seq<ModeIndex>) -> Seq<int> {
    modes.map_values(|mode: ModeIndex| mode as int)
}

/// The modes that the first `n` links lead to.
pub open spec fn sinks_of(links: Seq<Link>, n: nat) -> Seq<int>
    decreases n,
{
    if n == 0 {
        seq![]
    } else {
        sinks_of(links, (n - 1) as nat) + as_ints(links[n - 1].sinks)
    }
}

/// Photons end at the operator.
pub open spec fn is_end(node: Node) -> bool {
    node.kind is Detect || node.kind is Dump
}

proof fn lemma_photons_at_sum(photons: Photons, a: Seq<int>, b: Seq<int>)
    ensures
        photons_at(photons, a + b) == photons_at(photons, a) + photons_at(photons, b),
    decreases b.len(),
{
    if b.len() == 0 {
        assert(a + b =~= a);
    } else {
        assert((a + b).drop_last() =~= a + b.drop_last());
        lemma_photons_at_sum(photons, a, b.drop_last());
    }
}

/// The photons on the links of an operator are all there.
spec fn filled(photons: Photons, links: Seq<Link>) -> bool {
    forall|k: int|
        0 <= k < links.len() ==> photons[(#[trigger] links[k]).source as int] is Some && forall|
            j: int,
        |
            0 <= j < links[k].sinks.len() ==> photons[(#[trigger] links[k].sinks[j]) as int] is Some
}

proof fn lemma_two_sinks(photons: Photons, link: Link)
    requires
        link.sinks.len() == 2,
    ensures
        photons_at(photons, as_ints(link.sinks)) == photon_number(photons, link.sinks[0] as int)
            + photon_number(photons, link.sinks[1] as int),
{
    let modes = as_ints(link.sinks);
    assert(modes.drop_last().drop_last() =~= seq![]);
    reveal_with_fuel(photons_at, 3);
}

proof fn lemma_split_keeps(chance: Chance, node: Node, photons: Photons, n: nat)
    requires
        passes(chance, node, photons),
        fits_kind(node),
        filled(photons, node.links),
        node.kind is Split || node.kind is Multi,
        n <= node.links.len(),
    ensures
        photons_at(photons, sinks_of(node.links, n)) == photons_at(
            photons,
            sources_of(node.links, n),
        ),
    decreases n,
{
    if n > 0 {
        let m = (n - 1) as nat;
        lemma_split_keeps(chance, node, photons, m);
        let link = node.links[n - 1];
        assert(drawn_split(
            chance,
            at_mode(photons, link.source),
            at_mode(photons, link.sinks[0]),
            at_mode(photons, link.sinks[1]),
        ));
        lemma_two_sinks(photons, link);
        lemma_photons_at_sum(photons, sinks_of(node.links, m), as_ints(link.sinks));
        assert(sources_of(node.links, n).drop_last() =~= sources_of(node.links, m));
        assert(photons[link.sinks[0] as int] is Some && photons[link.sinks[1] as int] is Some);
    }
}

/// An operator where photons do not end neither makes nor loses any, however many come to it
/// and however the draws fall.
pub proof fn no_photon_is_made_or_lost(chance: Chance, node: Node, photons: Photons)
    requires
        passes(chance, node, photons),
        fits_kind(node),
        !is_end(node),
        forall|k: int|
            0 <= k < node.links.len() ==> photons[(#[trigger] node.links[k]).source as int] is Some
                && forall|j: int|
                0 <= j < node.links[k].sinks.len() ==> photons[(
                #[trigger] node.links[k].sinks[j]) as int] is Some,
    ensures
        photons_at(photons, sinks_of(node.links, node.links.len())) == photons_at(
            photons,
            sources_of(node.links, node.links.len()),
        ),
{
    assert(filled(photons, node.links));
    let links = node.links;
    match node.kind {
        NodeKind::Interfere(bits) => {
            let exits = seq![
                at_mode(photons, links[0].sinks[0]),
                at_mode(photons, links[0].sinks[1]),
                at_mode(photons, links[1].sinks[0]),
                at_mode(photons, links[1].sinks[1]),
            ];
            assert(drawn_meeting(
                chance,
                bits,
                at_mode(photons, links[0].source),
                at_mode(photons, links[1].source),
                exits,
            ));
            assert(exits[0] == at_mode(photons, links[0].sinks[0]));
            assert(exits[1] == at_mode(photons, links[0].sinks[1]));
            assert(exits[2] == at_mode(photons, links[1].sinks[0]));
            assert(exits[3] == at_mode(photons, links[1].sinks[1]));
            lemma_two_sinks(photons, links[0]);
            lemma_two_sinks(photons, links[1]);
            reveal_with_fuel(sinks_of, 3);
            reveal_with_fuel(sources_of, 3);
            reveal_with_fuel(photons_at, 3);
            let none = Seq::<int>::empty();
            assert(sinks_of(links, 2) =~= none + as_ints(links[0].sinks) + as_ints(
                links[1].sinks,
            ));
            lemma_photons_at_sum(photons, none, as_ints(links[0].sinks));
            lemma_photons_at_sum(
                photons,
                none + as_ints(links[0].sinks),
                as_ints(links[1].sinks),
            );
            let sources = sources_of(links, 2);
            assert(sources.drop_last() =~= seq![links[0].source as int]);
            assert(sources.drop_last().drop_last() =~= none);
            assert(photons[links[0].source as int] is Some);
            assert(photons[links[1].source as int] is Some);
            assert(photons[links[0].sinks[0] as int] is Some);
            assert(photons[links[0].sinks[1] as int] is Some);
            assert(photons[links[1].sinks[0] as int] is Some);
            assert(photons[links[1].sinks[1] as int] is Some);
        },
        NodeKind::Relay => {
            reveal_with_fuel(sinks_of, 2);
            reveal_with_fuel(sources_of, 2);
            reveal_with_fuel(photons_at, 2);
            assert(photons[links[0].source as int] is Some);
            assert(photons[links[0].sinks[0] as int] is Some);
            assert(sinks_of(links, 1) =~= seq![links[0].sinks[0] as int]);
            assert(sources_of(links, 1) =~= seq![links[0].source as int]);
        },
        _ => {
            lemma_split_keeps(chance, node, photons, links.len());
        },
    }
}

/// The modes that hold a photon.
spec fn lit(photons: Photons) -> Set<int> {
    Set::new(|m: int| 0 <= m < photons.len() && photons[m] == Some(Photon::Single))
}

proof fn lemma_lit_is_finite(photons: Photons)
    ensures
        lit(photons).finite(),
{
    vstd::set_lib::lemma_int_range(0, photons.len() as int);
    vstd::set_lib::lemma_len_subset(
        lit(photons),
        vstd::set_lib::set_int_range(0, photons.len() as int),
    );
}

/// Those of the modes that are in the list.
spec fn among(modes: Set<int>, list: Seq<int>) -> Set<int> {
    modes.filter(|m: int| list.contains(m))
}

/// Counting over a list without repetition is counting the modes in it.
proof fn lemma_count(photons: Photons, list: Seq<int>)
    requires
        list.no_duplicates(),
        forall|i: int| 0 <= i < list.len() ==> 0 <= #[trigger] list[i] < photons.len(),
    ensures
        among(lit(photons), list).finite(),
        among(lit(photons), list).len() == photons_at(photons, list),
    decreases list.len(),
{
    lemma_lit_is_finite(photons);
    if list.len() == 0 {
        assert(among(lit(photons), list) =~= Set::<int>::empty());
    } else {
        let rest = list.drop_last();
        let last = list.last();
        assert(forall|i: int| 0 <= i < rest.len() ==> rest[i] == list[i]);
        lemma_count(photons, rest);
        assert(0 <= list[list.len() - 1] < photons.len());
        assert(!rest.contains(last));
        assert forall|m: int| list.contains(m) <==> rest.contains(m) || m == last by {
            if list.contains(m) && m != last {
                assert(rest[list.index_of(m)] == m);
            }
            if rest.contains(m) {
                assert(list[rest.index_of(m)] == m);
            }
            assert(list[list.len() - 1] == last);
        }
        if photons[last] == Some(Photon::Single) {
            assert(among(lit(photons), list) =~= among(lit(photons), rest).insert(last));
        } else {
            assert(among(lit(photons), list) =~= among(lit(photons), rest));
        }
    }
}

/// The sizes of the first `n` parts of a set, added up.
spec fn parts(modes: Set<int>, part: spec_fn(int) -> int, n: nat) -> nat
    decreases n,
{
    if n == 0 {
        0
    } else {
        parts(modes, part, (n - 1) as nat) + modes.filter(|m: int| part(m) == n - 1).len()
    }
}

proof fn lemma_parts(modes: Set<int>, part: spec_fn(int) -> int, n: nat)
    requires
        modes.finite(),
    ensures
        parts(modes, part, n) == modes.filter(|m: int| 0 <= part(m) < n).len(),
    decreases n,
{
    let all = modes.filter(|m: int| 0 <= part(m) < n);
    if n == 0 {
        assert(all =~= Set::<int>::empty());
    } else {
        lemma_parts(modes, part, (n - 1) as nat);
        let fewer = modes.filter(|m: int| 0 <= part(m) < n - 1);
        let last = modes.filter(|m: int| part(m) == n - 1);
        vstd::set_lib::lemma_len_subset(fewer, modes);
        vstd::set_lib::lemma_len_subset(last, modes);
        assert(fewer.disjoint(last));
        vstd::set_lib::lemma_set_disjoint_lens(fewer, last);
        assert(all =~= fewer + last);
    }
}

/// Where the photons of the mode came from: the cell of an operator, or -1.
spec fn maker(plan: PlanView, m: int) -> int {
    (choose|e: Entry| #[trigger] is_entry(plan, e) && entry_mode(plan, e) == m).cell
}

/// The cell of the operator that the plan names for the mode.
spec fn taker(plan: PlanView, m: int) -> int {
    plan.root(plan.consumers[m])
}

/// What is known of a plan and the photons in it.
spec fn is_run_of(plan: PlanView, chance: Chance, photons: Photons, rank: Seq<int>) -> bool {
    &&& is_circuit(plan)
    &&& settled(plan, chance, photons, rank)
    &&& forall|c: int|
        0 <= c < plan.cells.len() && (#[trigger] plan.cells[c]) is Data ==> fits_kind(
            node_at(plan.cells, c),
        )
    &&& forall|m: int|
        0 <= m < plan.consumers.len() && #[trigger] plan.consumers[m] != UNCLAIMED ==> 0 <= taker(
            plan,
            m,
        ) < plan.cells.len() && plan.cells[taker(plan, m)] is Data
    &&& plan.cells.len() <= UNCLAIMED
}

/// Every lit mode has a place where photons enter, and an operator to leave by.
proof fn lemma_lit_mode(plan: PlanView, chance: Chance, photons: Photons, rank: Seq<int>, m: int)
    requires
        is_run_of(plan, chance, photons, rank),
        lit(photons).contains(m),
    ensures
        exists|e: Entry| #[trigger] is_entry(plan, e) && entry_mode(plan, e) == m,
        -1 <= maker(plan, m) < plan.cells.len(),
        maker(plan, m) >= 0 ==> plan.cells[maker(plan, m)] is Data,
        is_claimed(plan, m as ModeIndex),
        0 <= taker(plan, m) < plan.cells.len(),
        plan.cells[taker(plan, m)] is Data,
{
    assert(photons[m] is Some);
    let e = choose|e: Entry| #[trigger] is_entry(plan, e) && entry_mode(plan, e) == m;
    assert(is_entry(plan, e) && entry_mode(plan, e) == m);
    assert(is_claimed(plan, entry_mode(plan, e)));
    assert(plan.consumers[m] != UNCLAIMED);
}

proof fn lemma_sources(plan: PlanView, c: int, links: Seq<Link>, n: nat)
    requires
        is_circuit(plan),
        0 <= c < plan.cells.len(),
        plan.cells[c] is Data,
        links == node_at(plan.cells, c).links,
        n <= links.len(),
    ensures
        sources_of(links, n).len() == n,
        forall|k: int| 0 <= k < n ==> #[trigger] sources_of(links, n)[k] == links[k].source,
    decreases n,
{
    if n > 0 {
        lemma_sources(plan, c, links, (n - 1) as nat);
    }
}

/// One of the first `n` links leads to the mode.
spec fn is_sink(links: Seq<Link>, n: int, m: int) -> bool {
    exists|k: int, j: int|
        0 <= k < n && 0 <= j < links[k].sinks.len() && #[trigger] links[k].sinks[j] == m
}

proof fn lemma_sinks(plan: PlanView, c: int, links: Seq<Link>, n: nat)
    requires
        is_circuit(plan),
        0 <= c < plan.cells.len(),
        plan.cells[c] is Data,
        links == node_at(plan.cells, c).links,
        n <= links.len(),
    ensures
        sinks_of(links, n).no_duplicates(),
        forall|m: int| #[trigger] sinks_of(links, n).contains(m) <==> is_sink(links, n as int, m),
    decreases n,
{
    if n > 0 {
        let p = (n - 1) as nat;
        lemma_sinks(plan, c, links, p);
        let before = sinks_of(links, p);
        let more = as_ints(links[n - 1].sinks);
        let all = sinks_of(links, n);
        assert forall|m: int| #[trigger] all.contains(m) <==> is_sink(links, n as int, m) by {
            if all.contains(m) {
                let i = all.index_of(m);
                if i < before.len() {
                    assert(before[i] == m);
                    assert(before.contains(m));
                    assert(is_sink(links, p as int, m));
                } else {
                    let j = i - before.len();
                    assert(more[j] == m);
                    assert(links[n - 1].sinks[j] == m);
                }
            }
            if is_sink(links, n as int, m) {
                let (k, j) = choose|k: int, j: int|
                    0 <= k < n && 0 <= j < links[k].sinks.len() && #[trigger] links[k].sinks[j]
                        == m;
                if k < p {
                    assert(is_sink(links, p as int, m));
                    assert(before.contains(m));
                    assert(all[before.index_of(m)] == m);
                } else {
                    assert(more[j] == m);
                    assert(all[before.len() + j] == m);
                }
            }
        }
        assert forall|a: int, b: int| 0 <= a < b < all.len() implies all[a] != all[b] by {
            if b >= before.len() {
                let j = b - before.len();
                assert(all[b] == links[n - 1].sinks[j]);
                let f = Entry { cell: c, link: n - 1, sink: j };
                assert(is_entry(plan, f));
                if a < before.len() {
                    assert(before.contains(before[a]));
                    let (k, i) = choose|k: int, i: int|
                        0 <= k < p && 0 <= i < links[k].sinks.len() && #[trigger] links[k].sinks[i]
                            == before[a];
                    let e = Entry { cell: c, link: k, sink: i };
                    assert(is_entry(plan, e));
                    assert(e != f);
                } else {
                    let i = a - before.len();
                    assert(all[a] == links[n - 1].sinks[i]);
                    let e = Entry { cell: c, link: n - 1, sink: i };
                    assert(is_entry(plan, e));
                    assert(e != f);
                }
            } else {
                assert(before[a] != before[b]);
            }
        }
    }
}

/// An operator makes no more photons than it takes; where it has got all of its own and is
/// no end, as many.
proof fn lemma_operator_balance(
    plan: PlanView,
    chance: Chance,
    photons: Photons,
    rank: Seq<int>,
    c: int,
)
    requires
        is_run_of(plan, chance, photons, rank),
        0 <= c < plan.cells.len(),
    ensures
        ({
            let made = lit(photons).filter(|m: int| maker(plan, m) == c);
            let taken = lit(photons).filter(|m: int| taker(plan, m) == c);
            let node = node_at(plan.cells, c);
            &&& made.finite() && taken.finite()
            &&& made.len() <= taken.len()
            &&& !(plan.cells[c] is Data) || is_end(node) ==> made.len() == 0
            &&& plan.cells[c] is Data && !is_end(node) && all_arrived(plan, c, photons)
                ==> made.len() == taken.len()
            &&& !(plan.cells[c] is Data) ==> taken.len() == 0
        }),
{
    let made = lit(photons).filter(|m: int| maker(plan, m) == c);
    let taken = lit(photons).filter(|m: int| taker(plan, m) == c);
    let node = node_at(plan.cells, c);
    let links = node.links;
    lemma_lit_is_finite(photons);
    vstd::set_lib::lemma_len_subset(made, lit(photons));
    vstd::set_lib::lemma_len_subset(taken, lit(photons));
    assert forall|m: int| #[trigger] made.contains(m) implies plan.cells[c] is Data && is_sink(
        links,
        links.len() as int,
        m,
    ) by {
        lemma_lit_mode(plan, chance, photons, rank, m);
        let e = choose|e: Entry| #[trigger] is_entry(plan, e) && entry_mode(plan, e) == m;
        assert(links[e.link].sinks[e.sink] == m);
    }
    assert forall|m: int| #[trigger] taken.contains(m) implies plan.cells[c] is Data by {
        lemma_lit_mode(plan, chance, photons, rank, m);
    }
    if !(plan.cells[c] is Data) {
        assert(made =~= Set::<int>::empty());
        assert(taken =~= Set::<int>::empty());
    } else if is_end(node) {
        assert(fits_kind(node));
        assert(made =~= Set::<int>::empty()) by {
            assert forall|m: int| !made.contains(m) by {
                if made.contains(m) {
                    let (k, j) = choose|k: int, j: int|
                        0 <= k < links.len() && 0 <= j < links[k].sinks.len()
                            && #[trigger] links[k].sinks[j] == m;
                    assert(links[k].sinks.len() == 0);
                }
            }
        }
    } else if !all_arrived(plan, c, photons) {
        assert(sinks_empty(links, photons));
        assert(made =~= Set::<int>::empty()) by {
            assert forall|m: int| !made.contains(m) by {
                if made.contains(m) {
                    let (k, j) = choose|k: int, j: int|
                        0 <= k < links.len() && 0 <= j < links[k].sinks.len()
                            && #[trigger] links[k].sinks[j] == m;
                    assert(photons[links[k].sinks[j] as int] is None);
                }
            }
        }
    } else {
        lemma_arrived_balance(plan, chance, photons, rank, c);
    }
}

proof fn lemma_arrived_balance(
    plan: PlanView,
    chance: Chance,
    photons: Photons,
    rank: Seq<int>,
    c: int,
)
    requires
        is_run_of(plan, chance, photons, rank),
        0 <= c < plan.cells.len(),
        plan.cells[c] is Data,
        !is_end(node_at(plan.cells, c)),
        all_arrived(plan, c, photons),
    ensures
        lit(photons).filter(|m: int| maker(plan, m) == c).len() == lit(photons).filter(
            |m: int| taker(plan, m) == c,
        ).len(),
{
    let made = lit(photons).filter(|m: int| maker(plan, m) == c);
    let taken = lit(photons).filter(|m: int| taker(plan, m) == c);
    let node = node_at(plan.cells, c);
    let links = node.links;
    let n = links.len();
    assert(fits_kind(node));
    lemma_sources(plan, c, links, n);
    lemma_sinks(plan, c, links, n);
    let sources = sources_of(links, n);
    let sinks = sinks_of(links, n);
    assert forall|k: int| 0 <= k < n implies photons[(#[trigger] links[k]).source as int] is Some
        && forall|j: int|
        0 <= j < links[k].sinks.len() ==> photons[(#[trigger] links[k].sinks[j]) as int]
            is Some by {
        assert(consumed_by(plan, node_at(plan.cells, c).links[k].source, c));
        assert forall|j: int| 0 <= j < links[k].sinks.len() implies photons[(
        #[trigger] links[k].sinks[j]) as int] is Some by {}
    }
    no_photon_is_made_or_lost(chance, node, photons);
    assert(sources.no_duplicates()) by {
        assert forall|a: int, b: int| 0 <= a < b < sources.len() implies sources[a]
            != sources[b] by {
            assert(links[a].source == sources[a] && links[b].source == sources[b]);
        }
    }
    assert forall|i: int| 0 <= i < sources.len() implies 0 <= #[trigger] sources[i]
        < photons.len() by {
        assert(consumed_by(plan, node_at(plan.cells, c).links[i].source, c));
    }
    assert forall|i: int| 0 <= i < sinks.len() implies 0 <= #[trigger] sinks[i]
        < photons.len() by {
        assert(sinks.contains(sinks[i]));
        let (k, j) = choose|k: int, j: int|
            0 <= k < n && 0 <= j < links[k].sinks.len() && #[trigger] links[k].sinks[j]
                == sinks[i];
        let e = Entry { cell: c, link: k, sink: j };
        assert(is_entry(plan, e));
        assert(is_claimed(plan, entry_mode(plan, e)));
    }
    lemma_count(photons, sources);
    lemma_count(photons, sinks);
    assert(taken =~= among(lit(photons), sources)) by {
        assert forall|m: int| taken.contains(m) <==> among(lit(photons), sources).contains(m) by {
            if taken.contains(m) {
                lemma_lit_mode(plan, chance, photons, rank, m);
                let k = choose|k: int| 0 <= k < n && (#[trigger] links[k]).source == m;
                assert(sources[k] == m);
            }
            if among(lit(photons), sources).contains(m) {
                let k = sources.index_of(m);
                assert(links[k].source == m);
                assert(consumed_by(plan, node_at(plan.cells, c).links[k].source, c));
            }
        }
    }
    assert(made =~= among(lit(photons), sinks)) by {
        assert forall|m: int| made.contains(m) <==> among(lit(photons), sinks).contains(m) by {
            if lit(photons).contains(m) {
                lemma_lit_mode(plan, chance, photons, rank, m);
                let f = choose|e: Entry| #[trigger] is_entry(plan, e) && entry_mode(plan, e) == m;
                if made.contains(m) {
                    assert(links[f.link].sinks[f.sink] == m);
                    assert(is_sink(links, n as int, m));
                    assert(sinks.contains(m));
                }
                if sinks.contains(m) {
                    let (k, j) = choose|k: int, j: int|
                        0 <= k < n && 0 <= j < links[k].sinks.len() && #[trigger] links[k].sinks[j]
                            == m;
                    let e = Entry { cell: c, link: k, sink: j };
                    assert(is_entry(plan, e));
                    assert(e == f);
                }
            }
        }
    }
}

/// The number of clicks among the outcomes.
pub open spec fn clicks(results: Seq<WpResult>) -> nat
    decreases results.len(),
{
    if results.len() == 0 {
        0
    } else {
        clicks(results.drop_last()) + if results.last() is Success {
            1nat
        } else {
            0nat
        }
    }
}

/// The number of pair sources among the operators.
pub open spec fn pair_sources(operators: Seq<Operator>) -> nat
    decreases operators.len(),
{
    if operators.len() == 0 {
        0
    } else {
        pair_sources(operators.drop_last()) + if operators.last() is EPPS {
            1nat
        } else {
            0nat
        }
    }
}

/// The modes whose photons end at a detector.
spec fn watched(plan: PlanView, photons: Photons) -> Set<int> {
    lit(photons).filter(|m: int| consumer_kind(plan, m) is Detect)
}

/// The modes whose photons go elsewhere.
spec fn unwatched(plan: PlanView, photons: Photons) -> Set<int> {
    lit(photons).filter(|m: int| !(consumer_kind(plan, m) is Detect))
}

proof fn lemma_clicks(
    plan: PlanView,
    photons: Photons,
    seen: Seq<int>,
    results: Seq<WpResult>,
    n: int,
)
    requires
        records(plan, photons, seen, results),
        0 <= n <= results.len(),
    ensures
        clicks(results.take(n)) == photons_at(photons, seen.take(n)),
    decreases n,
{
    if n > 0 {
        lemma_clicks(plan, photons, seen, results, n - 1);
        assert(results.take(n).drop_last() =~= results.take(n - 1));
        assert(seen.take(n).drop_last() =~= seen.take(n - 1));
        assert(at_detector(plan, photons, seen[n - 1]));
        assert(results[n - 1] == detected(
            consumer_kind(plan, seen[n - 1]),
            photons[seen[n - 1]]->0,
        ));
    }
}

/// Every photon that ends at a detector clicks, once.
proof fn lemma_clicks_are_watched(
    plan: PlanView,
    photons: Photons,
    seen: Seq<int>,
    results: Seq<WpResult>,
)
    requires
        records(plan, photons, seen, results),
    ensures
        clicks(results) == watched(plan, photons).len(),
{
    lemma_clicks(plan, photons, seen, results, results.len() as int);
    assert(results.take(results.len() as int) =~= results);
    assert(seen.take(results.len() as int) =~= seen);
    assert forall|i: int| 0 <= i < seen.len() implies 0 <= #[trigger] seen[i] < photons.len() by {
        assert(at_detector(plan, photons, seen[i]));
    }
    lemma_count(photons, seen);
    assert(among(lit(photons), seen) =~= watched(plan, photons)) by {
        assert forall|m: int|
            among(lit(photons), seen).contains(m) <==> watched(plan, photons).contains(m) by {
            if among(lit(photons), seen).contains(m) {
                assert(at_detector(plan, photons, seen[seen.index_of(m)]));
            }
            if watched(plan, photons).contains(m) {
                assert(at_detector(plan, photons, m));
            }
        }
    }
}

/// The modes that sources emit into.
spec fn emissions(plan: PlanView) -> Seq<int> {
    plan.emitted.map_values(|entry: (ModeIndex, Photon)| entry.0 as int)
}

proof fn lemma_photons_at_most(photons: Photons, modes: Seq<int>)
    ensures
        photons_at(photons, modes) <= modes.len(),
        (forall|i: int|
            0 <= i < modes.len() ==> photons[#[trigger] modes[i]] == Some(Photon::Single))
            ==> photons_at(photons, modes) == modes.len(),
    decreases modes.len(),
{
    if modes.len() > 0 {
        lemma_photons_at_most(photons, modes.drop_last());
        assert(forall|i: int|
            0 <= i < modes.drop_last().len() ==> modes.drop_last()[i] == modes[i]);
        assert(modes[modes.len() - 1] == modes.last());
    }
}

/// The photons that no operator made are those of the sources.
proof fn lemma_emitted(plan: PlanView, chance: Chance, photons: Photons, rank: Seq<int>)
    requires
        is_run_of(plan, chance, photons, rank),
        forall|i: int| 0 <= i < plan.emitted.len() ==> (#[trigger] plan.emitted[i]).1
            == Photon::Single,
    ensures
        lit(photons).filter(|m: int| maker(plan, m) == -1).len() == plan.emitted.len(),
{
    let list = emissions(plan);
    let made = lit(photons).filter(|m: int| maker(plan, m) == -1);
    assert forall|i: int| 0 <= i < list.len() implies 0 <= #[trigger] list[i] < photons.len()
        && photons[list[i]] == Some(Photon::Single) by {
        let e = Entry { cell: -1, link: i, sink: 0 };
        assert(is_entry(plan, e));
        assert(is_claimed(plan, entry_mode(plan, e)));
        assert(photons[plan.emitted[i].0 as int] == Some(plan.emitted[i].1));
    }
    assert(list.no_duplicates()) by {
        assert forall|a: int, b: int| 0 <= a < b < list.len() implies list[a] != list[b] by {
            let e = Entry { cell: -1, link: a, sink: 0 };
            let f = Entry { cell: -1, link: b, sink: 0 };
            assert(is_entry(plan, e) && is_entry(plan, f));
            assert(e != f);
        }
    }
    lemma_count(photons, list);
    lemma_photons_at_most(photons, list);
    assert(made =~= among(lit(photons), list)) by {
        assert forall|m: int| made.contains(m) <==> among(lit(photons), list).contains(m) by {
            if lit(photons).contains(m) {
                lemma_lit_mode(plan, chance, photons, rank, m);
                let f = choose|e: Entry| #[trigger] is_entry(plan, e) && entry_mode(plan, e) == m;
                if made.contains(m) {
                    assert(list[f.link] == m);
                }
                if list.contains(m) {
                    let i = list.index_of(m);
                    let e = Entry { cell: -1, link: i, sink: 0 };
                    assert(is_entry(plan, e));
                    assert(e == f);
                }
            }
        }
    }
}

/// No operator lets photons end but detectors, and each has got all of its own.
spec fn all_pass(plan: PlanView, photons: Photons) -> bool {
    forall|c: int|
        0 <= c < plan.cells.len() && (#[trigger] plan.cells[c]) is Data ==> all_arrived(
            plan,
            c,
            photons,
        ) && !(node_at(plan.cells, c).kind is Dump)
}

proof fn lemma_balance(
    plan: PlanView,
    chance: Chance,
    photons: Photons,
    rank: Seq<int>,
    n: nat,
)
    requires
        is_run_of(plan, chance, photons, rank),
        n <= plan.cells.len(),
    ensures
        parts(lit(photons), |m: int| maker(plan, m), n) <= parts(
            unwatched(plan, photons),
            |m: int| taker(plan, m),
            n,
        ),
        all_pass(plan, photons) ==> parts(lit(photons), |m: int| maker(plan, m), n) == parts(
            unwatched(plan, photons),
            |m: int| taker(plan, m),
            n,
        ),
    decreases n,
{
    if n > 0 {
        lemma_balance(plan, chance, photons, rank, (n - 1) as nat);
        let c = n - 1;
        lemma_operator_balance(plan, chance, photons, rank, c);
        let by_maker = |m: int| maker(plan, m);
        let by_taker = |m: int| taker(plan, m);
        let made = lit(photons).filter(|m: int| maker(plan, m) == c);
        let taken = lit(photons).filter(|m: int| taker(plan, m) == c);
        let kept = unwatched(plan, photons).filter(|m: int| by_taker(m) == c);
        assert(lit(photons).filter(|m: int| by_maker(m) == c) =~= made);
        if plan.cells[c] is Data && node_at(plan.cells, c).kind is Detect {
            assert(kept =~= Set::<int>::empty());
        } else {
            assert(kept =~= taken);
        }
    }
}

/// Photons and clicks, counted.
proof fn lemma_total(
    plan: PlanView,
    chance: Chance,
    photons: Photons,
    rank: Seq<int>,
    seen: Seq<int>,
    results: Seq<WpResult>,
)
    requires
        is_run_of(plan, chance, photons, rank),
        records(plan, photons, seen, results),
        forall|i: int| 0 <= i < plan.emitted.len() ==> (#[trigger] plan.emitted[i]).1
            == Photon::Single,
    ensures
        clicks(results) <= plan.emitted.len(),
        all_pass(plan, photons) ==> clicks(results) == plan.emitted.len(),
{
    let all = lit(photons);
    let seen_here = watched(plan, photons);
    let elsewhere = unwatched(plan, photons);
    let n = plan.cells.len();
    let by_maker = |m: int| maker(plan, m);
    let by_taker = |m: int| taker(plan, m);
    lemma_lit_is_finite(photons);
    lemma_clicks_are_watched(plan, photons, seen, results);
    lemma_emitted(plan, chance, photons, rank);
    lemma_balance(plan, chance, photons, rank, n);
    vstd::set_lib::lemma_len_subset(seen_here, all);
    vstd::set_lib::lemma_len_subset(elsewhere, all);
    lemma_parts(all, by_maker, n);
    lemma_parts(elsewhere, by_taker, n);
    let made = all.filter(|m: int| 0 <= by_maker(m) < n);
    let given = all.filter(|m: int| maker(plan, m) == -1);
    vstd::set_lib::lemma_len_subset(made, all);
    vstd::set_lib::lemma_len_subset(given, all);
    assert(made.disjoint(given));
    assert(all =~= made + given) by {
        assert forall|m: int| all.contains(m) implies (made + given).contains(m) by {
            lemma_lit_mode(plan, chance, photons, rank, m);
        }
    }
    vstd::set_lib::lemma_set_disjoint_lens(made, given);
    assert(seen_here.disjoint(elsewhere));
    assert(all =~= seen_here + elsewhere);
    vstd::set_lib::lemma_set_disjoint_lens(seen_here, elsewhere);
    assert(elsewhere.filter(|m: int| 0 <= by_taker(m) < n) =~= elsewhere) by {
        assert forall|m: int| elsewhere.contains(m) implies 0 <= by_taker(m) < n by {
            lemma_lit_mode(plan, chance, photons, rank, m);
        }
    }
}

proof fn lemma_links_keep_two(links: Seq<Link>, more: Seq<Link>)
    requires
        forall|k: int| 0 <= k < links.len() ==> (#[trigger] links[k]).sinks.len() == 2,
        forall|k: int| 0 <= k < more.len() ==> (#[trigger] more[k]).sinks.len() == 2,
    ensures
        forall|k: int|
            0 <= k < with_links(links, more).len() ==> (#[trigger] with_links(
                links,
                more,
            )[k]).sinks.len() == 2,
    decreases more.len(),
{
    if more.len() > 0 {
        assert(forall|k: int| 0 <= k < more.drop_last().len() ==> more.drop_last()[k] == more[k]);
        lemma_links_keep_two(links, more.drop_last());
        assert(more[more.len() - 1] == more.last());
        let before = with_links(links, more.drop_last());
        let after = with_links(links, more);
        assert(after == with_link(before, more.last()));
        assert forall|k: int| 0 <= k < after.len() implies (#[trigger] after[k]).sinks.len()
            == 2 by {
            if k < before.len() {
                assert(after[k] == before[k]);
            }
        }
    }
}

proof fn lemma_joined_fits(node: Node, more: Seq<Link>)
    requires
        fits_kind(node),
        meets_others(node),
        forall|k: int| 0 <= k < more.len() ==> (#[trigger] more[k]).sinks.len() == 2,
    ensures
        fits_kind(joined_node(node, more)),
{
    lemma_links_keep_two(seq![], node.links);
    let base = if node.kind is Interfere {
        with_links(seq![], node.links)
    } else {
        node.links
    };
    lemma_links_keep_two(base, more);
}

proof fn lemma_pair_fits(
    plan: PlanView,
    sources: Seq<ModeIndex>,
    sinks: Seq<ModeIndex>,
    bits: u64,
    operators: Seq<Operator>,
    mode_max: u16,
)
    requires
        plan_of_operators(operators, mode_max) == Some(plan),
        well_shaped(plan),
        holds_nothing(plan),
        plan.with_pair(sources, sinks, bits) is Some,
    ensures
        well_shaped(plan.with_pair(sources, sinks, bits)->0),
        holds_nothing(plan.with_pair(sources, sinks, bits)->0),
        (plan.with_pair(sources, sinks, bits)->0).cells.len() <= plan.cells.len() + 1,
        (plan.with_pair(sources, sinks, bits)->0).cells.len() > plan.cells.len()
            ==> plan.cells.len() < UNCLAIMED,
{
    let links = pair_links(sources, sinks);
    let first = plan.consumers[sources[0] as int];
    let second = plan.consumers[sources[1] as int];
    if first != UNCLAIMED {
        named_operators_are_there(operators, mode_max, sources[0] as int);
        let c = plan.root(first);
        assert(plan.cells[c] is Data);
        lemma_joined_fits(node_at(plan.cells, c), links);
        let joined = plan.with_joined(first, links)->0;
        assert(well_shaped(joined));
        if second != UNCLAIMED {
            named_operators_are_there(operators, mode_max, sources[1] as int);
            let from = joined.root(second);
            let to = joined.root(first);
            lemma_same_roots(plan, joined, c);
            assert(joined.cells[from] is Data && joined.cells[to] is Data);
            lemma_joined_fits(node_at(joined.cells, to), node_at(joined.cells, from).links);
        }
    } else if second != UNCLAIMED {
        named_operators_are_there(operators, mode_max, sources[1] as int);
        let c = plan.root(second);
        assert(plan.cells[c] is Data);
        lemma_joined_fits(node_at(plan.cells, c), links);
    }
}

/// Changing the operator in a cell changes no root.
proof fn lemma_same_roots(plan: PlanView, joined: PlanView, c: int)
    requires
        0 <= c < plan.cells.len(),
        plan.cells[c] is Data,
        joined.cells.len() == plan.cells.len(),
        joined.cells[c] is Data,
        forall|i: int|
            0 <= i < plan.cells.len() && i != c ==> #[trigger] joined.cells[i] == plan.cells[i],
    ensures
        forall|handle: u16| #[trigger] joined.root(handle) == plan.root(handle),
{
    assert(hops_of(joined.cells) =~= hops_of(plan.cells));
}

/// The operators of a plan have the links that their kinds need and hold nothing, and its
/// sources emit photons.
pub proof fn lemma_plan_fits(operators: Seq<Operator>, mode_max: u16)
    requires
        plan_of_operators(operators, mode_max) is Some,
    ensures
        ({
            let plan = plan_of_operators(operators, mode_max)->0;
            &&& well_shaped(plan)
            &&& holds_nothing(plan)
            &&& plan.emitted.len() == 2 * pair_sources(operators)
            &&& plan.cells.len() <= UNCLAIMED
            &&& forall|i: int| 0 <= i < plan.emitted.len() ==> (#[trigger] plan.emitted[i]).1
                == Photon::Single
        }),
    decreases operators.len(),
{
    if operators.len() > 0 {
        let earlier = operators.drop_last();
        let operator = operators.last();
        lemma_plan_fits(earlier, mode_max);
        let plan = plan_of_operators(earlier, mode_max)->0;
        if let Operator::DualBivariate {
            packet_indistinguishability_bits,
            source_modes,
            sink_modes,
            ..
        } = operator {
            lemma_pair_fits(
                plan,
                source_modes@,
                sink_modes@,
                packet_indistinguishability_bits,
                earlier,
                mode_max,
            );
        }
    }
}

/// There are no more clicks than photons: two for every pair source of the island.
pub proof fn no_more_clicks_than_photons(
    island: IslandView,
    chance: Chance,
    results: Seq<WpResult>,
)
    requires
        plan_of(island) is Some,
        is_circuit(plan_of(island)->0),
        is_outcome(plan_of(island)->0, chance, results),
    ensures
        clicks(results) <= 2 * pair_sources(island.operators),
{
    lemma_island_settles(island, chance, results);
    let plan = plan_of(island)->0;
    let (photons, rank, seen) = choose|photons: Photons, rank: Seq<int>, seen: Seq<int>|
        #[trigger] settled(plan, chance, photons, rank) && #[trigger] records(
            plan,
            photons,
            seen,
            results,
        );
    lemma_island_run(island, chance, photons, rank);
    lemma_total(plan, chance, photons, rank, seen, results);
}

/// The photons of an island with a circuit settle.
pub proof fn lemma_island_settles(island: IslandView, chance: Chance, results: Seq<WpResult>)
    requires
        plan_of(island) is Some,
        is_circuit(plan_of(island)->0),
        is_outcome(plan_of(island)->0, chance, results),
    ensures
        is_settled_outcome(plan_of(island)->0, chance, results),
{
    lemma_plan_fits(island.operators, island.mode_max);
    lemma_plan_is_rooted(island.operators, island.mode_max);
    circuits_settle(plan_of(island)->0, chance, results);
}

proof fn lemma_island_run(island: IslandView, chance: Chance, photons: Photons, rank: Seq<int>)
    requires
        plan_of(island) is Some,
        is_circuit(plan_of(island)->0),
        settled(plan_of(island)->0, chance, photons, rank),
    ensures
        is_run_of(plan_of(island)->0, chance, photons, rank),
        (plan_of(island)->0).emitted.len() == 2 * pair_sources(island.operators),
        forall|i: int|
            0 <= i < (plan_of(island)->0).emitted.len() ==> (#[trigger] (plan_of(
                island,
            )->0).emitted[i]).1 == Photon::Single,
{
    let plan = plan_of(island)->0;
    lemma_plan_fits(island.operators, island.mode_max);
    assert forall|m: int|
        0 <= m < plan.consumers.len() && #[trigger] plan.consumers[m] != UNCLAIMED implies 0
        <= taker(plan, m) < plan.cells.len() && plan.cells[taker(plan, m)] is Data by {
        named_operators_are_there(island.operators, island.mode_max, m);
    }
}

/// In a complete circuit where no photon is dumped, every photon clicks: two for every pair
/// source of the island.
pub proof fn every_photon_clicks(island: IslandView, chance: Chance, results: Seq<WpResult>)
    requires
        plan_of(island) is Some,
        is_circuit(plan_of(island)->0),
        is_complete(plan_of(island)->0),
        is_outcome(plan_of(island)->0, chance, results),
        forall|c: int|
            0 <= c < (plan_of(island)->0).cells.len() && (#[trigger] (plan_of(island)->0).cells[c])
                is Data ==> !(node_at((plan_of(island)->0).cells, c).kind is Dump),
    ensures
        clicks(results) == 2 * pair_sources(island.operators),
{
    lemma_island_settles(island, chance, results);
    let plan = plan_of(island)->0;
    let (photons, rank, seen) = choose|photons: Photons, rank: Seq<int>, seen: Seq<int>|
        #[trigger] settled(plan, chance, photons, rank) && #[trigger] records(
            plan,
            photons,
            seen,
            results,
        );
    lemma_island_run(island, chance, photons, rank);
    assert(all_pass(plan, photons)) by {
        assert forall|c: int|
            0 <= c < plan.cells.len() && (#[trigger] plan.cells[c]) is Data implies all_arrived(
            plan,
            c,
            photons,
        ) && !(node_at(plan.cells, c).kind is Dump) by {
            every_operator_is_reached(plan, chance, photons, rank, c);
        }
    }
    lemma_total(plan, chance, photons, rank, seen, results);
}

/// The cell holds a detector.
pub open spec fn is_detector(plan: PlanView, c: int) -> bool {
    0 <= c < plan.cells.len() && plan.cells[c] is Data && node_at(plan.cells, c).kind is Detect
}

/// The results are those of the detectors in these cells, one each.
pub open spec fn are_reports_of(
    plan: PlanView,
    cells: Seq<int>,
    results: Seq<WpResult>,
) -> bool {
    &&& cells.len() == results.len()
    &&& cells.no_duplicates()
    &&& forall|i: int|
        0 <= i < cells.len() ==> is_detector(plan, #[trigger] cells[i]) && (results[i] == detected(
            node_at(plan.cells, cells[i]).kind,
            Photon::Single,
        ) || results[i] == detected(node_at(plan.cells, cells[i]).kind, Photon::Vac))
    &&& forall|c: int| #[trigger] is_detector(plan, c) ==> cells.contains(c)
}

/// In a complete circuit every detector reports, and once: the results are those of all the
/// detectors, one each, with or without a click.
pub proof fn every_detector_reports_once(
    island: IslandView,
    chance: Chance,
    results: Seq<WpResult>,
)
    requires
        plan_of(island) is Some,
        is_circuit(plan_of(island)->0),
        is_complete(plan_of(island)->0),
        is_outcome(plan_of(island)->0, chance, results),
    ensures
        exists|cells: Seq<int>| #[trigger] are_reports_of(plan_of(island)->0, cells, results),
{
    lemma_island_settles(island, chance, results);
    let plan = plan_of(island)->0;
    let (photons, rank, seen) = choose|photons: Photons, rank: Seq<int>, seen: Seq<int>|
        #[trigger] settled(plan, chance, photons, rank) && #[trigger] records(
            plan,
            photons,
            seen,
            results,
        );
    lemma_island_run(island, chance, photons, rank);
    let cells = seen.map_values(|m: int| taker(plan, m));
    assert forall|i: int| 0 <= i < cells.len() implies is_detector(plan, #[trigger] cells[i]) && (
    results[i] == detected(node_at(plan.cells, cells[i]).kind, Photon::Single) || results[i]
        == detected(node_at(plan.cells, cells[i]).kind, Photon::Vac)) by {
        lemma_seen_detector(plan, chance, photons, rank, seen, results, i);
    }
    assert(cells.no_duplicates()) by {
        assert forall|i: int, k: int|
            0 <= i < cells.len() && 0 <= k < cells.len() && i != k implies cells[i]
            != cells[k] by {
            lemma_seen_detector(plan, chance, photons, rank, seen, results, i);
            lemma_seen_detector(plan, chance, photons, rank, seen, results, k);
            assert(seen[i] != seen[k]);
        }
    }
    assert forall|c: int| #[trigger] is_detector(plan, c) implies cells.contains(c) by {
        let i = lemma_detector_is_seen(plan, chance, photons, rank, seen, results, c);
        assert(cells[i] == c);
    }
    assert(are_reports_of(plan, cells, results));
}

/// What was seen was seen by a detector, and on its one mode.
proof fn lemma_seen_detector(
    plan: PlanView,
    chance: Chance,
    photons: Photons,
    rank: Seq<int>,
    seen: Seq<int>,
    results: Seq<WpResult>,
    i: int,
)
    requires
        is_run_of(plan, chance, photons, rank),
        records(plan, photons, seen, results),
        0 <= i < seen.len(),
    ensures
        ({
            let c = taker(plan, seen[i]);
            let kind = node_at(plan.cells, c).kind;
            &&& is_detector(plan, c)
            &&& results[i] == detected(kind, Photon::Single) || results[i] == detected(
                kind,
                Photon::Vac,
            )
            &&& node_at(plan.cells, c).links[0].source == seen[i]
        }),
{
    let m = seen[i];
    let c = taker(plan, m);
    assert(at_detector(plan, photons, m));
    assert(photons[m] is Some);
    let e = choose|e: Entry| #[trigger] is_entry(plan, e) && entry_mode(plan, e) == m;
    assert(is_claimed(plan, entry_mode(plan, e)));
    assert(plan.consumers[m] != UNCLAIMED);
    assert(plan.cells[c] is Data);
    let node = node_at(plan.cells, c);
    assert(fits_kind(node));
    assert(node.links.len() == 1);
    assert(has_source(node.links, m as ModeIndex));
}

/// A detector of a complete circuit has seen what came.
proof fn lemma_detector_is_seen(
    plan: PlanView,
    chance: Chance,
    photons: Photons,
    rank: Seq<int>,
    seen: Seq<int>,
    results: Seq<WpResult>,
    c: int,
) -> (i: int)
    requires
        is_run_of(plan, chance, photons, rank),
        is_complete(plan),
        records(plan, photons, seen, results),
        is_detector(plan, c),
    ensures
        0 <= i < seen.len(),
        taker(plan, seen[i]) == c,
{
    let node = node_at(plan.cells, c);
    every_operator_is_reached(plan, chance, photons, rank, c);
    assert(fits_kind(node));
    let m = node.links[0].source;
    assert(consumed_by(plan, m, c) && photons[m as int] is Some) by {
        assert(node_at(plan.cells, c).links[0].source == m);
    }
    assert(at_detector(plan, photons, m as int));
    let i = seen.index_of(m as int);
    assert(seen[i] == m as int);
    i
}

} // verus!
