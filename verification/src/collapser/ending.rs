//! Whether the course of the photons comes to an end, found from the plan alone.

use vstd::prelude::*;

use crate::collapser::circuit::{consumed_by, is_claimed};
use crate::collapser::course::{
    can_fire, comes_to_an_end, fires, is_closed, is_reached, leads_on, lemma_reached_is_closed,
    reached,
};
use crate::collapser::monotonic_map::{has_root, hops_of, lemma_root, MonotonicMapCell};
use crate::collapser::photon::{first_source, lemma_first_source, MonteCarloOperator, Node};
use crate::collapser::plan::{lemma_same_hops, node_at, CollapsePlan, PlanView};
use crate::types::ModeIndex;

verus! {

/// The modes that are marked.
spec fn marked(marks: Seq<bool>) -> Set<int> {
    Set::new(|m: int| 0 <= m < marks.len() && marks[m])
}

/// Only modes that photons reach are marked, and each has its operator.
spec fn marks_reached(plan: PlanView, marks: Seq<bool>) -> bool {
    &&& marks.len() == plan.consumers.len()
    &&& marks.len() <= u16::MAX
    &&& forall|m: int|
        0 <= m < marks.len() && #[trigger] marks[m] ==> is_reached(plan, m) && is_claimed(
            plan,
            m as ModeIndex,
        )
}

/// What was marked is marked still.
spec fn keeps_marks(before: Seq<bool>, after: Seq<bool>) -> bool {
    &&& after.len() == before.len()
    &&& forall|m: int| 0 <= m < before.len() && #[trigger] before[m] ==> after[m]
}

spec fn unmarked(marks: Seq<bool>) -> nat
    decreases marks.len(),
{
    if marks.len() == 0 {
        0
    } else {
        unmarked(marks.drop_last()) + (if marks.last() {
            0nat
        } else {
            1nat
        })
    }
}

proof fn lemma_unmarked(before: Seq<bool>, after: Seq<bool>)
    requires
        keeps_marks(before, after),
    ensures
        unmarked(after) <= unmarked(before),
        before != after ==> unmarked(after) < unmarked(before),
    decreases before.len(),
{
    if before.len() > 0 {
        let b = before.drop_last();
        let a = after.drop_last();
        assert(keeps_marks(b, a)) by {
            assert forall|m: int| 0 <= m < b.len() && #[trigger] b[m] implies a[m] by {
                assert(before[m]);
            }
        }
        lemma_unmarked(b, a);
        assert(before[before.len() - 1] == before.last() && after[after.len() - 1] == after.last());
        if before != after && b == a {
            if before.last() == after.last() {
                assert(before =~= b.push(before.last()));
                assert(after =~= a.push(after.last()));
            }
        }
    } else {
        assert(before =~= after);
    }
}

/// The operator in the cell adds nothing to the marks.
spec fn is_closed_at(plan: PlanView, marks: Seq<bool>, c: int) -> bool {
    plan.cells[c] is Data && can_fire(plan, c, marked(marks)) ==> forall|k: int, j: int|
        0 <= k < node_at(plan.cells, c).links.len() && 0 <= j < node_at(
            plan.cells,
            c,
        ).links[k].sinks.len() ==> marked(marks).contains(
            #[trigger] node_at(plan.cells, c).links[k].sinks[j] as int,
        )
}

/// What an operator that gets its photons out of reached modes leads to is reached.
proof fn lemma_exit_is_reached(plan: PlanView, marks: Seq<bool>, c: int, k: int, j: int)
    requires
        marks_reached(plan, marks),
        0 <= c < plan.cells.len(),
        plan.cells[c] is Data,
        can_fire(plan, c, marked(marks)),
        0 <= k < node_at(plan.cells, c).links.len(),
        0 <= j < node_at(plan.cells, c).links[k].sinks.len(),
    ensures
        is_reached(plan, node_at(plan.cells, c).links[k].sinks[j] as int),
{
    lemma_reached_is_closed(plan);
    assert(can_fire(plan, c, reached(plan))) by {
        assert forall|i: int| 0 <= i < node_at(plan.cells, c).links.len() implies {
            let source = (#[trigger] node_at(plan.cells, c).links[i]).source;
            &&& reached(plan).contains(source as int)
            &&& consumed_by(plan, source, c)
            &&& first_source(node_at(plan.cells, c).links, source) == i
        } by {
            let source = node_at(plan.cells, c).links[i].source as int;
            assert(marked(marks).contains(source));
            assert(marks[source]);
        }
    }
    assert(reached(plan).contains(node_at(plan.cells, c).links[k].sinks[j] as int));
}

/// The mode is that of an exit.
spec fn is_exit_at(node: Node, l: int, j: int, mode: ModeIndex) -> bool {
    0 <= l < node.links.len() && 0 <= j < node.links[l].sinks.len() && node.links[l].sinks[j] == mode
}

spec fn has_exit(node: Node, mode: ModeIndex) -> bool {
    exists|l: int, j: int| #[trigger] is_exit_at(node, l, j, mode)
}

/// An exit of the one operator is where the other starts from.
spec fn feeds(plan: PlanView, d: int, c: int) -> bool {
    exists|k: int|
        0 <= k < node_at(plan.cells, c).links.len() && has_exit(
            node_at(plan.cells, d),
            (#[trigger] node_at(plan.cells, c).links[k]).source,
        )
}

/// Operators that get their photons, each once and after all that feed it.
spec fn is_order(plan: PlanView, order: Seq<int>) -> bool {
    &&& forall|i: int| 0 <= i < order.len() ==> fires(plan, #[trigger] order[i])
    &&& forall|i: int, d: int|
        0 <= i < order.len() && #[trigger] fires(plan, d) && feeds(plan, d, #[trigger] order[i])
            ==> order.take(i).contains(d)
    &&& order.no_duplicates()
}

/// After which of the first `n` operators the mode comes.
spec fn depth_in(plan: PlanView, order: Seq<int>, n: nat, mode: int) -> nat
    decreases n,
{
    if n == 0 {
        0
    } else if 0 <= mode <= u16::MAX && has_exit(
        node_at(plan.cells, order[n - 1]),
        mode as ModeIndex,
    ) {
        n
    } else {
        depth_in(plan, order, (n - 1) as nat, mode)
    }
}

proof fn lemma_depth_in(plan: PlanView, order: Seq<int>, n: nat, mode: ModeIndex)
    requires
        n <= order.len(),
    ensures
        depth_in(plan, order, n, mode as int) <= n,
        depth_in(plan, order, n, mode as int) > 0 ==> has_exit(
            node_at(plan.cells, order[depth_in(plan, order, n, mode as int) - 1]),
            mode,
        ),
        forall|i: int|
            0 <= i < n && has_exit(node_at(plan.cells, #[trigger] order[i]), mode) ==> i
                < depth_in(plan, order, n, mode as int),
    decreases n,
{
    if n > 0 {
        lemma_depth_in(plan, order, (n - 1) as nat, mode);
    }
}

/// Where all operators that get their photons can be put in order, no way leads back.
proof fn lemma_order_leads_on(plan: PlanView, order: Seq<int>)
    requires
        is_order(plan, order),
        forall|c: int| #[trigger] fires(plan, c) ==> order.contains(c),
    ensures
        exists|depth: spec_fn(int) -> nat| leads_on(plan, depth),
{
    let depth = |m: int| depth_in(plan, order, order.len(), m);
    assert(leads_on(plan, depth)) by {
        assert forall|c: int, k: int, l: int, j: int|
            #![trigger node_at(plan.cells, c).links[k], node_at(plan.cells, c).links[l].sinks[j]]
            fires(plan, c) && 0 <= k < node_at(plan.cells, c).links.len() && 0 <= l < node_at(
                plan.cells,
                c,
            ).links.len() && 0 <= j < node_at(plan.cells, c).links[l].sinks.len() implies depth(
            node_at(plan.cells, c).links[k].source as int,
        ) < depth(node_at(plan.cells, c).links[l].sinks[j] as int) by {
            let i = order.index_of(c);
            let source = node_at(plan.cells, c).links[k].source;
            let sink = node_at(plan.cells, c).links[l].sinks[j];
            lemma_depth_in(plan, order, order.len(), source);
            lemma_depth_in(plan, order, order.len(), sink);
            assert(order[i] == c);
            assert(is_exit_at(node_at(plan.cells, c), l, j, sink));
            assert(has_exit(node_at(plan.cells, order[i]), sink));
            let n = depth(source as int);
            if n > 0 {
                let d = order[n - 1];
                assert(feeds(plan, d, order[i]));
                assert(fires(plan, d));
                let p = order.take(i).index_of(d);
                assert(order[p] == d && p < i);
                assert(p == n - 1);
            }
        }
    }
}

/// Where each of some operators is fed by another of them, a way leads back.
proof fn lemma_leads_back(
    plan: PlanView,
    depth: spec_fn(int) -> nat,
    stuck: Set<int>,
    d: int,
    mode: ModeIndex,
)
    requires
        leads_on(plan, depth),
        has_exit(node_at(plan.cells, d), mode),
        forall|c: int| #[trigger] stuck.contains(c) ==> fires(plan, c) && is_fed_by(plan, stuck, c),
    ensures
        !stuck.contains(d),
    decreases depth(mode as int),
{
    if stuck.contains(d) {
        let (e, k) = lemma_feeder(plan, stuck, d);
        let source = node_at(plan.cells, d).links[k].source;
        let (l, j) = choose|l: int, j: int| #[trigger] is_exit_at(node_at(plan.cells, d), l, j, mode);
        assert(fires(plan, d));
        assert(depth(node_at(plan.cells, d).links[k].source as int) < depth(
            node_at(plan.cells, d).links[l].sinks[j] as int,
        ));
        lemma_leads_back(plan, depth, stuck, e, source);
    }
}

/// One of them feeds the operator.
#[verifier::opaque]
spec fn is_fed_by(plan: PlanView, stuck: Set<int>, c: int) -> bool {
    exists|e: int| #[trigger] stuck.contains(e) && feeds(plan, e, c)
}

proof fn lemma_is_fed(plan: PlanView, stuck: Set<int>, e: int, c: int)
    requires
        stuck.contains(e),
        feeds(plan, e, c),
    ensures
        is_fed_by(plan, stuck, c),
{
    reveal(is_fed_by);
}

/// One that feeds the operator, with the mode between the two.
proof fn lemma_feeder(plan: PlanView, stuck: Set<int>, c: int) -> (feeder: (int, int))
    requires
        is_fed_by(plan, stuck, c),
    ensures
        stuck.contains(feeder.0),
        0 <= feeder.1 < node_at(plan.cells, c).links.len(),
        has_exit(
            node_at(plan.cells, feeder.0),
            node_at(plan.cells, c).links[feeder.1].source,
        ),
{
    reveal(is_fed_by);
    let e = choose|e: int| #[trigger] stuck.contains(e) && feeds(plan, e, c);
    let k = choose|k: int|
        0 <= k < node_at(plan.cells, c).links.len() && has_exit(
            node_at(plan.cells, e),
            (#[trigger] node_at(plan.cells, c).links[k]).source,
        );
    (e, k)
}

proof fn lemma_no_order(plan: PlanView, stuck: Set<int>, c: int)
    requires
        stuck.contains(c),
        forall|c: int| #[trigger] stuck.contains(c) ==> fires(plan, c) && is_fed_by(plan, stuck, c),
    ensures
        !exists|depth: spec_fn(int) -> nat| leads_on(plan, depth),
{
    if exists|depth: spec_fn(int) -> nat| leads_on(plan, depth) {
        let depth = choose|depth: spec_fn(int) -> nat| leads_on(plan, depth);
        let (e, k) = lemma_feeder(plan, stuck, c);
        lemma_leads_back(plan, depth, stuck, e, node_at(plan.cells, c).links[k].source);
    }
}

/// Whether the operator has that exit.
fn find_exit(operator: &MonteCarloOperator, mode: ModeIndex) -> (found: bool)
    ensures
        found == has_exit(operator.node(), mode),
{
    let ghost node = operator.node();
    let n: usize = operator.link_count();
    let exits: usize = operator.exit_count();
    let mut l: usize = 0;
    while l < n
        invariant
            node == operator.node(),
            n == node.links.len(),
            l <= n,
            forall|i: int| 0 <= i < n ==> (#[trigger] node.links[i]).sinks.len() == exits,
            forall|i: int, j: int| #[trigger] is_exit_at(node, i, j, mode) ==> i >= l,
        decreases n - l,
    {
        let mut j: usize = 0;
        while j < exits
            invariant
                node == operator.node(),
                n == node.links.len(),
                l < n,
                j <= exits,
                forall|i: int| 0 <= i < n ==> (#[trigger] node.links[i]).sinks.len() == exits,
                forall|i: int, h: int| #[trigger]
                    is_exit_at(node, i, h, mode) ==> i > l || (i == l && h >= j),
            decreases exits - j,
        {
            assert(node.links[l as int].sinks.len() == exits);
            if operator.sink_at(l, j) == mode {
                assert(is_exit_at(node, l as int, j as int, mode));
                return true;
            }
            j += 1;
        }
        l += 1;
    }
    false
}

impl CollapsePlan {
    /// The cell of the operator that consumes the mode, if there is one.
    fn consumer(&self, mode: ModeIndex) -> (cell: Option<usize>)
        requires
            self.wf(),
        ensures
            cell is Some <==> mode < self@.consumers.len() && self@.consumers[mode as int]
                < self@.cells.len(),
            cell matches Some(c) ==> consumed_by(self@, mode, c as int) && c < self@.cells.len()
                && self@.cells[c as int] is Data,
    {
        let m: usize = mode as usize;
        if m >= self.mode_operator_map.len() {
            return None;
        }
        let handle: u16 = self.mode_operator_map[m];
        if handle as usize >= self.operators.len() {
            return None;
        }
        proof {
            lemma_same_hops(self.operators@);
            assert(has_root(hops_of(self.operators@), handle as int));
            lemma_root(hops_of(self.operators@), handle as int);
        }
        let root: u16 = self.operators.resolve(handle);
        assert(self.operators@[root as int] is Data);
        Some(root as usize)
    }

    /// Whether an operator with a link for it consumes the mode.
    fn claims(&self, mode: ModeIndex) -> (claimed: bool)
        requires
            self.wf(),
        ensures
            claimed == is_claimed(self@, mode),
    {
        match self.consumer(mode) {
            None => false,
            Some(c) => {
                match self.operators.at(c) {
                    MonotonicMapCell::Data(operator) => {
                        assert(self@.cells[c as int] == MonotonicMapCell::Data(operator.node()));
                        let ghost links = operator.node().links;
                        let n: usize = operator.link_count();
                        let mut k: usize = 0;
                        while k < n && operator.source_at(k) != mode
                            invariant
                                n == operator.node().links.len(),
                                links == operator.node().links,
                                k <= n,
                                forall|i: int| 0 <= i < k ==> (#[trigger] links[i]).source != mode,
                            decreases n - k,
                        {
                            k += 1;
                        }
                        assert(k < n ==> links[k as int].source == mode);
                        k < n
                    },
                    MonotonicMapCell::Moved(_) => false,
                }
            },
        }
    }

    /// Marks the mode, if its photons find an operator. The answer is whether they do.
    fn mark(&self, mode: ModeIndex, marks: &mut Vec<bool>) -> (found: bool)
        requires
            self.wf(),
            marks_reached(self@, old(marks)@),
            is_reached(self@, mode as int),
        ensures
            found == is_claimed(self@, mode),
            found ==> final(marks)@ == old(marks)@.update(mode as int, true) && marks_reached(
                self@,
                final(marks)@,
            ) && keeps_marks(old(marks)@, final(marks)@) && mode < old(marks)@.len(),
    {
        if !self.claims(mode) {
            return false;
        }
        marks.set(mode as usize, true);
        true
    }

    /// Whether the operator gets its photons out of the marked modes.
    fn gets_all(&self, c: usize, operator: &MonteCarloOperator, marks: &Vec<bool>) -> (all: bool)
        requires
            self.wf(),
            c < self.operators@.len(),
            self.operators@[c as int] == MonotonicMapCell::Data(*operator),
            marks@.len() == self@.consumers.len(),
        ensures
            all == can_fire(self@, c as int, marked(marks@)),
    {
        let ghost plan = self@;
        let ghost links = operator.node().links;
        assert(plan.cells[c as int] == MonotonicMapCell::Data(operator.node()));
        let n: usize = operator.link_count();
        let mut k: usize = 0;
        while k < n
            invariant
                self.wf(),
                plan == self@,
                c < self.operators@.len(),
                links == operator.node().links,
                links == node_at(plan.cells, c as int).links,
                n == links.len(),
                k <= n,
                marks@.len() == plan.consumers.len(),
                forall|i: int|
                    0 <= i < k ==> {
                        let source = (#[trigger] node_at(plan.cells, c as int).links[i]).source;
                        &&& marked(marks@).contains(source as int)
                        &&& consumed_by(plan, source, c as int)
                        &&& first_source(node_at(plan.cells, c as int).links, source) == i
                    },
            decreases n - k,
        {
            let source: ModeIndex = operator.source_at(k);
            assert(node_at(plan.cells, c as int).links[k as int].source == source);
            let here = match self.consumer(source) {
                None => false,
                Some(d) => d == c && marks[source as usize],
            };
            if !here {
                return false;
            }
            let mut i: usize = 0;
            while i < k
                invariant
                    plan == self@,
                    links == operator.node().links,
                    n == links.len(),
                    i <= k < n,
                    source == links[k as int].source,
                    links == node_at(plan.cells, c as int).links,
                    forall|h: int| 0 <= h < i ==> (#[trigger] links[h]).source != source,
                decreases k - i,
            {
                if operator.source_at(i) == source {
                    proof {
                        assert(links[i as int].source == source);
                        lemma_first_source(links, source);
                        assert(node_at(plan.cells, c as int).links[k as int].source == source);
                    }
                    return false;
                }
                i += 1;
            }
            proof {
                assert(links[k as int].source == source);
                lemma_first_source(links, source);
            }
            k += 1;
        }
        true
    }

    /// Marks where the operator leads to. None where photons find no operator there; else
    /// whether there was a new mark.
    fn mark_exits(&self, c: usize, operator: &MonteCarloOperator, marks: &mut Vec<bool>) -> (grown:
        Option<bool>)
        requires
            self.wf(),
            c < self.operators@.len(),
            self.operators@[c as int] == MonotonicMapCell::Data(*operator),
            marks_reached(self@, old(marks)@),
            can_fire(self@, c as int, marked(old(marks)@)),
        ensures
            grown is None ==> !comes_to_an_end(self@),
            grown matches Some(g) ==> {
                &&& marks_reached(self@, final(marks)@)
                &&& keeps_marks(old(marks)@, final(marks)@)
                &&& g == (final(marks)@ != old(marks)@)
                &&& is_closed_at(self@, final(marks)@, c as int)
            },
    {
        let ghost plan = self@;
        let ghost node = operator.node();
        let ghost start = marks@;
        assert(plan.cells[c as int] == MonotonicMapCell::Data(node));
        let n: usize = operator.link_count();
        let exits: usize = operator.exit_count();
        let mut grown = false;
        let mut k: usize = 0;
        while k < n
            invariant
                self.wf(),
                plan == self@,
                node == operator.node(),
                c < plan.cells.len(),
                plan.cells[c as int] == MonotonicMapCell::Data(node),
                n == node.links.len(),
                k <= n,
                forall|i: int| 0 <= i < n ==> (#[trigger] node.links[i]).sinks.len() == exits,
                marks_reached(plan, start),
                can_fire(plan, c as int, marked(start)),
                marks_reached(plan, marks@),
                keeps_marks(start, marks@),
                grown == (marks@ != start),
                forall|l: int, h: int|
                    0 <= l < k && 0 <= h < exits ==> marked(marks@).contains(
                        #[trigger] node.links[l].sinks[h] as int,
                    ),
            decreases n - k,
        {
            let mut j: usize = 0;
            while j < exits
                invariant
                    self.wf(),
                    plan == self@,
                    node == operator.node(),
                    c < plan.cells.len(),
                    plan.cells[c as int] == MonotonicMapCell::Data(node),
                    n == node.links.len(),
                    k < n,
                    j <= exits,
                    forall|i: int| 0 <= i < n ==> (#[trigger] node.links[i]).sinks.len() == exits,
                    marks_reached(plan, start),
                    can_fire(plan, c as int, marked(start)),
                    marks_reached(plan, marks@),
                    keeps_marks(start, marks@),
                    grown == (marks@ != start),
                    forall|l: int, h: int|
                        (0 <= l < k && 0 <= h < exits) || (l == k && 0 <= h < j) ==> marked(
                            marks@,
                        ).contains(#[trigger] node.links[l].sinks[h] as int),
                decreases exits - j,
            {
                assert(node.links[k as int].sinks.len() == exits);
                let mode: ModeIndex = operator.sink_at(k, j);
                proof {
                    lemma_exit_is_reached(plan, start, c as int, k as int, j as int);
                }
                let ghost before = marks@;
                let m: usize = mode as usize;
                let was_marked = m < marks.len() && marks[m];
                if !self.mark(mode, marks) {
                    return None;
                }
                proof {
                    if was_marked {
                        assert(marks@ =~= before);
                    } else {
                        assert(marks@[mode as int] != before[mode as int]);
                        assert(marks@ != start) by {
                            if start[mode as int] {
                                assert(before[mode as int]);
                            }
                        }
                    }
                    assert forall|l: int, h: int|
                        (0 <= l < k && 0 <= h < exits) || (l == k && 0 <= h < j + 1) implies marked(
                        marks@,
                    ).contains(#[trigger] node.links[l].sinks[h] as int) by {
                        if !(l == k && h == j) {
                            assert(marked(before).contains(node.links[l].sinks[h] as int));
                        }
                    }
                }
                if !was_marked {
                    grown = true;
                }
                j += 1;
            }
            k += 1;
        }
        Some(grown)
    }

    /// Marks, operator by operator, where those that get their photons lead to. None where
    /// photons find no operator; else whether there was a new mark.
    fn mark_round(&self, marks: &mut Vec<bool>) -> (grown: Option<bool>)
        requires
            self.wf(),
            marks_reached(self@, old(marks)@),
        ensures
            grown is None ==> !comes_to_an_end(self@),
            grown matches Some(g) ==> {
                &&& marks_reached(self@, final(marks)@)
                &&& keeps_marks(old(marks)@, final(marks)@)
                &&& g ==> final(marks)@ != old(marks)@
                &&& !g ==> final(marks)@ == old(marks)@ && forall|c: int|
                    0 <= c < self@.cells.len() ==> #[trigger] is_closed_at(
                        self@,
                        final(marks)@,
                        c,
                    )
            },
    {
        let ghost plan = self@;
        let ghost start = marks@;
        let n: usize = self.operators.len();
        let mut grown = false;
        let mut c: usize = 0;
        while c < n
            invariant
                self.wf(),
                plan == self@,
                n == self.operators@.len(),
                n == plan.cells.len(),
                c <= n,
                marks_reached(plan, marks@),
                keeps_marks(start, marks@),
                grown ==> marks@ != start,
                !grown ==> marks@ == start && forall|d: int|
                    0 <= d < c ==> #[trigger] is_closed_at(plan, marks@, d),
            decreases n - c,
        {
            let ghost before = marks@;
            match self.operators.at(c) {
                MonotonicMapCell::Data(operator) => {
                    assert(plan.cells[c as int] == MonotonicMapCell::Data(operator.node()));
                    if self.gets_all(c, operator, marks) {
                        match self.mark_exits(c, operator, marks) {
                            None => {
                                return None;
                            },
                            Some(more) => {
                                proof {
                                    if grown || more {
                                        lemma_unmarked(start, before);
                                        lemma_unmarked(before, marks@);
                                    }
                                }
                                grown = grown || more;
                            },
                        }
                    }
                },
                MonotonicMapCell::Moved(_) => {
                    assert(plan.cells[c as int] is Moved);
                },
            }
            assert(keeps_marks(start, marks@)) by {
                assert forall|m: int| 0 <= m < start.len() && #[trigger] start[m] implies marks@[m] by {
                    assert(before[m]);
                }
            }
            c += 1;
        }
        Some(grown)
    }

    /// The modes that photons reach, if each of them has an operator.
    fn find_reached(&self) -> (found: Option<Vec<bool>>)
        requires
            self.wf(),
        ensures
            found is None ==> !comes_to_an_end(self@),
            found matches Some(marks) ==> marks_reached(self@, marks@) && forall|m: int| #[trigger]
                is_reached(self@, m) <==> marked(marks@).contains(m),
    {
        let ghost plan = self@;
        let mut marks: Vec<bool> = vec![false; self.mode_operator_map.len()];
        let mut i: usize = 0;
        proof {
            lemma_reached_is_closed(plan);
        }
        while i < self.active_modes.len()
            invariant
                self.wf(),
                plan == self@,
                i <= self.active_modes@.len(),
                is_closed(plan, reached(plan)),
                forall|m: int| #[trigger] reached(plan).contains(m) <==> is_reached(plan, m),
                marks_reached(plan, marks@),
                forall|k: int|
                    0 <= k < i ==> marked(marks@).contains((#[trigger] plan.emitted[k]).0 as int),
            decreases self.active_modes@.len() - i,
        {
            let mode: ModeIndex = self.active_modes[i].0;
            assert(reached(plan).contains(plan.emitted[i as int].0 as int));
            let ghost before = marks@;
            if !self.mark(mode, &mut marks) {
                return None;
            }
            assert forall|k: int| 0 <= k < i + 1 implies marked(marks@).contains(
                (#[trigger] plan.emitted[k]).0 as int,
            ) by {
                if k < i {
                    assert(marked(before).contains(plan.emitted[k].0 as int));
                }
            }
            i += 1;
        }
        loop
            invariant
                self.wf(),
                plan == self@,
                marks_reached(plan, marks@),
                forall|k: int|
                    0 <= k < plan.emitted.len() ==> marked(marks@).contains(
                        (#[trigger] plan.emitted[k]).0 as int,
                    ),
            decreases unmarked(marks@),
        {
            let ghost before = marks@;
            match self.mark_round(&mut marks) {
                None => {
                    return None;
                },
                Some(grown) => {
                    if !grown {
                        proof {
                            assert(is_closed(plan, marked(marks@))) by {
                                assert forall|c: int, k: int, j: int|
                                    0 <= c < plan.cells.len() && plan.cells[c] is Data && can_fire(
                                        plan,
                                        c,
                                        marked(marks@),
                                    ) && 0 <= k < node_at(plan.cells, c).links.len() && 0 <= j
                                        < node_at(plan.cells, c).links[k].sinks.len() implies marked(
                                    marks@,
                                ).contains(
                                    #[trigger] node_at(plan.cells, c).links[k].sinks[j] as int,
                                ) by {
                                    assert(is_closed_at(plan, marks@, c));
                                }
                            }
                            assert forall|m: int| #[trigger] is_reached(plan, m) <==> marked(
                                marks@,
                            ).contains(m) by {
                                if marked(marks@).contains(m) {
                                    assert(marks@[m]);
                                }
                            }
                        }
                        return Some(marks);
                    }
                    proof {
                        lemma_unmarked(before, marks@);
                        assert forall|k: int| 0 <= k < plan.emitted.len() implies marked(
                            marks@,
                        ).contains((#[trigger] plan.emitted[k]).0 as int) by {
                            assert(marked(before).contains(plan.emitted[k].0 as int));
                            assert(before[plan.emitted[k].0 as int]);
                        }
                    }
                },
            }
        }
    }

    /// Whether the one operator feeds the other.
    fn feeds(&self, d: usize, c: usize) -> (fed: bool)
        requires
            self.wf(),
            d < self@.cells.len(),
            c < self@.cells.len(),
            self@.cells[d as int] is Data,
            self@.cells[c as int] is Data,
        ensures
            fed == feeds(self@, d as int, c as int),
    {
        let ghost plan = self@;
        match (self.operators.at(d), self.operators.at(c)) {
            (MonotonicMapCell::Data(from), MonotonicMapCell::Data(to)) => {
                assert(plan.cells[d as int] == MonotonicMapCell::Data(from.node()));
                assert(plan.cells[c as int] == MonotonicMapCell::Data(to.node()));
                let n: usize = to.link_count();
                let mut k: usize = 0;
                while k < n
                    invariant
                        plan == self@,
                        n == to.node().links.len(),
                        k <= n,
                        node_at(plan.cells, c as int) == to.node(),
                        node_at(plan.cells, d as int) == from.node(),
                        forall|i: int|
                            0 <= i < k ==> !has_exit(
                                node_at(plan.cells, d as int),
                                (#[trigger] node_at(plan.cells, c as int).links[i]).source,
                            ),
                    decreases n - k,
                {
                    if find_exit(from, to.source_at(k)) {
                        assert(has_exit(
                            node_at(plan.cells, d as int),
                            node_at(plan.cells, c as int).links[k as int].source,
                        ));
                        return true;
                    }
                    k += 1;
                }
                false
            },
            _ => {
                assert(false);
                false
            },
        }
    }

    /// The next operator that is not yet in the order and that none outside of it feeds.
    fn next_in_order(&self, waiting: &Vec<bool>) -> (next: Option<usize>)
        requires
            self.wf(),
            waiting@.len() == self@.cells.len(),
            forall|c: int| 0 <= c < waiting@.len() && #[trigger] waiting@[c] ==> fires(self@, c),
        ensures
            next matches Some(c) ==> c < waiting@.len() && waiting@[c as int] && forall|d: int|
                0 <= d < waiting@.len() && #[trigger] waiting@[d] ==> !feeds(self@, d, c as int),
            next is None ==> forall|c: int| #[trigger]
                marked(waiting@).contains(c) ==> is_fed_by(self@, marked(waiting@), c),
    {
        let ghost plan = self@;
        let n: usize = waiting.len();
        let mut c: usize = 0;
        while c < n
            invariant
                self.wf(),
                plan == self@,
                n == waiting@.len(),
                n == plan.cells.len(),
                c <= n,
                forall|e: int| 0 <= e < waiting@.len() && #[trigger] waiting@[e] ==> fires(plan, e),
                forall|e: int|
                    0 <= e < c && #[trigger] marked(waiting@).contains(e) ==> is_fed_by(
                        plan,
                        marked(waiting@),
                        e,
                    ),
            decreases n - c,
        {
            if waiting[c] {
                assert(fires(plan, c as int));
                let mut d: usize = 0;
                let mut fed = false;
                while d < n
                    invariant
                        self.wf(),
                        plan == self@,
                        n == waiting@.len(),
                        n == plan.cells.len(),
                        c < n,
                        d <= n,
                        plan.cells[c as int] is Data,
                        forall|e: int|
                            0 <= e < waiting@.len() && #[trigger] waiting@[e] ==> fires(plan, e),
                        fed ==> is_fed_by(plan, marked(waiting@), c as int),
                        !fed ==> forall|e: int|
                            0 <= e < d && #[trigger] waiting@[e] ==> !feeds(plan, e, c as int),
                    decreases n - d,
                {
                    if waiting[d] {
                        assert(fires(plan, d as int));
                        if self.feeds(d, c) {
                            proof {
                                lemma_is_fed(plan, marked(waiting@), d as int, c as int);
                            }
                            fed = true;
                        }
                    }
                    d += 1;
                }
                if !fed {
                    return Some(c);
                }
            }
            c += 1;
        }
        None
    }

    /// Whether the operators that get their photons can be put in order.
    fn has_order(&self, marks: &Vec<bool>) -> (ordered: bool)
        requires
            self.wf(),
            marks_reached(self@, marks@),
            forall|m: int| #[trigger] is_reached(self@, m) <==> marked(marks@).contains(m),
        ensures
            ordered == exists|depth: spec_fn(int) -> nat| leads_on(self@, depth),
    {
        let ghost plan = self@;
        let n: usize = self.operators.len();
        let mut waiting: Vec<bool> = Vec::new();
        let mut c: usize = 0;
        proof {
            lemma_reached_is_closed(plan);
            assert(marked(marks@) =~= reached(plan));
        }
        while c < n
            invariant
                self.wf(),
                plan == self@,
                n == self.operators@.len(),
                n == plan.cells.len(),
                c <= n,
                marks@.len() == plan.consumers.len(),
                marked(marks@) == reached(plan),
                waiting@.len() == c,
                forall|d: int| 0 <= d < c ==> #[trigger] waiting@[d] == fires(plan, d),
            decreases n - c,
        {
            let gets = match self.operators.at(c) {
                MonotonicMapCell::Data(operator) => {
                    assert(plan.cells[c as int] == MonotonicMapCell::Data(operator.node()));
                    self.gets_all(c, operator, marks)
                },
                MonotonicMapCell::Moved(_) => {
                    assert(plan.cells[c as int] is Moved);
                    false
                },
            };
            waiting.push(gets);
            c += 1;
        }
        let ghost mut order: Seq<int> = seq![];
        let mut left: usize = n;
        loop
            invariant
                self.wf(),
                plan == self@,
                n == plan.cells.len(),
                waiting@.len() == n,
                is_order(plan, order),
                order.len() + left == n,
                forall|d: int|
                    0 <= d < n ==> #[trigger] waiting@[d] == (fires(plan, d) && !order.contains(d)),
            decreases left,
        {
            match self.next_in_order(&waiting) {
                Some(c) => {
                    proof {
                        lemma_one_more_in_order(plan, order, waiting@, c as int);
                        lemma_order_fits(plan, order.push(c as int));
                    }
                    waiting.set(c, false);
                    proof {
                        let longer = order.push(c as int);
                        assert forall|d: int| 0 <= d < n implies #[trigger] waiting@[d] == (fires(
                            plan,
                            d,
                        ) && !longer.contains(d)) by {
                            assert(longer[order.len() as int] == c as int);
                            if order.contains(d) {
                                assert(longer[order.index_of(d)] == d);
                            }
                            if longer.contains(d) && d != c as int {
                                assert(order[longer.index_of(d)] == d);
                            }
                        }
                        order = longer;
                    }
                    left -= 1;
                },
                None => {
                    let mut c: usize = 0;
                    while c < n
                        invariant
                            plan == self@,
                            n == waiting@.len(),
                            n == plan.cells.len(),
                            c <= n,
                            is_order(plan, order),
                            forall|d: int|
                                0 <= d < n ==> #[trigger] waiting@[d] == (fires(plan, d)
                                    && !order.contains(d)),
                            forall|e: int| #[trigger]
                                marked(waiting@).contains(e) ==> is_fed_by(
                                    plan,
                                    marked(waiting@),
                                    e,
                                ),
                            forall|d: int| 0 <= d < c ==> !(#[trigger] waiting@[d]),
                        decreases n - c,
                    {
                        if waiting[c] {
                            proof {
                                assert(marked(waiting@).contains(c as int));
                                assert forall|e: int| #[trigger]
                                    marked(waiting@).contains(e) implies fires(plan, e)
                                    && is_fed_by(plan, marked(waiting@), e) by {
                                    assert(waiting@[e]);
                                }
                                lemma_no_order(plan, marked(waiting@), c as int);
                            }
                            return false;
                        }
                        c += 1;
                    }
                    proof {
                        assert forall|d: int| #[trigger] fires(plan, d) implies order.contains(
                            d,
                        ) by {
                            assert(!waiting@[d]);
                        }
                        lemma_order_leads_on(plan, order);
                    }
                    return true;
                },
            }
        }
    }

    /// Whether the course of the photons comes to an end, however the draws fall.
    pub fn comes_to_an_end(&self) -> (ends: bool)
        requires
            self.wf(),
        ensures
            ends == comes_to_an_end(self@),
    {
        match self.find_reached() {
            None => false,
            Some(marks) => {
                proof {
                    assert forall|m: int| #[trigger] is_reached(self@, m) implies 0 <= m
                        <= u16::MAX && is_claimed(self@, m as ModeIndex) by {
                        assert(marked(marks@).contains(m));
                        assert(marks@[m]);
                    }
                }
                self.has_order(&marks)
            },
        }
    }
}

/// An operator that no waiting one feeds can come next.
proof fn lemma_one_more_in_order(plan: PlanView, order: Seq<int>, waiting: Seq<bool>, c: int)
    requires
        is_order(plan, order),
        waiting.len() == plan.cells.len(),
        forall|d: int|
            0 <= d < waiting.len() ==> #[trigger] waiting[d] == (fires(plan, d) && !order.contains(
                d,
            )),
        0 <= c < waiting.len(),
        waiting[c],
        forall|d: int| 0 <= d < waiting.len() && #[trigger] waiting[d] ==> !feeds(plan, d, c),
    ensures
        is_order(plan, order.push(c)),
{
    let longer = order.push(c);
    assert forall|i: int| 0 <= i < longer.len() implies fires(plan, #[trigger] longer[i]) by {
        if i < order.len() {
            assert(longer[i] == order[i]);
        }
    }
    assert forall|i: int, d: int|
        0 <= i < longer.len() && #[trigger] fires(plan, d) && feeds(
            plan,
            d,
            #[trigger] longer[i],
        ) implies longer.take(i).contains(d) by {
        if i < order.len() {
            assert(longer[i] == order[i]);
            assert(longer.take(i) =~= order.take(i));
        } else {
            assert(!waiting[d]);
            assert(longer.take(i) =~= order);
        }
    }
    assert forall|a: int, b: int|
        0 <= a < longer.len() && 0 <= b < longer.len() && a != b implies longer[a]
        != longer[b] by {
        if a < order.len() {
            assert(order.contains(order[a]));
        }
        if b < order.len() {
            assert(order.contains(order[b]));
        }
    }
}

/// There are no more operators in order than cells.
proof fn lemma_order_fits(plan: PlanView, order: Seq<int>)
    requires
        is_order(plan, order),
    ensures
        order.len() <= plan.cells.len(),
{
    let n = plan.cells.len();
    let all = vstd::set_lib::set_int_range(0, n as int);
    vstd::set_lib::lemma_int_range(0, n as int);
    order.unique_seq_to_set();
    assert(order.to_set().subset_of(all)) by {
        assert forall|p: int| order.to_set().contains(p) implies all.contains(p) by {
            let i = order.index_of(p);
            assert(fires(plan, order[i]));
        }
    }
    vstd::set_lib::lemma_len_subset(order.to_set(), all);
}

} // verus!
