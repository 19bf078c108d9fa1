//! Drawing the detector outcomes of an island.

use vstd::prelude::*;

use crate::collapser::circuit::{drawn_split, Chance};
use crate::collapser::course::{
    arrived, comes_to_an_end, is_course, is_outcome, is_ready, released, walk_after, Exits,
};
use crate::collapser::photon::{Node, Photon};
use crate::collapser::plan::{plan_of, CollapsePlan, PlanView};
use crate::collapser::walk::chance_of;
use crate::concurrency::cell::{CollapseResult, WpResult};
use crate::concurrency::operator::{IslandOfInteraction, Operator};

verus! {

/// What a detector that never misses a photon makes of the operator.
pub open spec fn certain_detection(operator: Operator) -> Option<WpResult> {
    match operator {
        Operator::SPD { id, wp_snowflake, time, .. } => Some(
            WpResult::Success { time, spd_id: id, wp_snowflake },
        ),
        _ => None,
    }
}

/// A success for every detector among the operators, in their order.
pub open spec fn certain_detections(operators: Seq<Operator>) -> Seq<WpResult>
    decreases operators.len(),
{
    if operators.len() == 0 {
        seq![]
    } else {
        match certain_detection(operators.last()) {
            Some(outcome) => certain_detections(operators.drop_last()).push(outcome),
            None => certain_detections(operators.drop_last()),
        }
    }
}

/// A stand-in for `collapse` in which every detector clicks.
pub fn mock_collapse(island: &IslandOfInteraction) -> (result: CollapseResult)
    ensures
        result.wf(),
        result@ == certain_detections(island@.operators),
{
    let mut result = CollapseResult::new();
    let ghost operators = island@.operators;
    let n: usize = island.operator_count();
    let mut i: usize = 0;
    assert(operators.take(0) =~= seq![]);
    while i < n
        invariant
            operators == island@.operators,
            n == operators.len(),
            i <= n,
            result.wf(),
            result@ == certain_detections(operators.take(i as int)),
        decreases n - i,
    {
        let operator = island.operator_at(i);
        assert(operators.take(i + 1).drop_last() =~= operators.take(i as int));
        if let Operator::SPD { id, wp_snowflake, time, .. } = operator {
            result.push(WpResult::Success { time, spd_id: id, wp_snowflake });
        }
        i += 1;
    }
    assert(operators.take(n as int) =~= operators);
    result
}

/// `rand::random_ratio`, asked for one in two. Nothing is claimed of the outcome of
/// a draw.
#[verifier::external_body]
fn fair_coin() -> (side: bool) {
    rand::random_ratio(1, 2)
}

/// Draws the outcome of every detector that the photons of the island reach, with
/// the two coins given. `together` gets the bit pattern of the indistinguishability
/// of two packets and says whether their photons leave together.
///
/// There is no outcome where the operators do not make a plan, where photons come into a
/// mode that no operator consumes, or where their way leads back to where they were.
pub fn collapse_with<C: Fn() -> bool, F: Fn(u64) -> bool>(
    island: &IslandOfInteraction,
    coin: &C,
    together: &F,
) -> (result: Option<CollapseResult>)
    requires
        coin.requires(()),
        forall|bits: u64| #[trigger] together.requires((bits,)),
    ensures
        result is Some <==> plan_of(island@) is Some && comes_to_an_end(plan_of(island@)->0),
        result matches Some(r) ==> r.wf() && is_outcome(
            plan_of(island@)->0,
            chance_of(*coin, *together),
            r@,
        ),
{
    match CollapsePlan::build(island) {
        Some(plan) => {
            if plan.comes_to_an_end() {
                Some(plan.walk(coin, together))
            } else {
                None
            }
        },
        None => None,
    }
}

/// `collapse_with` a fair coin for the exits.
pub fn collapse<F: Fn(u64) -> bool>(island: &IslandOfInteraction, together: &F) -> (result: Option<
    CollapseResult,
>)
    requires
        forall|bits: u64| #[trigger] together.requires((bits,)),
    ensures
        result is Some <==> plan_of(island@) is Some && comes_to_an_end(plan_of(island@)->0),
        result matches Some(r) ==> r.wf() && is_outcome(
            plan_of(island@)->0,
            either_side(*together),
            r@,
        ),
{
    let result = collapse_with(island, &fair_coin, together);
    proof {
        if result is Some {
            more_can_happen(
                plan_of(island@)->0,
                chance_of(fair_coin, *together),
                either_side(*together),
                (result->0)@,
            );
        }
    }
    result
}

/// A coin that can fall on either side.
pub open spec fn either_side<F: Fn(u64) -> bool>(together: F) -> Chance {
    Chance {
        coin: |side: bool| true,
        together: |bits: u64, yes: bool| together.ensures((bits,), yes),
    }
}

/// An outcome stays one where the draws can come out in more ways.
pub proof fn more_can_happen(
    plan: PlanView,
    fewer: Chance,
    more: Chance,
    results: Seq<WpResult>,
)
    requires
        is_outcome(plan, fewer, results),
        forall|side: bool| (fewer.coin)(side) ==> #[trigger] (more.coin)(side),
        forall|bits: u64, yes: bool|
            (fewer.together)(bits, yes) ==> #[trigger] (more.together)(bits, yes),
    ensures
        is_outcome(plan, more, results),
{
    let outs = choose|outs: Seq<Exits>| #[trigger]
        is_course(plan, fewer, outs) && walk_after(plan, outs).stack.len() == 0 && walk_after(
            plan,
            outs,
        ).results == results;
    lemma_more_courses(plan, fewer, more, outs);
}

proof fn lemma_more_courses(plan: PlanView, fewer: Chance, more: Chance, outs: Seq<Exits>)
    requires
        is_course(plan, fewer, outs),
        forall|side: bool| (fewer.coin)(side) ==> #[trigger] (more.coin)(side),
        forall|bits: u64, yes: bool|
            (fewer.together)(bits, yes) ==> #[trigger] (more.together)(bits, yes),
    ensures
        is_course(plan, more, outs),
    decreases outs.len(),
{
    if outs.len() > 0 {
        lemma_more_courses(plan, fewer, more, outs.drop_last());
        let s = walk_after(plan, outs.drop_last());
        let node = s.taker(plan);
        if is_ready(node) {
            lemma_more_released(
                fewer,
                more,
                node,
                arrived(node, s.stack.last().1),
                outs.last(),
            );
        }
    }
}

proof fn lemma_more_released(
    fewer: Chance,
    more: Chance,
    node: Node,
    photons: Seq<Photon>,
    out: Exits,
)
    requires
        released(fewer, node, photons, out),
        forall|side: bool| (fewer.coin)(side) ==> #[trigger] (more.coin)(side),
        forall|bits: u64, yes: bool|
            (fewer.together)(bits, yes) ==> #[trigger] (more.together)(bits, yes),
    ensures
        released(more, node, photons, out),
{
    if node.kind is Split || node.kind is Multi {
        assert forall|k: int| 0 <= k < node.links.len() implies drawn_split(
            more,
            #[trigger] photons[k],
            out[2 * k].1,
            out[2 * k + 1].1,
        ) by {
            assert(drawn_split(fewer, photons[k], out[2 * k].1, out[2 * k + 1].1));
        }
    }
}

} // verus!
