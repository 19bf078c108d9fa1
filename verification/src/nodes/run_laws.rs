//! What holds of the whole run of a node.

use vstd::prelude::*;

use crate::nodes::control::{
    action_of, comes_first, first_of, is_due, RunnerAction, RunnerPhase, RunnerView,
    TimedControlEvent,
};
use crate::types::Time;

verus! {

/// What happens in the run of a node.
pub ghost enum RunStep<S, C> {
    /// The node is told of an event.
    Told(TimedControlEvent<S, C>),
    /// The node asks what to do, and does it.
    Acted(RunnerAction<S, C>),
    /// The node sets its clock while it works.
    Clock(Time),
}

/// A node that was just made.
pub open spec fn newborn<S, C>() -> RunnerView<S, C> {
    RunnerView { events: seq![], time: 0, phase: RunnerPhase::Waiting }
}

/// The node after a step.
pub open spec fn stepped<S, C>(node: RunnerView<S, C>, step: RunStep<S, C>) -> RunnerView<S, C> {
    match step {
        RunStep::Told(event) => node.told(event),
        RunStep::Acted(_) => node.next().0,
        RunStep::Clock(time) => RunnerView { time, ..node },
    }
}

/// The node after the steps.
pub open spec fn node_after<S, C>(steps: Seq<RunStep<S, C>>) -> RunnerView<S, C>
    decreases steps.len(),
{
    if steps.len() == 0 {
        newborn()
    } else {
        stepped(node_after(steps.drop_last()), steps.last())
    }
}

/// Every action is the one that is next, and only a node that runs sets its clock.
pub open spec fn is_run<S, C>(steps: Seq<RunStep<S, C>>) -> bool
    decreases steps.len(),
{
    steps.len() > 0 ==> {
        let node = node_after(steps.drop_last());
        &&& is_run(steps.drop_last())
        &&& match steps.last() {
            RunStep::Told(_) => true,
            RunStep::Acted(action) => action == node.next().1,
            RunStep::Clock(_) => node.phase is Running,
        }
    }
}

/// The node has been told to start.
pub open spec fn was_started<S, C>(steps: Seq<RunStep<S, C>>) -> bool {
    exists|k: int| 0 <= k < steps.len() && is_start(#[trigger] steps[k])
}

pub open spec fn is_start<S, C>(step: RunStep<S, C>) -> bool {
    step matches RunStep::Told(e) && e.event is Start
}

/// The node stopped, or failed for a second start.
pub open spec fn has_ended<S, C>(steps: Seq<RunStep<S, C>>) -> bool {
    exists|k: int| 0 <= k < steps.len() && is_end(#[trigger] steps[k])
}

pub open spec fn is_end<S, C>(step: RunStep<S, C>) -> bool {
    step matches RunStep::Acted(a) && (a is Stop || a is DoubleStart)
}

/// The node has been told of that event.
pub open spec fn was_told<S, C>(
    steps: Seq<RunStep<S, C>>,
    event: TimedControlEvent<S, C>,
) -> bool {
    steps.contains(RunStep::Told(event))
}

proof fn lemma_front<S, C>(steps: Seq<RunStep<S, C>>)
    requires
        steps.len() > 0,
    ensures
        was_started(steps) <==> was_started(steps.drop_last()) || is_start(steps.last()),
        has_ended(steps) <==> has_ended(steps.drop_last()) || is_end(steps.last()),
        forall|e: TimedControlEvent<S, C>| #[trigger]
            was_told(steps.drop_last(), e) ==> was_told(steps, e),
        steps.last() matches RunStep::Told(e) ==> was_told(steps, e),
{
    let rest = steps.drop_last();
    let last = steps.len() - 1;
    assert(steps[last] == steps.last());
    if was_started(rest) {
        let k = choose|k: int| 0 <= k < rest.len() && is_start(#[trigger] rest[k]);
        assert(is_start(steps[k]));
    }
    if was_started(steps) {
        let k = choose|k: int| 0 <= k < steps.len() && is_start(#[trigger] steps[k]);
        if k < last {
            assert(is_start(rest[k]));
        }
    }
    if has_ended(rest) {
        let k = choose|k: int| 0 <= k < rest.len() && is_end(#[trigger] rest[k]);
        assert(is_end(steps[k]));
    }
    if has_ended(steps) {
        let k = choose|k: int| 0 <= k < steps.len() && is_end(#[trigger] steps[k]);
        if k < last {
            assert(is_end(rest[k]));
        }
    }
    assert forall|e: TimedControlEvent<S, C>| #[trigger] was_told(rest, e) implies was_told(
        steps,
        e,
    ) by {
        let k = rest.index_of(RunStep::Told(e));
        assert(steps[k] == rest[k]);
    }
}

/// An event that waits.
proof fn lemma_some_first<S, C>(events: Seq<TimedControlEvent<S, C>>)
    requires
        events.len() > 0,
    ensures
        comes_first(events, first_of(events)),
    decreases events.len(),
{
    let rest = events.drop_last();
    let last = events.len() - 1;
    if rest.len() == 0 {
        assert(comes_first(events, 0));
    } else {
        lemma_some_first(rest);
        let i = first_of(rest);
        if events[last].time < rest[i].time {
            assert forall|k: int| 0 <= k < events.len() implies (#[trigger] events[k]).time
                >= events[last].time && (k < last ==> events[k].time > events[last].time) by {
                if k < last {
                    assert(rest[k].time >= rest[i].time);
                }
            }
            assert(comes_first(events, last));
        } else {
            assert forall|k: int| 0 <= k < events.len() implies (#[trigger] events[k]).time
                >= events[i].time && (k < i ==> events[k].time > events[i].time) by {
                if k < last {
                    assert(rest[k].time >= rest[i].time);
                }
            }
            assert(comes_first(events, i));
        }
    }
}

/// What the phase says of the steps so far, and that all that waits was told.
proof fn lemma_phase<S, C>(steps: Seq<RunStep<S, C>>)
    requires
        is_run(steps),
    ensures
        ({
            let node = node_after(steps);
            &&& node.phase is Waiting <==> !was_started(steps)
            &&& node.phase is Ended <==> has_ended(steps)
            &&& forall|i: int|
                0 <= i < node.events.len() ==> was_told(steps, #[trigger] node.events[i])
        }),
    decreases steps.len(),
{
    if steps.len() > 0 {
        let rest = steps.drop_last();
        let before = node_after(rest);
        let node = node_after(steps);
        lemma_phase(rest);
        lemma_front(steps);
        if steps.last() is Acted && before.phase is Running && is_due(before.events, before.time) {
            lemma_some_first(before.events);
        }
        assert forall|i: int| 0 <= i < node.events.len() implies was_told(
            steps,
            #[trigger] node.events[i],
        ) by {
            if i < before.events.len() {
                assert(was_told(rest, before.events[i]));
            }
            if i + 1 < before.events.len() {
                assert(was_told(rest, before.events[i + 1]));
            }
        }
    }
}

/// The event says what to do, its time has come, and none that waits is earlier.
pub open spec fn is_called_for<S, C>(
    node: RunnerView<S, C>,
    event: TimedControlEvent<S, C>,
    action: RunnerAction<S, C>,
) -> bool {
    &&& action == action_of(event.event)
    &&& event.time <= node.time
    &&& node.events.contains(event)
    &&& forall|i: int|
        0 <= i < node.events.len() ==> event.time <= (#[trigger] node.events[i]).time
}

/// Over the whole run of a node: it waits until it is told to start. From then on it acts on
/// events that it was told of, each once its time has come and the earliest first; it
/// processes a batch only where no event is due. Once it has stopped, or was started again,
/// it does nothing more.
pub proof fn a_node_keeps_to_its_events<S, C>(steps: Seq<RunStep<S, C>>, k: int)
    requires
        is_run(steps),
        0 <= k < steps.len(),
        steps[k] is Acted,
    ensures
        ({
            let before = steps.take(k);
            let node = node_after(before);
            let action = steps[k]->Acted_0;
            &&& action is Wait <==> !was_started(before)
            &&& has_ended(before) ==> action is Stop
            &&& action is ProcessBatch <==> was_started(before) && !has_ended(before) && forall|
                i: int,
            |
                0 <= i < node.events.len() ==> (#[trigger] node.events[i]).time > node.time
            &&& !(action is Wait) && !(action is ProcessBatch) && !has_ended(before)
                ==> exists|event: TimedControlEvent<S, C>| #[trigger]
                was_told(before, event) && is_called_for(node, event, action)
        }),
    decreases steps.len(),
{
    let before = steps.take(k);
    let node = node_after(before);
    let action = steps[k]->Acted_0;
    if k < steps.len() - 1 {
        assert(steps.drop_last().take(k) =~= before);
        a_node_keeps_to_its_events(steps.drop_last(), k);
    } else {
        assert(steps.drop_last() =~= before);
        lemma_phase(before);
        if node.phase is Running && is_due(node.events, node.time) {
            lemma_some_first(node.events);
            let i = first_of(node.events);
            let event = node.events[i];
            let due = choose|d: int|
                0 <= d < node.events.len() && (#[trigger] node.events[d]).time <= node.time;
            assert(node.events[due].time >= event.time);
            assert(was_told(before, event));
            assert(is_called_for(node, event, action));
        }
    }
}

/// The first start sets the clock.
pub proof fn a_start_sets_the_clock<S, C>(
    steps: Seq<RunStep<S, C>>,
    event: TimedControlEvent<S, C>,
)
    requires
        is_run(steps),
        !was_started(steps),
        event.event is Start,
    ensures
        node_after(steps.push(RunStep::Told(event))).time == event.time,
        node_after(steps.push(RunStep::Told(event))).phase is Running,
{
    lemma_phase(steps);
    assert(steps.push(RunStep::Told(event)).drop_last() =~= steps);
}

/// The events that the node was told to wait with: all but the first start.
pub open spec fn taken_in<S, C>(steps: Seq<RunStep<S, C>>) -> Seq<TimedControlEvent<S, C>>
    decreases steps.len(),
{
    if steps.len() == 0 {
        seq![]
    } else {
        let rest = steps.drop_last();
        match steps.last() {
            RunStep::Told(e) => if node_after(rest).phase is Waiting && e.event is Start {
                taken_in(rest)
            } else {
                taken_in(rest).push(e)
            },
            _ => taken_in(rest),
        }
    }
}

/// The events that the node acted on.
pub open spec fn acted_on<S, C>(steps: Seq<RunStep<S, C>>) -> Seq<TimedControlEvent<S, C>>
    decreases steps.len(),
{
    if steps.len() == 0 {
        seq![]
    } else {
        let rest = steps.drop_last();
        let node = node_after(rest);
        if steps.last() is Acted && node.phase is Running && is_due(node.events, node.time) {
            acted_on(rest).push(node.events[first_of(node.events)])
        } else {
            acted_on(rest)
        }
    }
}

/// No event is lost, and none is acted on twice: each was acted on or still waits.
pub proof fn every_event_is_acted_on_or_waits<S, C>(steps: Seq<RunStep<S, C>>)
    requires
        is_run(steps),
    ensures
        taken_in(steps).to_multiset() =~= acted_on(steps).to_multiset().add(
            node_after(steps).events.to_multiset(),
        ),
    decreases steps.len(),
{
    broadcast use vstd::seq_lib::group_to_multiset_ensures;

    if steps.len() > 0 {
        let rest = steps.drop_last();
        let before = node_after(rest);
        every_event_is_acted_on_or_waits(rest);
        if steps.last() is Acted && before.phase is Running && is_due(before.events, before.time) {
            lemma_some_first(before.events);
            let i = first_of(before.events);
            assert(before.events.contains(before.events[i]));
            assert(before.events.remove(i).to_multiset() =~= before.events.to_multiset().remove(
                before.events[i],
            ));
        }
    }
}

} // verus!
