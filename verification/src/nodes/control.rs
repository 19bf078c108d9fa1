//! What a node is told to do, and when it does it.

use vstd::prelude::*;

use crate::nodes::ports::{PortView, RxPort, TxPort};
use crate::types::{PortId, Time};

verus! {

pub enum NodeControlEvent<S, CustomControlEvent> {
    Start,
    Stop,
    Connect { exit_port_id: PortId, tx_port: TxPort<S> },
    Custom(CustomControlEvent),
}

impl<S, CustomControlEvent> NodeControlEvent<S, CustomControlEvent> {
    pub fn timed(self, time: Time) -> (timed: TimedControlEvent<S, CustomControlEvent>)
        ensures
            timed == (TimedControlEvent { time, event: self }),
    {
        TimedControlEvent { time, event: self }
    }
}

pub struct TimedControlEvent<S, CustomControlEvent> {
    pub time: Time,
    pub event: NodeControlEvent<S, CustomControlEvent>,
}

/// The event at that place comes first: none is earlier, and those of the same time came
/// to the queue after it.
pub open spec fn comes_first<S, C>(events: Seq<TimedControlEvent<S, C>>, i: int) -> bool {
    &&& 0 <= i < events.len()
    &&& forall|k: int|
        0 <= k < events.len() ==> (#[trigger] events[k]).time >= events[i].time && (k < i
            ==> events[k].time > events[i].time)
}

/// The place of the event that comes first.
pub open spec fn first_of<S, C>(events: Seq<TimedControlEvent<S, C>>) -> int {
    choose|i: int| comes_first(events, i)
}

/// Some event's time has come.
pub open spec fn is_due<S, C>(events: Seq<TimedControlEvent<S, C>>, now: Time) -> bool {
    exists|i: int| 0 <= i < events.len() && (#[trigger] events[i]).time <= now
}

/// Only one event comes first.
pub proof fn lemma_first_of<S, C>(events: Seq<TimedControlEvent<S, C>>, i: int)
    requires
        comes_first(events, i),
    ensures
        first_of(events) == i,
{
    let j = first_of(events);
    assert(comes_first(events, j));
    assert(events[i].time >= events[j].time && events[j].time >= events[i].time);
}

/// Events leave the queue in the order of their times, and those of one time in the order
/// in which they came.
pub proof fn events_leave_in_order<S, C>(
    events: Seq<TimedControlEvent<S, C>>,
    first: int,
    second: int,
)
    requires
        comes_first(events, first),
        comes_first(events.remove(first), second),
    ensures
        events[first].time <= events.remove(first)[second].time,
        events[first].time == events.remove(first)[second].time ==> first <= second,
{
    let rest = events.remove(first);
    let place = if second < first {
        second
    } else {
        second + 1
    };
    assert(rest[second] == events[place]);
}

/// Events that wait for their time.
pub struct ControlEventQueue<S, CustomControlEvent> {
    events: Vec<TimedControlEvent<S, CustomControlEvent>>,
}

impl<S, C> View for ControlEventQueue<S, C> {
    type V = Seq<TimedControlEvent<S, C>>;

    closed spec fn view(&self) -> Seq<TimedControlEvent<S, C>> {
        self.events@
    }
}

impl<S, C> ControlEventQueue<S, C> {
    pub fn new() -> (queue: Self)
        ensures
            queue@ == Seq::<TimedControlEvent<S, C>>::empty(),
    {
        Self { events: Vec::new() }
    }

    pub fn push(&mut self, event: TimedControlEvent<S, C>)
        ensures
            final(self)@ == old(self)@.push(event),
    {
        self.events.push(event);
    }

    pub fn len(&self) -> (n: usize)
        ensures
            n == self@.len(),
    {
        self.events.len()
    }

    /// Takes out the event that comes first, if its time has come.
    pub fn pop_due(&mut self, now: Time) -> (event: Option<TimedControlEvent<S, C>>)
        ensures
            event is Some <==> is_due(old(self)@, now),
            event is None ==> final(self)@ == old(self)@,
            event matches Some(e) ==> {
                let i = first_of(old(self)@);
                &&& comes_first(old(self)@, i)
                &&& e == old(self)@[i]
                &&& e.time <= now
                &&& final(self)@ == old(self)@.remove(i)
            },
    {
        let n: usize = self.events.len();
        if n == 0 {
            return None;
        }
        let mut index: usize = 0;
        let mut i: usize = 1;
        while i < n
            invariant
                n == self@.len(),
                self@ == old(self)@,
                index < i <= n,
                forall|k: int|
                    0 <= k < i ==> (#[trigger] self@[k]).time >= self@[index as int].time && (k
                        < index ==> self@[k].time > self@[index as int].time),
            decreases n - i,
        {
            if self.events[i].time < self.events[index].time {
                index = i;
            }
            i += 1;
        }
        proof {
            assert(comes_first(self@, index as int));
            lemma_first_of(self@, index as int);
        }
        if self.events[index].time <= now {
            assert(is_due(self@, now));
            Some(self.events.remove(index))
        } else {
            None
        }
    }
}

/// How far the life of a node has come.
#[derive(Clone, Copy, Debug, PartialEq, Eq, Structural)]
pub enum RunnerPhase {
    /// It waits to be started.
    Waiting,
    Running,
    /// It was stopped, or started again.
    Ended,
}

/// What a node has to do next.
pub enum RunnerAction<S, CustomControlEvent> {
    /// To wait for an event.
    Wait,
    Connect { exit_port_id: PortId, tx_port: TxPort<S> },
    Custom(CustomControlEvent),
    ProcessBatch,
    Stop,
    /// A node can be started once.
    DoubleStart,
}

/// What becomes of an event whose time has come.
pub open spec fn action_of<S, C>(event: NodeControlEvent<S, C>) -> RunnerAction<S, C> {
    match event {
        NodeControlEvent::Start => RunnerAction::DoubleStart,
        NodeControlEvent::Stop => RunnerAction::Stop,
        NodeControlEvent::Connect { exit_port_id, tx_port } => RunnerAction::Connect {
            exit_port_id,
            tx_port,
        },
        NodeControlEvent::Custom(custom_event) => RunnerAction::Custom(custom_event),
    }
}

/// The clock of no port is further behind than that of this one, and those before it are
/// further ahead.
pub open spec fn is_youngest(ports: Seq<RxPort>, index: int) -> bool {
    &&& 0 <= index < ports.len()
    &&& forall|k: int|
        0 <= k < ports.len() ==> (#[trigger] ports[k])@.current_time >= ports[index]@.current_time
            && (k < index ==> ports[k]@.current_time > ports[index]@.current_time)
}

/// The events that wait, the clock and the phase of a node.
#[verifier::ext_equal]
pub struct RunnerView<S, C> {
    pub events: Seq<TimedControlEvent<S, C>>,
    pub time: Time,
    pub phase: RunnerPhase,
}

impl<S, C> RunnerView<S, C> {
    /// The node is told of an event. The first start sets its clock; all else waits.
    pub open spec fn told(self, event: TimedControlEvent<S, C>) -> RunnerView<S, C> {
        if self.phase is Waiting && event.event is Start {
            RunnerView { time: event.time, phase: RunnerPhase::Running, ..self }
        } else {
            RunnerView { events: self.events.push(event), ..self }
        }
    }

    /// What the node does next, and what becomes of it: what the first event says whose
    /// time has come, or else to process a batch. A node that is not running does nothing.
    pub open spec fn next(self) -> (RunnerView<S, C>, RunnerAction<S, C>) {
        match self.phase {
            RunnerPhase::Waiting => (self, RunnerAction::Wait),
            RunnerPhase::Ended => (self, RunnerAction::Stop),
            RunnerPhase::Running => if is_due(self.events, self.time) {
                let i = first_of(self.events);
                let event = self.events[i].event;
                (
                    RunnerView {
                        events: self.events.remove(i),
                        phase: if event is Stop || event is Start {
                            RunnerPhase::Ended
                        } else {
                            RunnerPhase::Running
                        },
                        ..self
                    },
                    action_of(event),
                )
            } else {
                (self, RunnerAction::ProcessBatch)
            },
        }
    }
}

/// The ports, the events that wait, the clock and the phase of a node.
pub struct RunnerState<S, CustomControlEvent> {
    pub rx_ports: Vec<RxPort>,
    pub control_event_queue: ControlEventQueue<S, CustomControlEvent>,
    pub time: Time,
    pub phase: RunnerPhase,
}

impl<S, C> View for RunnerState<S, C> {
    type V = RunnerView<S, C>;

    open spec fn view(&self) -> RunnerView<S, C> {
        RunnerView {
            events: self.control_event_queue@,
            time: self.time,
            phase: self.phase,
        }
    }
}

impl<S, C> RunnerState<S, C> {
    pub fn new(rx_port_count: usize) -> (state: Self)
        ensures
            state.rx_ports@.len() == rx_port_count,
            forall|i: int|
                0 <= i < rx_port_count ==> (#[trigger] state.rx_ports@[i]).wf()
                    && state.rx_ports@[i]@ == (PortView {
                    period_start: 0,
                    period_end: 0,
                    pending: seq![],
                    current_time: 0,
                }),
            state@ == (RunnerView {
                events: Seq::<TimedControlEvent<S, C>>::empty(),
                time: 0,
                phase: RunnerPhase::Waiting,
            }),
    {
        let mut rx_ports: Vec<RxPort> = Vec::new();
        while rx_ports.len() < rx_port_count
            invariant
                rx_ports@.len() <= rx_port_count,
                forall|i: int|
                    0 <= i < rx_ports@.len() ==> (#[trigger] rx_ports@[i]).wf() && rx_ports@[i]@
                        == (PortView {
                        period_start: 0,
                        period_end: 0,
                        pending: seq![],
                        current_time: 0,
                    }),
            decreases rx_port_count - rx_ports@.len(),
        {
            rx_ports.push(RxPort::new());
        }
        Self {
            rx_ports,
            control_event_queue: ControlEventQueue::new(),
            time: 0,
            phase: RunnerPhase::Waiting,
        }
    }

    /// The port whose clock is furthest behind, and the first of those.
    pub fn youngest_port(&self) -> (index: usize)
        requires
            self.rx_ports@.len() > 0,
        ensures
            is_youngest(self.rx_ports@, index as int),
    {
        let n: usize = self.rx_ports.len();
        let mut index: usize = 0;
        let mut i: usize = 1;
        while i < n
            invariant
                n == self.rx_ports@.len(),
                index < i <= n,
                forall|k: int|
                    0 <= k < i ==> (#[trigger] self.rx_ports@[k])@.current_time
                        >= self.rx_ports@[index as int]@.current_time && (k < index
                        ==> self.rx_ports@[k]@.current_time
                        > self.rx_ports@[index as int]@.current_time),
            decreases n - i,
        {
            if self.rx_ports[i].current_time() < self.rx_ports[index].current_time() {
                index = i;
            }
            i += 1;
        }
        index
    }

    /// Tells the node of an event: all wait for their time, but that the first start sets
    /// the clock and lets the node run.
    pub fn tell(&mut self, event: TimedControlEvent<S, C>)
        ensures
            final(self).rx_ports == old(self).rx_ports,
            final(self)@ == old(self)@.told(event),
    {
        match (self.phase, &event.event) {
            (RunnerPhase::Waiting, NodeControlEvent::Start) => {
                self.time = event.time;
                self.phase = RunnerPhase::Running;
            },
            _ => {
                self.control_event_queue.push(event);
            },
        }
    }

    /// What the node has to do next.
    pub fn next_action(&mut self) -> (action: RunnerAction<S, C>)
        ensures
            final(self).rx_ports == old(self).rx_ports,
            (final(self)@, action) == old(self)@.next(),
    {
        match self.phase {
            RunnerPhase::Waiting => RunnerAction::Wait,
            RunnerPhase::Ended => RunnerAction::Stop,
            RunnerPhase::Running => match self.control_event_queue.pop_due(self.time) {
                None => RunnerAction::ProcessBatch,
                Some(event) => match event.event {
                    NodeControlEvent::Start => {
                        self.phase = RunnerPhase::Ended;
                        RunnerAction::DoubleStart
                    },
                    NodeControlEvent::Stop => {
                        self.phase = RunnerPhase::Ended;
                        RunnerAction::Stop
                    },
                    NodeControlEvent::Connect { exit_port_id, tx_port } => {
                        RunnerAction::Connect { exit_port_id, tx_port }
                    },
                    NodeControlEvent::Custom(custom_event) => RunnerAction::Custom(custom_event),
                },
            },
        }
    }
}

/// What a node does for an event is what the event says: it connects the port that was named
/// with what was handed over, passes on what is for the node alone, stops where it is told to
/// stop, and fails where it is told to start again.
pub proof fn a_node_does_what_the_event_says<S, C>(event: NodeControlEvent<S, C>)
    ensures
        match action_of(event) {
            RunnerAction::Connect { exit_port_id, tx_port } => event
                matches NodeControlEvent::Connect { exit_port_id: port, tx_port: tx }
                && exit_port_id == port && tx_port == tx,
            RunnerAction::Custom(action) => event matches NodeControlEvent::Custom(custom)
                && action == custom,
            RunnerAction::Stop => event is Stop,
            RunnerAction::DoubleStart => event is Start,
            RunnerAction::Wait => false,
            RunnerAction::ProcessBatch => false,
        },
{
}

/// An event that a node is told of waits as it is, after all others, unless it is the first
/// start.
pub proof fn an_event_waits_for_its_time<S, C>(
    node: RunnerView<S, C>,
    event: TimedControlEvent<S, C>,
)
    requires
        !(node.phase is Waiting && event.event is Start),
    ensures
        node.told(event).events.len() == node.events.len() + 1,
        node.told(event).events.last() == event,
        node.told(event).events.drop_last() == node.events,
        node.told(event).time == node.time,
        node.told(event).phase == node.phase,
{
    assert(node.told(event).events.drop_last() =~= node.events);
}

/// The youngest port is the one whose clock is furthest behind, the first of those.
pub proof fn the_youngest_port_lags_behind(ports: Seq<RxPort>, index: int, k: int)
    requires
        is_youngest(ports, index),
        0 <= k < ports.len(),
    ensures
        0 <= index < ports.len(),
        ports[index]@.current_time <= ports[k]@.current_time,
        ports[k]@.current_time == ports[index]@.current_time ==> index <= k,
{
    assert(ports[k]@.current_time >= ports[index]@.current_time);
}

} // verus!
