//! Where a batch of two ports ends.
//!
//! No packets that meet may lie in different batches. So a batch is extended on either
//! side until what is still to come begins after all that is in it.

use vstd::prelude::*;

use crate::nodes::packet::{all_fit, BatchView, WavePacket, WpBatch};
use crate::nodes::pairing_laws::in_order;
use crate::nodes::ports::{Poll, PortView, RxPort};

verus! {

#[derive(Clone, Copy, Debug, PartialEq, Eq, Structural)]
pub enum BoundaryPhase {
    /// Right packets are added that begin before the left batch ends.
    DrainRight,
    /// Left packets are added that begin before the right batch ends.
    DrainLeft,
    /// The left batch may have grown: is there a right packet for it again?
    Check,
}

#[derive(Clone, Copy, Debug, PartialEq, Eq, Structural)]
pub enum Progress {
    /// There is more to do.
    Again,
    /// The boundary is found.
    Done,
    /// The left port needs its next batch.
    NeedsLeft,
    /// The right port needs its next batch.
    NeedsRight,
}

/// The two batches, and how far the search for their end has come.
pub struct Boundary {
    pub left: WpBatch,
    pub right: WpBatch,
    pub phase: BoundaryPhase,
    /// The time that packets are held against.
    pub edge: u64,
    /// Whether a batch has arrived for the question at hand.
    pub received: bool,
}

#[verifier::ext_equal]
pub struct BoundaryView {
    pub left: BatchView,
    pub right: BatchView,
    pub phase: BoundaryPhase,
    pub edge: u64,
    pub received: bool,
}

impl View for Boundary {
    type V = BoundaryView;

    open spec fn view(&self) -> BoundaryView {
        BoundaryView {
            left: self.left@,
            right: self.right@,
            phase: self.phase,
            edge: self.edge,
            received: self.received,
        }
    }
}

/// The search and the two ports.
#[verifier::ext_equal]
pub struct BoundarySearch {
    pub boundary: BoundaryView,
    pub left_port: PortView,
    pub right_port: PortView,
}

impl BoundaryView {
    pub open spec fn in_phase(self, phase: BoundaryPhase, edge: int) -> BoundaryView {
        BoundaryView { phase, edge: edge as u64, received: false, ..self }
    }
}

/// One step of the search.
pub open spec fn search_step(s: BoundarySearch) -> (BoundarySearch, Progress) {
    let b = s.boundary;
    match b.phase {
        BoundaryPhase::DrainRight => match s.right_port.has_by(b.edge, b.received) {
            Poll::NeedsBatch => (s, Progress::NeedsRight),
            Poll::Ready(true) => (
                BoundarySearch {
                    boundary: BoundaryView {
                        right: b.right.pushed(s.right_port.pending[0]),
                        received: false,
                        ..b
                    },
                    right_port: s.right_port.popped(),
                    ..s
                },
                Progress::Again,
            ),
            Poll::Ready(false) => (
                BoundarySearch {
                    boundary: b.in_phase(BoundaryPhase::DrainLeft, b.right.trail()),
                    ..s
                },
                Progress::Again,
            ),
        },
        BoundaryPhase::DrainLeft => match s.left_port.has_by(b.edge, b.received) {
            Poll::NeedsBatch => (s, Progress::NeedsLeft),
            Poll::Ready(true) => (
                BoundarySearch {
                    boundary: BoundaryView {
                        left: b.left.pushed(s.left_port.pending[0]),
                        received: false,
                        ..b
                    },
                    left_port: s.left_port.popped(),
                    ..s
                },
                Progress::Again,
            ),
            Poll::Ready(false) => (
                BoundarySearch {
                    boundary: b.in_phase(BoundaryPhase::Check, b.left.trail()),
                    ..s
                },
                Progress::Again,
            ),
        },
        BoundaryPhase::Check => match s.right_port.has_by(b.edge, b.received) {
            Poll::NeedsBatch => (s, Progress::NeedsRight),
            Poll::Ready(true) => (
                BoundarySearch {
                    boundary: b.in_phase(BoundaryPhase::DrainRight, b.left.trail()),
                    ..s
                },
                Progress::Again,
            ),
            Poll::Ready(false) => (s, Progress::Done),
        },
    }
}

/// The edge is that of the batch that the phase looks at.
pub open spec fn is_searching(s: BoundarySearch) -> bool {
    match s.boundary.phase {
        BoundaryPhase::DrainRight | BoundaryPhase::Check => s.boundary.edge
            == s.boundary.left.trail(),
        BoundaryPhase::DrainLeft => s.boundary.edge == s.boundary.right.trail(),
    }
}

/// How far a step is from the next packet.
pub open spec fn steps_left(s: BoundarySearch) -> int {
    match s.boundary.phase {
        BoundaryPhase::DrainRight => if s.right_port.has_by(s.boundary.edge, s.boundary.received)
            == Poll::Ready(true) {
            1
        } else {
            4
        },
        BoundaryPhase::DrainLeft => 3,
        BoundaryPhase::Check => 2,
    }
}

/// Every packet in the search has a representable trailing edge.
pub open spec fn search_fits(s: BoundarySearch) -> bool {
    &&& all_fit(s.boundary.left.packets)
    &&& all_fit(s.boundary.right.packets)
    &&& all_fit(s.left_port.pending)
    &&& all_fit(s.right_port.pending)
}

/// The search taken as far as the packets at hand allow.
pub open spec fn searched(s: BoundarySearch) -> (BoundarySearch, Progress)
    decreases s.left_port.pending.len() + s.right_port.pending.len(), steps_left(s),
    when is_searching(s) && search_fits(s)
    via searched_decreases
{
    let (next, progress) = search_step(s);
    if progress == Progress::Again {
        searched(next)
    } else {
        (next, progress)
    }
}

#[via_fn]
proof fn searched_decreases(s: BoundarySearch) {
    lemma_search_step(s);
}

proof fn lemma_search_step(s: BoundarySearch)
    requires
        is_searching(s),
        search_fits(s),
    ensures
        is_searching(search_step(s).0),
        search_fits(search_step(s).0),
        search_step(s).1 == Progress::Again ==> ({
            let next = search_step(s).0;
            let now = s.left_port.pending.len() + s.right_port.pending.len();
            let later = next.left_port.pending.len() + next.right_port.pending.len();
            later < now || (later == now && steps_left(next) < steps_left(s))
        }),
        steps_left(search_step(s).0) >= 0,
{
    let b = s.boundary;
    let next = search_step(s).0;
    if b.left.packets.len() > 0 {
        assert(b.left.packets[b.left.packets.len() - 1].fits());
    }
    if b.right.packets.len() > 0 {
        assert(b.right.packets[b.right.packets.len() - 1].fits());
    }
    assert forall|i: int| 0 <= i < next.boundary.right.packets.len() implies (
    #[trigger] next.boundary.right.packets[i]).fits() by {
        if i < b.right.packets.len() {
            assert(b.right.packets[i].fits());
        } else {
            assert(s.right_port.pending[0].fits());
        }
    }
    assert forall|i: int| 0 <= i < next.boundary.left.packets.len() implies (
    #[trigger] next.boundary.left.packets[i]).fits() by {
        if i < b.left.packets.len() {
            assert(b.left.packets[i].fits());
        } else {
            assert(s.left_port.pending[0].fits());
        }
    }
}

impl Boundary {
    /// The search from where the two batches end at first.
    pub fn new(left: WpBatch, right: WpBatch) -> (boundary: Self)
        requires
            all_fit(left.batch@),
            all_fit(right.batch@),
        ensures
            boundary@ == (BoundaryView {
                left: left@,
                right: right@,
                phase: BoundaryPhase::DrainRight,
                edge: left@.trail() as u64,
                received: false,
            }),
            boundary.edge == left@.trail(),
    {
        let edge: u64 = left.trailing_edge();
        Self { left, right, phase: BoundaryPhase::DrainRight, edge, received: false }
    }

    /// Notes that the port that needed a batch has got one.
    pub fn resume(&mut self)
        ensures
            final(self)@ == (BoundaryView { received: true, ..old(self)@ }),
    {
        self.received = true;
    }

    /// Takes the search as far as the packets at hand allow.
    pub fn advance(&mut self, left_port: &mut RxPort, right_port: &mut RxPort) -> (progress:
        Progress)
        requires
            old(left_port).wf(),
            old(right_port).wf(),
            ({
                let s = BoundarySearch {
                    boundary: old(self)@,
                    left_port: old(left_port)@,
                    right_port: old(right_port)@,
                };
                is_searching(s) && search_fits(s)
            }),
        ensures
            final(left_port).wf(),
            final(right_port).wf(),
            progress != Progress::Again,
            ({
                let before = BoundarySearch {
                    boundary: old(self)@,
                    left_port: old(left_port)@,
                    right_port: old(right_port)@,
                };
                let after = BoundarySearch {
                    boundary: final(self)@,
                    left_port: final(left_port)@,
                    right_port: final(right_port)@,
                };
                &&& searched(before) == (after, progress)
                &&& is_searching(after)
                &&& search_fits(after)
            }),
    {
        let ghost before = BoundarySearch {
            boundary: self@,
            left_port: left_port@,
            right_port: right_port@,
        };
        let ghost goal = searched(before);
        loop
            invariant
                left_port.wf(),
                right_port.wf(),
                before == (BoundarySearch {
                    boundary: old(self)@,
                    left_port: old(left_port)@,
                    right_port: old(right_port)@,
                }),
                goal == searched(before),
                ({
                    let now = BoundarySearch {
                        boundary: self@,
                        left_port: left_port@,
                        right_port: right_port@,
                    };
                    is_searching(now) && search_fits(now) && goal == searched(now)
                }),
            decreases
                left_port@.pending.len() + right_port@.pending.len(),
                steps_left(
                    BoundarySearch {
                        boundary: self@,
                        left_port: left_port@,
                        right_port: right_port@,
                    },
                ),
        {
            proof {
                lemma_search_step(
                    BoundarySearch {
                        boundary: self@,
                        left_port: left_port@,
                        right_port: right_port@,
                    },
                );
            }
            let progress = self.step(left_port, right_port);
            if progress != Progress::Again {
                return progress;
            }
        }
    }

    fn step(&mut self, left_port: &mut RxPort, right_port: &mut RxPort) -> (progress: Progress)
        requires
            old(left_port).wf(),
            old(right_port).wf(),
            search_fits(
                BoundarySearch {
                    boundary: old(self)@,
                    left_port: old(left_port)@,
                    right_port: old(right_port)@,
                },
            ),
            is_searching(
                BoundarySearch {
                    boundary: old(self)@,
                    left_port: old(left_port)@,
                    right_port: old(right_port)@,
                },
            ),
        ensures
            final(left_port).wf(),
            final(right_port).wf(),
            search_step(
                BoundarySearch {
                    boundary: old(self)@,
                    left_port: old(left_port)@,
                    right_port: old(right_port)@,
                },
            ) == (
                BoundarySearch {
                    boundary: final(self)@,
                    left_port: final(left_port)@,
                    right_port: final(right_port)@,
                },
                progress,
            ),
    {
        match self.phase {
            BoundaryPhase::DrainRight => {
                match right_port.get_overlapping_or_before(self.edge, self.received) {
                    Poll::NeedsBatch => Progress::NeedsRight,
                    Poll::Ready(Some(wp)) => {
                        self.right.push(wp);
                        self.received = false;
                        Progress::Again
                    },
                    Poll::Ready(None) => {
                        self.edge = self.right.trailing_edge();
                        self.phase = BoundaryPhase::DrainLeft;
                        self.received = false;
                        Progress::Again
                    },
                }
            },
            BoundaryPhase::DrainLeft => {
                match left_port.get_overlapping_or_before(self.edge, self.received) {
                    Poll::NeedsBatch => Progress::NeedsLeft,
                    Poll::Ready(Some(wp)) => {
                        self.left.push(wp);
                        self.received = false;
                        Progress::Again
                    },
                    Poll::Ready(None) => {
                        self.edge = self.left.trailing_edge();
                        self.phase = BoundaryPhase::Check;
                        self.received = false;
                        Progress::Again
                    },
                }
            },
            BoundaryPhase::Check => {
                match right_port.is_strictly_after(self.edge, self.received) {
                    Poll::NeedsBatch => Progress::NeedsRight,
                    Poll::Ready(true) => Progress::Done,
                    Poll::Ready(false) => {
                        self.phase = BoundaryPhase::DrainRight;
                        self.received = false;
                        Progress::Again
                    },
                }
            },
        }
    }
}

/// Nothing that the left port still has begins before the right batch ends, as far as
/// the port can tell.
pub open spec fn left_is_clear(s: BoundarySearch) -> bool {
    exists|received: bool| #[trigger]
        s.left_port.has_by(s.boundary.right.trail() as u64, received) == Poll::Ready(false)
}

/// Nothing that the right port still has begins before the left batch ends, as far as
/// the port can tell.
pub open spec fn right_is_clear(s: BoundarySearch) -> bool {
    exists|received: bool| #[trigger]
        s.right_port.has_by(s.boundary.left.trail() as u64, received) == Poll::Ready(false)
}

/// By the time of the check, the left port is clear.
pub open spec fn checks_clear(s: BoundarySearch) -> bool {
    s.boundary.phase is Check ==> left_is_clear(s)
}

/// Where the search ends, no packets that are still to come can meet those of the other
/// side: either port is clear.
pub proof fn a_boundary_is_clear(s: BoundarySearch)
    requires
        is_searching(s),
        search_fits(s),
        checks_clear(s),
    ensures
        checks_clear(searched(s).0),
        searched(s).1 == Progress::Done ==> left_is_clear(searched(s).0) && right_is_clear(
            searched(s).0,
        ),
    decreases s.left_port.pending.len() + s.right_port.pending.len(), steps_left(s),
{
    lemma_search_step(s);
    let (next, progress) = search_step(s);
    if progress == Progress::Again {
        if next.boundary.phase is Check {
            assert(s.left_port.has_by(s.boundary.edge, s.boundary.received) == Poll::Ready(false));
            assert(left_is_clear(next));
        }
        a_boundary_is_clear(next);
    } else if progress == Progress::Done {
        assert(s.right_port.has_by(s.boundary.edge, s.boundary.received) == Poll::Ready(false));
    }
}

/// The search only moves packets from a port to its batch: none is lost, and none
/// changes its place.
pub proof fn the_search_keeps_the_order(s: BoundarySearch)
    requires
        is_searching(s),
        search_fits(s),
    ensures
        ({
            let after = searched(s).0;
            &&& after.boundary.left.packets + after.left_port.pending == s.boundary.left.packets
                + s.left_port.pending
            &&& after.boundary.right.packets + after.right_port.pending == s.boundary.right.packets
                + s.right_port.pending
        }),
    decreases s.left_port.pending.len() + s.right_port.pending.len(), steps_left(s),
{
    lemma_search_step(s);
    let (next, progress) = search_step(s);
    assert(next.boundary.left.packets + next.left_port.pending =~= s.boundary.left.packets
        + s.left_port.pending);
    assert(next.boundary.right.packets + next.right_port.pending =~= s.boundary.right.packets
        + s.right_port.pending);
    if progress == Progress::Again {
        the_search_keeps_the_order(next);
    }
}

/// The packets of the port lie in its period.
pub open spec fn keeps_its_period(port: PortView) -> bool {
    &&& port.period_start <= port.period_end
    &&& forall|i: int|
        0 <= i < port.pending.len() ==> port.period_start <= (#[trigger] port.pending[i]).lead()
}

/// What the port still has begins after that time, and what it is still to get too.
pub open spec fn is_after(port: PortView, time: int) -> bool {
    &&& time < port.horizon()
    &&& forall|i: int|
        0 <= i < port.pending.len() ==> time < (#[trigger] port.pending[i]).lead()
}

proof fn lemma_keeps_its_period(s: BoundarySearch)
    requires
        is_searching(s),
        search_fits(s),
        keeps_its_period(s.left_port),
        keeps_its_period(s.right_port),
    ensures
        keeps_its_period(searched(s).0.left_port),
        keeps_its_period(searched(s).0.right_port),
        is_searching(searched(s).0),
        search_fits(searched(s).0),
    decreases s.left_port.pending.len() + s.right_port.pending.len(), steps_left(s),
{
    lemma_search_step(s);
    let (next, progress) = search_step(s);
    if progress == Progress::Again {
        lemma_keeps_its_period(next);
    }
}

/// A port that is clear begins after that time.
proof fn lemma_clear_is_after(
    port: PortView,
    taken: Seq<WavePacket>,
    time: u64,
    received: bool,
)
    requires
        in_order(taken + port.pending),
        all_fit(port.pending),
        keeps_its_period(port),
        port.has_by(time, received) == Poll::Ready(false),
    ensures
        is_after(port, time as int),
{
    let all = taken + port.pending;
    if port.pending.len() > 0 {
        assert(port.pending[0].fits());
        assert(port.period_start <= port.pending[0].lead());
    }
    assert forall|i: int| 0 <= i < port.pending.len() implies time < (
    #[trigger] port.pending[i]).lead() by {
        assert(all[taken.len() as int] == port.pending[0]);
        assert(all[taken.len() + i] == port.pending[i]);
    }
}

/// Packets that begin after the last of a batch has ended meet none of it.
proof fn lemma_after_meets_none(batch: BatchView, rest: Seq<WavePacket>, port: PortView)
    requires
        in_order(batch.packets + rest),
        is_after(port, batch.trail()),
    ensures
        forall|i: int, k: int|
            0 <= i < batch.packets.len() && 0 <= k < port.pending.len()
                ==> !(#[trigger] batch.packets[i]).meets(#[trigger] port.pending[k]),
{
    let all = batch.packets + rest;
    assert forall|i: int, k: int|
        0 <= i < batch.packets.len() && 0 <= k < port.pending.len() implies !(
    #[trigger] batch.packets[i]).meets(#[trigger] port.pending[k]) by {
        let last = batch.packets.len() - 1;
        assert(all[i] == batch.packets[i] && all[last] == batch.packets[last]);
    }
}

/// Where the search ends, no packet that a port in order still has overlaps a packet of the
/// other batch, and all that a port still has or gets begins after the other batch has ended.
pub proof fn no_meeting_crosses_the_boundary(s: BoundarySearch)
    requires
        is_searching(s),
        search_fits(s),
        checks_clear(s),
        keeps_its_period(s.left_port),
        keeps_its_period(s.right_port),
        in_order(s.boundary.left.packets + s.left_port.pending),
        in_order(s.boundary.right.packets + s.right_port.pending),
        searched(s).1 == Progress::Done,
    ensures
        ({
            let after = searched(s).0;
            let left = after.boundary.left;
            let right = after.boundary.right;
            &&& is_after(after.right_port, left.trail())
            &&& is_after(after.left_port, right.trail())
            &&& forall|i: int, k: int|
                0 <= i < left.packets.len() && 0 <= k < after.right_port.pending.len()
                    ==> !(#[trigger] left.packets[i]).meets(
                    #[trigger] after.right_port.pending[k],
                )
            &&& forall|i: int, k: int|
                0 <= i < right.packets.len() && 0 <= k < after.left_port.pending.len()
                    ==> !(#[trigger] right.packets[i]).meets(
                    #[trigger] after.left_port.pending[k],
                )
        }),
{
    let after = searched(s).0;
    let left = after.boundary.left;
    let right = after.boundary.right;
    a_boundary_is_clear(s);
    the_search_keeps_the_order(s);
    lemma_keeps_its_period(s);
    assert(0 <= left.trail() <= u64::MAX) by {
        if left.packets.len() > 0 {
            assert(left.packets[left.packets.len() - 1].fits());
        }
    }
    assert(0 <= right.trail() <= u64::MAX) by {
        if right.packets.len() > 0 {
            assert(right.packets[right.packets.len() - 1].fits());
        }
    }
    let received = choose|received: bool| #[trigger]
        after.right_port.has_by(left.trail() as u64, received) == Poll::Ready(false);
    lemma_clear_is_after(after.right_port, right.packets, left.trail() as u64, received);
    let received = choose|received: bool| #[trigger]
        after.left_port.has_by(right.trail() as u64, received) == Poll::Ready(false);
    lemma_clear_is_after(after.left_port, left.packets, right.trail() as u64, received);
    lemma_after_meets_none(left, after.left_port.pending, after.right_port);
    lemma_after_meets_none(right, after.right_port.pending, after.left_port);
}

} // verus!
