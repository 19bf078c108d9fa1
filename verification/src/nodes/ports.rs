//! The two ends of a connection between nodes.
//!
//! A port does not wait: where it needs the next batch to go on, it says so, and goes
//! on once the batch was handed to it.

use vstd::prelude::*;

use crate::nodes::packet::{WavePacket, WpBatch};
use crate::types::BatchConstraint;

verus! {

/// The end that packets leave through. What carries them off is up to the user.
pub struct TxPort<S> {
    pub time: u64,
    pub tx: S,
}

impl<S> TxPort<S> {
    /// Sends a batch off with `send`, and moves the clock of the port to its end.
    pub fn send_batch<R, F: FnOnce(&S, WpBatch) -> R>(&mut self, batch: WpBatch, send: F) -> (sent:
        R)
        requires
            send.requires((&old(self).tx, batch)),
        ensures
            final(self).time == batch.end_time,
            final(self).tx == old(self).tx,
            send.ensures((&old(self).tx, batch), sent),
    {
        self.time = batch.end_time;
        send(&self.tx, batch)
    }
}

/// Either there is an answer, or the port needs the next batch first.
pub enum Poll<T> {
    Ready(T),
    NeedsBatch,
}

/// A batch that is being put together.
pub struct BatchRequest {
    pub batch: Vec<WavePacket>,
    pub start_time: u64,
    pub constraint: BatchConstraint,
}

/// The end that packets arrive at.
// period_end and period_start are aligned to the leading edge of packets, which is
// taken to be monotonic
pub struct RxPort {
    period_start: u64,
    period_end: u64,
    current_period: Vec<WavePacket>,
    position: usize,  // how many packets of the period have left
    // best effort eagerly advancing clock
    current_time: u64,
}

/// How far a batch can be filled from the packets at hand: the batch, the packets left,
/// and whether it is complete. It is when it is full, when the next packet comes after
/// the timeout, or when none is at hand and none can come before it.
pub open spec fn filled(
    batch: Seq<WavePacket>,
    pending: Seq<WavePacket>,
    period_end: u64,
    constraint: BatchConstraint,
) -> (Seq<WavePacket>, Seq<WavePacket>, bool)
    decreases pending.len(),
{
    if batch.len() >= constraint.max_size {
        (batch, pending, true)
    } else if pending.len() == 0 {
        // be as lazy as possible in terms of getting the next packet
        (batch, pending, constraint.timeout < period_end)
    } else if pending[0].lead() > constraint.timeout {
        (batch, pending, true)
    } else {
        filled(batch.push(pending[0]), pending.drop_first(), period_end, constraint)
    }
}

/// Filling a batch neither loses packets nor changes their order; it takes none whose
/// leading edge lies after the timeout, and no more than the batch can hold.
pub proof fn filling_keeps_the_order(
    batch: Seq<WavePacket>,
    pending: Seq<WavePacket>,
    period_end: u64,
    constraint: BatchConstraint,
)
    ensures
        ({
            let (full, rest, complete) = filled(batch, pending, period_end, constraint);
            &&& full + rest == batch + pending
            &&& full.len() >= batch.len()
            &&& full.len() <= constraint.max_size || full == batch
            &&& forall|i: int|
                batch.len() <= i < full.len() ==> (#[trigger] full[i]).lead() <= constraint.timeout
            &&& !complete ==> rest.len() == 0
        }),
    decreases pending.len(),
{
    if batch.len() < constraint.max_size && pending.len() > 0 && pending[0].lead()
        <= constraint.timeout {
        filling_keeps_the_order(
            batch.push(pending[0]),
            pending.drop_first(),
            period_end,
            constraint,
        );
        assert(batch.push(pending[0]) + pending.drop_first() =~= batch + pending);
        let (full, rest, complete) = filled(batch, pending, period_end, constraint);
        assert forall|i: int| batch.len() <= i < full.len() implies (#[trigger] full[i]).lead()
            <= constraint.timeout by {
            if i == batch.len() {
                assert((full + rest)[i] == (batch + pending)[i]);
            }
        }
    }
}

/// What a port knows: the period that the packets at hand come from, those packets, in
/// order of arrival, and its clock.
#[verifier::ext_equal]
pub struct PortView {
    pub period_start: u64,
    pub period_end: u64,
    pub pending: Seq<WavePacket>,
    pub current_time: u64,
}

impl PortView {
    /// The time at which the next packet begins, as far as the port knows.
    pub open spec fn horizon(self) -> u64 {
        if self.pending.len() > 0 {
            self.pending[0].lead() as u64
        } else {
            self.period_end
        }
    }

    /// The port with its clock at the horizon.
    pub open spec fn on_time(self) -> PortView {
        PortView { current_time: self.horizon(), ..self }
    }

    /// The port after its next packet has left.
    pub open spec fn popped(self) -> PortView {
        PortView { pending: self.pending.drop_first(), ..self }.on_time()
    }

    /// Whether a packet that is still to come begins no later than the reference time, as
    /// far as the port can tell. A batch that was `received` for the question settles it
    /// where its period begins after the reference time.
    pub open spec fn has_by(self, reference_time: u64, received: bool) -> Poll<bool> {
        if received && reference_time < self.period_start {
            Poll::Ready(false)
        } else if self.pending.len() > 0 {
            Poll::Ready(self.pending[0].lead() <= reference_time)
        } else if reference_time < self.period_end {
            Poll::Ready(false)
        } else {
            Poll::NeedsBatch
        }
    }
}

impl View for RxPort {
    type V = PortView;

    closed spec fn view(&self) -> PortView {
        PortView {
            period_start: self.period_start,
            period_end: self.period_end,
            pending: self.current_period@.skip(self.position as int),
            current_time: self.current_time,
        }
    }
}

impl RxPort {
    pub closed spec fn wf(self) -> bool {
        self.position <= self.current_period@.len()
    }

    /// A port that nothing has arrived at.
    pub fn new() -> (port: Self)
        ensures
            port.wf(),
            port@ == (PortView {
                period_start: 0,
                period_end: 0,
                pending: seq![],
                current_time: 0,
            }),
    {
        let port = Self {
            period_start: 0,
            period_end: 0,
            // set the empty period
            current_period: Vec::new(),
            position: 0,
            current_time: 0,
        };
        assert(port@.pending =~= seq![]);
        port
    }

    /// Goes on with the next batch that arrived.
    pub fn accept(&mut self, batch: WpBatch)
        ensures
            final(self).wf(),
            final(self)@ == (PortView {
                period_start: batch.start_time,
                period_end: batch.end_time,
                pending: batch.batch@,
                current_time: old(self)@.current_time,
            }),
    {
        self.period_start = batch.start_time;
        self.period_end = batch.end_time;
        self.current_period = batch.batch;
        self.position = 0;
        assert(self.current_period@.skip(0) =~= self.current_period@);
    }

    /// The clock of the port.
    pub fn current_time(&self) -> (time: u64)
        ensures
            time == self@.current_time,
    {
        self.current_time
    }

    fn peek(&self) -> (next: Option<WavePacket>)
        requires
            self.wf(),
        ensures
            self@.pending.len() == 0 ==> next is None,
            self@.pending.len() > 0 ==> next == Some(self@.pending[0]),
    {
        if self.position < self.current_period.len() {
            Some(self.current_period[self.position])
        } else {
            None
        }
    }

    fn drop_next(&mut self)
        requires
            old(self).wf(),
            old(self)@.pending.len() > 0,
        ensures
            final(self).wf(),
            final(self)@ == (PortView { pending: old(self)@.pending.drop_first(), ..old(self)@ }),
    {
        let ghost before = self@.pending;
        let n: usize = self.current_period.len();
        self.position = self.position + 1;
        assert(self@.pending =~= before.drop_first());
    }

    fn advance_clock(&mut self)
        requires
            old(self).wf(),
        ensures
            final(self).wf(),
            final(self)@ == old(self)@.on_time(),
    {
        let ghost before = self@.pending;
        let time: u64 = match self.peek() {
            Some(wp) => wp.leading_edge(),
            None => self.period_end,
        };
        self.current_time = time;
        assert(self@.pending =~= before);
    }

    /// Begins a batch.
    pub fn request_batch(&self, constraint: BatchConstraint) -> (request: BatchRequest)
        ensures
            request.batch@ == Seq::<WavePacket>::empty(),
            request.start_time == self@.current_time,
            request.constraint == constraint,
    {
        BatchRequest { batch: Vec::new(), start_time: self.current_time, constraint }
    }

    /// Fills the batch as far as the packets at hand allow. It is there when it is
    /// complete; otherwise the port needs the next batch.
    ///
    /// Nothing is promised of trailing edges: a packet may begin before the one in front
    /// of it ends. Photons are bosonic, and overlapping packets in one mode are treated
    /// as additive terms.
    pub fn get_batch(&mut self, request: &mut BatchRequest) -> (poll: Poll<WpBatch>)
        requires
            old(self).wf(),
        ensures
            final(self).wf(),
            ({
                let (full, rest, complete) = filled(
                    old(request).batch@,
                    old(self)@.pending,
                    old(self)@.period_end,
                    old(request).constraint,
                );
                let left = PortView { pending: rest, ..old(self)@ };
                &&& poll is Ready <==> complete
                &&& poll matches Poll::Ready(batch) ==> {
                    &&& batch.batch@ == full
                    &&& batch.start_time == old(request).start_time
                    &&& batch.end_time == left.horizon()
                    &&& final(self)@ == left.on_time()
                }
                &&& poll is NeedsBatch ==> final(request).batch@ == full && final(self)@ == left
            }),
            final(request).start_time == old(request).start_time,
            final(request).constraint == old(request).constraint,
    {
        let ghost goal = filled(
            request.batch@,
            self@.pending,
            self@.period_end,
            request.constraint,
        );
        let constraint = request.constraint;
        loop
            invariant
                self.wf(),
                constraint == old(request).constraint,
                request.constraint == constraint,
                request.start_time == old(request).start_time,
                self@ == (PortView { pending: self@.pending, ..old(self)@ }),
                goal == filled(request.batch@, self@.pending, self@.period_end, constraint),
                goal == filled(
                    old(request).batch@,
                    old(self)@.pending,
                    old(self)@.period_end,
                    old(request).constraint,
                ),
            ensures
                goal == (request.batch@, self@.pending, true),
            decreases self@.pending.len(),
        {
            if request.batch.len() >= constraint.max_size {
                break;
            }
            match self.peek() {
                Some(wp) => {
                    if wp.leading_edge() > constraint.timeout {
                        break;
                    }
                    self.drop_next();
                    request.batch.push(wp);
                },
                None => {
                    if constraint.timeout < self.period_end {
                        break;
                    }
                    return Poll::NeedsBatch;
                },
            }
        }
        self.advance_clock();
        let end_time: u64 = self.current_time;
        let mut batch: Vec<WavePacket> = Vec::new();
        std::mem::swap(&mut batch, &mut request.batch);
        Poll::Ready(WpBatch { batch, start_time: request.start_time, end_time })
    }

    /// The next packet, unless it begins after the reference time. Handles the boundary
    /// condition for multi-port components. `received` says that a batch was handed to
    /// the port since the question was first asked.
    pub fn get_overlapping_or_before(&mut self, reference_time: u64, received: bool) -> (poll: Poll<
        Option<WavePacket>,
    >)
        requires
            old(self).wf(),
        ensures
            final(self).wf(),
            match old(self)@.has_by(reference_time, received) {
                Poll::NeedsBatch => poll is NeedsBatch && final(self)@ == old(self)@,
                Poll::Ready(false) => poll == Poll::Ready(None::<WavePacket>) && final(self)@
                    == old(self)@,
                Poll::Ready(true) => poll == Poll::Ready(Some(old(self)@.pending[0])) && final(
                    self
                )@ == old(self)@.popped(),
            },
    {
        if received && reference_time < self.period_start {
            return Poll::Ready(None);
        }
        match self.peek() {
            Some(wp) => {
                if wp.is_strictly_after(reference_time) {
                    Poll::Ready(None)
                } else {
                    self.drop_next();
                    self.advance_clock();
                    Poll::Ready(Some(wp))
                }
            },
            None => {
                if reference_time < self.period_end {
                    Poll::Ready(None)
                } else {
                    Poll::NeedsBatch
                }
            },
        }
    }

    /// Whether everything that is still to come begins after the reference time.
    pub fn is_strictly_after(&self, reference_time: u64, received: bool) -> (poll: Poll<bool>)
        requires
            self.wf(),
        ensures
            match self@.has_by(reference_time, received) {
                Poll::NeedsBatch => poll is NeedsBatch,
                Poll::Ready(has_earlier) => poll == Poll::Ready(!has_earlier),
            },
    {
        if received && reference_time < self.period_start {
            return Poll::Ready(true);
        }
        match self.peek() {
            Some(wp) => Poll::Ready(wp.is_strictly_after(reference_time)),
            None => {
                if reference_time < self.period_end {
                    Poll::Ready(true)
                } else {
                    Poll::NeedsBatch
                }
            },
        }
    }
}

/// A batch is complete when it is full, when the next packet begins after the timeout, or when
/// none is at hand and the period says that none can come before. Else the port needs the next
/// batch: there is room, nothing is at hand, and the timeout is not yet past.
pub proof fn a_batch_is_complete_when_nothing_can_be_added(
    batch: Seq<WavePacket>,
    pending: Seq<WavePacket>,
    period_end: u64,
    constraint: BatchConstraint,
)
    ensures
        ({
            let (full, rest, complete) = filled(batch, pending, period_end, constraint);
            &&& complete ==> {
                ||| full.len() >= constraint.max_size
                ||| rest.len() > 0 && rest[0].lead() > constraint.timeout
                ||| rest.len() == 0 && constraint.timeout < period_end
            }
            &&& !complete ==> full.len() < constraint.max_size && rest.len() == 0
                && constraint.timeout >= period_end
        }),
    decreases pending.len(),
{
    if batch.len() < constraint.max_size && pending.len() > 0 && pending[0].lead()
        <= constraint.timeout {
        a_batch_is_complete_when_nothing_can_be_added(
            batch.push(pending[0]),
            pending.drop_first(),
            period_end,
            constraint,
        );
    }
}

/// A port tells rightly whether a packet begins by the reference time, where its packets come
/// in the order of their leading edges and none before its period: among those at hand, and
/// where none is, by the end of the period. It needs the next batch just where neither tells.
pub proof fn a_port_tells_what_begins_in_time(port: PortView, reference_time: u64, received: bool)
    requires
        forall|i: int, k: int|
            0 <= i <= k < port.pending.len() ==> (#[trigger] port.pending[i]).lead() <= (
            #[trigger] port.pending[k]).lead(),
        forall|i: int|
            0 <= i < port.pending.len() ==> port.period_start <= (
            #[trigger] port.pending[i]).lead(),
        port.period_start <= port.period_end,
    ensures
        ({
            let some = exists|i: int|
                0 <= i < port.pending.len() && (#[trigger] port.pending[i]).lead()
                    <= reference_time;
            match port.has_by(reference_time, received) {
                Poll::Ready(answer) => answer == some && (port.pending.len() > 0 || reference_time
                    < port.period_end),
                Poll::NeedsBatch => port.pending.len() == 0 && port.period_end <= reference_time,
            }
        }),
{
    if port.pending.len() > 0 {
        assert(port.period_start <= port.pending[0].lead());
        if port.pending[0].lead() <= reference_time {
            assert(0 <= 0 < port.pending.len());
        }
        assert forall|i: int| 0 <= i < port.pending.len() implies port.pending[0].lead() <= (
        #[trigger] port.pending[i]).lead() by {}
    }
}

/// When the next packet has left, the rest waits as before, and the clock stands where the
/// packet begins that is next, or at the end of the period if there is none.
pub proof fn the_clock_follows_the_packets(port: PortView)
    requires
        port.pending.len() > 0,
        port.pending[0].lead() <= u64::MAX,
    ensures
        port.popped().pending == port.pending.drop_first(),
        port.popped().period_start == port.period_start,
        port.popped().period_end == port.period_end,
        port.pending.len() > 1 ==> port.popped().current_time == port.pending[1].lead(),
        port.pending.len() == 1 ==> port.popped().current_time == port.period_end,
        port.on_time().current_time == port.pending[0].lead(),
        port.on_time().pending == port.pending,
        port.on_time().period_start == port.period_start,
        port.on_time().period_end == port.period_end,
{
}

} // verus!
