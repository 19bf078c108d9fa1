use photonsim::concurrency::snowflake::{
    allocate_generator_id, next_u32, next_u64, Generator32, Generator64, IdAllocator,
};
use photonsim::nodes::boundary::{Boundary, Progress};
use photonsim::nodes::control::{
    ControlEventQueue, NodeControlEvent, RunnerAction, RunnerPhase, RunnerState,
};
use photonsim::nodes::dual::worker::DualPortWorker;
use photonsim::nodes::packet::{WavePacket, WaveProfile, WpBatch};
use photonsim::nodes::ports::{Poll, RxPort, TxPort};
use photonsim::nodes::turns::{turns, Turn};
use photonsim::types::{BatchConstraint, BatchPolicy, WrappingIterU32};

fn packet(time: u64, time_sigma: u32, snowflake: u32) -> WavePacket {
    WavePacket {
        time,
        time_sigma,
        wavelength_bits: 1550.0f32.to_bits(),
        wavelength_sigma_bits: 1.0f32.to_bits(),
        state_handle: 0,
        snowflake,
    }
}

fn batch(start_time: u64, end_time: u64, times: &[u64]) -> WpBatch {
    let batch = times.iter().enumerate().map(|(i, &t)| packet(t, 10, i as u32)).collect();
    WpBatch { start_time, end_time, batch }
}

fn times_of(packets: &[WavePacket]) -> Vec<u64> {
    packets.iter().map(|wp| wp.time).collect()
}

#[test]
fn edges_lie_three_sigma_out() {
    let wp = packet(1000, 100, 1);
    assert_eq!(wp.leading_edge(), 700);
    assert_eq!(wp.trailing_edge(), 1300);
    // cut off at time zero
    assert_eq!(packet(100, 100, 1).leading_edge(), 0);
    assert!(wp.is_strictly_before(1301));
    assert!(!wp.is_strictly_before(1300));
    assert!(wp.is_strictly_after(699));
    assert!(!wp.is_strictly_after(700));
}

#[test]
fn overlap_is_mutual_and_strict() {
    let a = packet(1000, 100, 1);
    let b = packet(1599, 100, 2);
    let c = packet(1600, 100, 3);
    assert!(a.overlaps(&b) && b.overlaps(&a));
    // edges that only touch do not overlap
    assert!(!a.overlaps(&c) && !c.overlaps(&a));
    assert!(a.overlaps(&a));
    assert!(!packet(5, 0, 1).overlaps(&packet(5, 0, 2)));
}

#[test]
fn a_batch_ends_where_its_last_packet_begins() {
    let mut wps = batch(0, 50, &[]);
    assert_eq!(wps.trailing_edge(), 50);
    wps.push(packet(1000, 100, 1));
    assert_eq!(wps.end_time, 700);
    assert_eq!(wps.trailing_edge(), 1300);
    assert_eq!(wps.len(), 1);
    assert!(wps.fits());
    wps.push(packet(u64::MAX, 1, 2));
    assert!(!wps.fits());
}

#[test]
fn a_profile_shapes_packets() {
    let profile = WaveProfile { time_sigma: 75, wavelength_bits: 5, wavelength_sigma_bits: 6 };
    assert_eq!(
        profile.new_wave_packet(9, 3),
        WavePacket {
            time: 9,
            time_sigma: 75,
            wavelength_bits: 5,
            wavelength_sigma_bits: 6,
            state_handle: 0,
            snowflake: 3,
        }
    );
    assert_eq!(packet(9, 1, 3).set_snowflake(4), packet(9, 1, 4));
}

#[test]
fn snowflakes_hold_the_count_and_the_generator() {
    let mut allocator = IdAllocator { next: 255 };
    assert_eq!(allocate_generator_id(&mut allocator), 255);
    assert_eq!(allocate_generator_id(&mut allocator), 0);
    let mut generator = Generator32::new(7);
    assert_eq!(next_u32(&mut generator), 0x107);
    assert_eq!(next_u32(&mut generator), 0x207);
    let mut other = Generator32::new(8);
    assert_ne!(next_u32(&mut other), 0x107);
    // the count goes round
    let mut late = Generator32 { id: 7, counter: 0x00ff_ffff };
    assert_eq!(next_u32(&mut late), 0x7);
    let mut wide = Generator64::new(9);
    assert_eq!(next_u64(&mut wide), 0x109);
    let mut last = Generator64 { id: 9, counter: u64::MAX };
    assert_eq!(next_u64(&mut last), 0x9);
}

#[test]
fn handles_wrap() {
    assert_eq!(WrappingIterU32::new(u32::MAX - 1, 2).to_vec(), [u32::MAX - 1, u32::MAX, 0, 1]);
    let mut none = WrappingIterU32::new(5, 5);
    assert_eq!(none.next(), None);
}

#[test]
fn a_constraint_counts_from_the_start() {
    let policy = BatchPolicy { period: 20, max_size: 3 };
    let constraint = policy.get_constraint(100);
    assert_eq!((constraint.timeout, constraint.max_size), (120, 3));
}

#[test]
fn a_batch_is_taken_up_to_the_timeout() {
    let mut port = RxPort::new();
    let constraint = BatchConstraint { timeout: 500, max_size: 10 };
    let mut request = port.request_batch(constraint);
    // nothing has arrived yet
    assert!(matches!(port.get_batch(&mut request), Poll::NeedsBatch));
    port.accept(batch(0, 400, &[100, 200]));
    assert!(matches!(port.get_batch(&mut request), Poll::NeedsBatch));
    port.accept(batch(400, 900, &[450, 600, 700]));
    match port.get_batch(&mut request) {
        Poll::Ready(taken) => {
            assert_eq!(times_of(&taken.batch), [100, 200, 450]);
            assert_eq!((taken.start_time, taken.end_time), (0, 570));
        }
        Poll::NeedsBatch => panic!("expected a batch"),
    }
    assert_eq!(port.current_time(), 570);
}

#[test]
fn a_batch_is_no_larger_than_it_may_be() {
    let mut port = RxPort::new();
    let mut request = port.request_batch(BatchConstraint { timeout: 10_000, max_size: 2 });
    port.accept(batch(0, 400, &[100, 200, 300]));
    match port.get_batch(&mut request) {
        Poll::Ready(taken) => assert_eq!(times_of(&taken.batch), [100, 200]),
        Poll::NeedsBatch => panic!("expected a batch"),
    }
    assert_eq!(port.current_time(), 270);
}

#[test]
fn overlapping_packets_are_taken_one_by_one() {
    let mut port = RxPort::new();
    port.accept(batch(0, 400, &[100, 200]));
    match port.get_overlapping_or_before(90, false) {
        Poll::Ready(Some(wp)) => assert_eq!(wp.time, 100),
        _ => panic!("expected a packet"),
    }
    assert!(matches!(port.get_overlapping_or_before(169, false), Poll::Ready(None)));
    assert!(matches!(port.is_strictly_after(169, false), Poll::Ready(true)));
    assert!(matches!(port.is_strictly_after(170, false), Poll::Ready(false)));
    match port.get_overlapping_or_before(170, false) {
        Poll::Ready(Some(wp)) => assert_eq!(wp.time, 200),
        _ => panic!("expected a packet"),
    }
    assert_eq!(port.current_time(), 400);
    // nothing left, but nothing can come before the end of the period
    assert!(matches!(port.get_overlapping_or_before(399, false), Poll::Ready(None)));
    assert!(matches!(port.get_overlapping_or_before(400, false), Poll::NeedsBatch));
    port.accept(batch(500, 600, &[]));
    assert!(matches!(port.get_overlapping_or_before(400, true), Poll::Ready(None)));
}

#[test]
fn a_sender_keeps_the_time_of_what_it_sent() {
    let mut port = TxPort { time: 0, tx: "wire" };
    let sent = port.send_batch(batch(0, 77, &[5]), |wire: &&str, batch| {
        format!("{} packet over the {}", batch.len(), wire)
    });
    assert_eq!(sent, "1 packet over the wire");
    assert_eq!((port.time, port.tx), (77, "wire"));
}

#[test]
fn a_boundary_takes_in_what_overlaps() {
    // the left packet reaches up to 1030; the right one that begins at 1020 is drawn in,
    // and the left one that begins within that one after it
    let mut left_port = RxPort::new();
    let mut right_port = RxPort::new();
    left_port.accept(batch(1001, 5000, &[1060]));
    right_port.accept(batch(0, 5000, &[1050, 3000]));
    let mut boundary = Boundary::new(batch(0, 1000, &[1000]), batch(0, 1000, &[]));
    loop {
        match boundary.advance(&mut left_port, &mut right_port) {
            Progress::Again => {}
            Progress::Done => break,
            _ => panic!("everything is at hand"),
        }
    }
    assert_eq!(times_of(&boundary.left.batch), [1000, 1060]);
    assert_eq!(times_of(&boundary.right.batch), [1050]);
}

#[test]
fn a_boundary_asks_for_what_it_lacks() {
    let mut left_port = RxPort::new();
    let mut right_port = RxPort::new();
    let mut boundary = Boundary::new(batch(0, 1000, &[1000]), batch(0, 1000, &[]));
    let mut left_asked = 0;
    let mut right_asked = 0;
    loop {
        match boundary.advance(&mut left_port, &mut right_port) {
            Progress::Again => {}
            Progress::Done => break,
            Progress::NeedsLeft => {
                left_asked += 1;
                left_port.accept(batch(4000, 5000, &[]));
                boundary.resume();
            }
            Progress::NeedsRight => {
                right_asked += 1;
                right_port.accept(batch(4000, 5000, &[]));
                boundary.resume();
            }
        }
    }
    assert_eq!((left_asked, right_asked), (1, 1));
    assert_eq!(times_of(&boundary.left.batch), [1000]);
    assert!(boundary.right.batch.is_empty());
}

#[test]
fn packets_take_turns_by_time() {
    let left = batch(0, 0, &[10, 30]).batch;
    let right = batch(0, 0, &[10, 20]).batch;
    let order = turns(&left, &right);
    assert_eq!(
        order,
        [
            Turn { is_left: true, index: 0, other: 0 },
            Turn { is_left: false, index: 0, other: 1 },
            Turn { is_left: false, index: 1, other: 1 },
            Turn { is_left: true, index: 1, other: 2 },
        ]
    );
}

#[test]
fn both_ports_go_by_the_one_that_lags() {
    let mut left = RxPort::new();
    let right = RxPort::new();
    left.accept(batch(0, 900, &[]));
    let mut request = left.request_batch(BatchConstraint { timeout: 500, max_size: 1 });
    assert!(matches!(left.get_batch(&mut request), Poll::Ready(_)));
    assert_eq!(left.current_time(), 900);
    let policy = BatchPolicy { period: 20, max_size: 3 };
    let constraint = DualPortWorker::<()>::common_constraint(&policy, &left, &right);
    assert_eq!((constraint.timeout, constraint.max_size), (20, 3));
    let span = DualPortWorker::<()>::common_span(&batch(5, 90, &[]), &batch(3, 95, &[]));
    assert_eq!(span, (3, 90));
}

#[test]
fn events_wait_for_their_time() {
    let mut queue: ControlEventQueue<(), &str> = ControlEventQueue::new();
    queue.push(NodeControlEvent::Custom("late").timed(30));
    queue.push(NodeControlEvent::Custom("first").timed(10));
    queue.push(NodeControlEvent::Custom("second").timed(10));
    assert!(queue.pop_due(9).is_none());
    let mut names = Vec::new();
    while let Some(event) = queue.pop_due(20) {
        if let NodeControlEvent::Custom(name) = event.event {
            names.push(name);
        }
    }
    assert_eq!(names, ["first", "second"]);
    assert_eq!(queue.len(), 1);
}

#[test]
fn a_runner_starts_once_and_stops() {
    let mut state: RunnerState<&str, u8> = RunnerState::new(2);
    assert_eq!(state.rx_ports.len(), 2);
    assert_eq!(state.youngest_port(), 0);
    let tx_port = TxPort { time: 0, tx: "wire" };
    state.tell(NodeControlEvent::Connect { exit_port_id: 1, tx_port }.timed(0));
    state.tell(NodeControlEvent::Custom(9).timed(100));
    // nothing is done before the start, though events are due
    assert!(matches!(state.next_action(), RunnerAction::Wait));
    assert_eq!(state.phase, RunnerPhase::Waiting);
    state.tell(NodeControlEvent::Start.timed(50));
    assert_eq!((state.time, state.phase), (50, RunnerPhase::Running));
    match state.next_action() {
        RunnerAction::Connect { exit_port_id, tx_port } => {
            assert_eq!((exit_port_id, tx_port.tx), (1, "wire"));
        }
        _ => panic!("expected a connection"),
    }
    assert!(matches!(state.next_action(), RunnerAction::ProcessBatch));
    state.time = 100;
    assert!(matches!(state.next_action(), RunnerAction::Custom(9)));
    state.tell(NodeControlEvent::Stop.timed(20));
    state.tell(NodeControlEvent::Custom(7).timed(20));
    assert!(matches!(state.next_action(), RunnerAction::Stop));
    // nothing is done after the stop
    assert!(matches!(state.next_action(), RunnerAction::Stop));
    assert_eq!(state.control_event_queue.len(), 1);

    let mut twice: RunnerState<(), ()> = RunnerState::new(0);
    twice.tell(NodeControlEvent::Start.timed(5));
    twice.tell(NodeControlEvent::Start.timed(5));
    assert!(matches!(twice.next_action(), RunnerAction::DoubleStart));
    assert_eq!(twice.phase, RunnerPhase::Ended);
}

#[test]
fn the_port_that_lags_most_is_found() {
    let mut state: RunnerState<(), ()> = RunnerState::new(3);
    for i in [0usize, 2] {
        state.rx_ports[i].accept(batch(0, 900, &[]));
        let mut request =
            state.rx_ports[i].request_batch(BatchConstraint { timeout: 500, max_size: 1 });
        assert!(matches!(state.rx_ports[i].get_batch(&mut request), Poll::Ready(_)));
    }
    assert_eq!(state.youngest_port(), 1);
}
