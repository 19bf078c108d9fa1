use photonsim::concurrency::cell::{CollapseResult, InteractionCell, WpResult};
use photonsim::concurrency::interaction_store::{Claim, InteractionStore, Reading};
use photonsim::concurrency::operator::{IslandOfInteraction, Operator};
use photonsim::concurrency::slice::InteractionStoreSlice;
use photonsim::concurrency::snowflake::Generator32;
use photonsim::nodes::dual::worker::DualPortWorker;
use photonsim::nodes::epps::EPPSWorker;
use photonsim::nodes::packet::{WavePacket, WaveProfile, WpBatch};
use photonsim::nodes::ports::TxPort;
use photonsim::nodes::single_port::{SinglePortEvent, SinglePortWorker};
use photonsim::nodes::spd::{finished_handles, result_of, store_results, SPDEvent, SPDWorker};
use photonsim::types::BatchConstraint;

const PROFILE: WaveProfile =
    WaveProfile { time_sigma: 75, wavelength_bits: 0x44c1_c000, wavelength_sigma_bits: 0x3f80_0000 };

fn wire(name: &'static str) -> TxPort<&'static str> {
    TxPort { time: 0, tx: name }
}

/// A source that makes a pair every `step`, up to `timeout`.
fn emit(
    store: &mut InteractionStore,
    generator: &mut Generator32,
    step: u64,
    timeout: u64,
) -> (WpBatch, WpBatch) {
    let source: EPPSWorker<()> = EPPSWorker::new(PROFILE, PROFILE, 3);
    let mut time = 0;
    let constraint = BatchConstraint { timeout, max_size: 100 };
    let pairs = source.emit_pairs(&mut time, constraint, generator, &|| step).unwrap();
    let (mut slice, start, _) = store.create_states(pairs.len() as u32);
    let batches = source.entangle((0, time), &pairs, &mut slice, start);
    assert!(store.release(slice));
    batches
}

fn claim(store: &mut InteractionStore, batches: &mut Vec<Vec<WavePacket>>) -> InteractionStoreSlice {
    match store.get_states(batches) {
        Claim::Granted(slice) => slice,
        _ => panic!("expected the states"),
    }
}

fn island_at(slice: &InteractionStoreSlice, handle: u32) -> &IslandOfInteraction {
    match slice.get(handle) {
        InteractionCell::IslandOfInteraction(island) => island,
        _ => panic!("expected an island"),
    }
}

fn operators_of(island: &IslandOfInteraction) -> Vec<String> {
    (0..island.operator_count()).map(|i| format!("{:?}", island.operator_at(i))).collect()
}

/// Lets a batch end in a detector, with everything that follows.
fn detect(store: &mut InteractionStore, spd: &SPDWorker<()>, batch: Vec<WavePacket>) -> Vec<WavePacket> {
    let mut batches = vec![batch];
    let mut slice = claim(store, &mut batches);
    assert!(spd.register_detections(&batches[0], &mut slice));
    let finished = finished_handles(&slice).unwrap();
    assert!(store.release(slice));
    let mut slice = store.get_states_from_raw_handles(&finished).unwrap();
    let results: Vec<CollapseResult> =
        finished.iter().map(|&handle| result_of(&slice, handle).unwrap()).collect();
    store_results(&mut slice, &finished, results);
    assert!(store.release(slice));
    batches.pop().unwrap()
}

#[test]
fn a_source_makes_pairs_in_time() {
    let source: EPPSWorker<()> = EPPSWorker::new(PROFILE, PROFILE, 3);
    let mut generator = Generator32::new(1);
    let mut time = 100;
    let constraint = BatchConstraint { timeout: 120, max_size: 100 };
    let pairs = source.emit_pairs(&mut time, constraint, &mut generator, &|| 10).unwrap();
    // the last one is made past the timeout
    let times: Vec<u64> = pairs.iter().map(|(signal, _)| signal.time).collect();
    assert_eq!(times, [110, 120, 130]);
    assert!(pairs.iter().all(|(signal, idler)| signal.time == idler.time));
    assert_eq!(time, 130);
    assert_eq!(pairs[0].0.snowflake, 0x101);
    assert_eq!(pairs[0].1.snowflake, 0x201);
    assert_eq!(pairs[2].1.snowflake, 0x601);
    // a full batch
    let constraint = BatchConstraint { timeout: 1_000_000, max_size: 2 };
    let pairs = source.emit_pairs(&mut time, constraint, &mut generator, &|| 10).unwrap();
    assert_eq!(pairs.len(), 2);
    // the clock has run out
    let constraint = BatchConstraint { timeout: u64::MAX, max_size: 2 };
    assert!(source.emit_pairs(&mut time, constraint, &mut generator, &|| u64::MAX).is_none());
}

#[test]
fn a_pair_shares_one_state() {
    let mut store = InteractionStore::new();
    let mut generator = Generator32::new(1);
    let (signal, idler) = emit(&mut store, &mut generator, 10, 10);
    assert_eq!(signal.batch.len(), 2);
    assert_eq!((signal.start_time, signal.end_time), (0, 20));
    assert_eq!(signal.batch[1].state_handle, 1);
    assert_eq!(signal.batch[1].state_handle, idler.batch[1].state_handle);
    let mut batches = vec![signal.batch, idler.batch];
    let slice = claim(&mut store, &mut batches);
    let island = island_at(&slice, 0);
    assert_eq!(island.active_packets.len(), 2);
    assert_eq!(island.mode_max, 2);
    assert_eq!(
        operators_of(island),
        ["EPPS { store_handle: 3, time: 10, source_modes: [], sink_modes: [0, 1] }"]
    );
}

#[test]
fn a_source_has_two_exits() {
    let mut source: EPPSWorker<&str> = EPPSWorker::new(PROFILE, PROFILE, 3);
    assert!(source.handle_connection(0, wire("signal")));
    assert!(source.handle_connection(1, wire("idler")));
    assert!(!source.handle_connection(2, wire("none")));
    assert_eq!(source.signal_sink.as_ref().unwrap().tx, "signal");
    assert_eq!(source.idler_sink.as_ref().unwrap().tx, "idler");
    let wide = WaveProfile { time_sigma: 99, ..PROFILE };
    assert!(source.set_wave_profile(1, wide));
    assert_eq!((source.signal_profile.time_sigma, source.idler_profile.time_sigma), (75, 99));
    assert!(source.set_wave_profile(0, wide));
    assert_eq!(source.signal_profile.time_sigma, 99);
    assert!(!source.set_wave_profile(2, PROFILE));
}

#[test]
fn a_fibre_delays_packets() {
    let mut store = InteractionStore::new();
    let mut generator = Generator32::new(1);
    let (signal, _idler) = emit(&mut store, &mut generator, 10, 0);
    let mut fibre: SinglePortWorker<&str> = SinglePortWorker::new(1000, 5);
    assert!(fibre.handle_connection(0, wire("out")));
    assert!(!fibre.handle_connection(1, wire("none")));
    fibre.handle_custom_event(SinglePortEvent::SetDelay(500));
    let mut batches = vec![signal.batch];
    let mut slice = claim(&mut store, &mut batches);
    let came = WpBatch { start_time: 0, end_time: 20, batch: batches.pop().unwrap() };
    let mut time = 0;
    let sent = fibre.process_batch(&came, &mut slice, &mut generator, &mut time).unwrap();
    assert_eq!((sent.start_time, sent.end_time), (500, 520));
    assert_eq!(sent.batch.len(), 1);
    assert_eq!(sent.batch[0].time, 510);
    assert_ne!(sent.batch[0].snowflake, came.batch[0].snowflake);
    assert_eq!(sent.batch[0].state_handle, came.batch[0].state_handle);
    assert_eq!(time, 10);
    let island = island_at(&slice, 0);
    assert!(island.has_packet(&sent.batch[0]));
    assert!(!island.has_packet(&came.batch[0]));
    assert_eq!(
        operators_of(island)[1],
        "Single { store_handle: 5, time: 10, source_modes: [0], sink_modes: [2] }"
    );
    // a packet that its state does not know
    let mut time = 0;
    assert!(fibre.process_batch(&came, &mut slice, &mut generator, &mut time).is_none());
    // a time that there is not
    let late = WpBatch { start_time: u64::MAX, end_time: u64::MAX, batch: Vec::new() };
    assert!(fibre.process_batch(&late, &mut slice, &mut generator, &mut time).is_none());
}

/// Two pairs, the idlers of which go to a 2x2 component.
fn two_sources(shift: u64) -> (InteractionStore, Generator32, Vec<Vec<WavePacket>>) {
    let mut store = InteractionStore::new();
    let mut generator = Generator32::new(1);
    let (_, left) = emit(&mut store, &mut generator, 10_000, 0);
    let (_, right) = emit(&mut store, &mut generator, 10_000 + shift, 0);
    (store, generator, vec![left.batch, right.batch])
}

#[test]
fn packets_that_meet_are_entangled() {
    let (mut store, mut generator, mut batches) = two_sources(100);
    let splitter: DualPortWorker<()> = DualPortWorker::new(4);
    let mut slice = claim(&mut store, &mut batches);
    let mut right = batches.pop().unwrap();
    let mut left = batches.pop().unwrap();
    let weigh = |early: WavePacket, late: WavePacket| late.time - early.time;
    let (first, second) = splitter
        .process_batch((0, 9), &mut left, &mut right, &mut slice, &mut generator, &weigh)
        .unwrap();
    assert_eq!((first.start_time, first.end_time), (0, 9));
    // each packet that came leaves through both exits
    assert_eq!(first.batch.len(), 2);
    assert_eq!(second.batch.len(), 2);
    assert_eq!(first.batch[0].time, 10_000);
    assert_eq!(second.batch[1].time, 10_100);
    // all of them in the state of the earlier packet
    assert!(first.batch.iter().chain(second.batch.iter()).all(|wp| wp.state_handle == 0));
    assert_eq!((left[0].state_handle, right[0].state_handle), (0, 0));
    let island = island_at(&slice, 0);
    let operators = operators_of(island);
    assert_eq!(operators.len(), 3);
    assert_eq!(
        operators[2],
        "DualBivariate { store_handle: 4, time: 10000, packet_indistinguishability_bits: 100, \
         source_modes: [1, 3], sink_modes: [4, 5, 6, 7] }"
    );
    // the other state has moved away
    assert!(matches!(slice.get(1), InteractionCell::Tombstone(t) if t.move_destination == 0));
    assert!(store.release(slice));
}

#[test]
fn packets_that_do_not_meet_stay_apart() {
    let (mut store, mut generator, mut batches) = two_sources(5_000);
    let mut splitter: DualPortWorker<&str> = DualPortWorker::new(4);
    assert!(splitter.handle_connection(0, wire("left")));
    assert!(splitter.handle_connection(1, wire("right")));
    assert!(!splitter.handle_connection(2, wire("none")));
    assert_eq!(splitter.sink_left.as_ref().unwrap().tx, "left");
    assert_eq!(splitter.sink_right.as_ref().unwrap().tx, "right");
    let mut slice = claim(&mut store, &mut batches);
    let mut right = batches.pop().unwrap();
    let mut left = batches.pop().unwrap();
    let weigh = |_: WavePacket, _: WavePacket| 0;
    let (first, second) = splitter
        .process_batch((0, 9), &mut left, &mut right, &mut slice, &mut generator, &weigh)
        .unwrap();
    assert_eq!((first.batch.len(), second.batch.len()), (2, 2));
    assert_eq!(
        operators_of(island_at(&slice, 0))[1],
        "DualUnivariate { store_handle: 4, time: 10000, incidence_port_id: 0, \
         source_modes: [1], sink_modes: [2, 3] }"
    );
    assert_eq!(
        operators_of(island_at(&slice, 1))[1],
        "DualUnivariate { store_handle: 4, time: 15000, incidence_port_id: 1, \
         source_modes: [1], sink_modes: [2, 3] }"
    );
    // what has left once is not there to leave again
    let gone = splitter.process_batch((0, 9), &mut left, &mut right, &mut slice, &mut generator, &weigh);
    assert!(gone.is_none());
}

/// Packets of their own pairs, at those times.
fn packets_at(
    store: &mut InteractionStore,
    generator: &mut Generator32,
    times: &[u64],
) -> Vec<WavePacket> {
    times
        .iter()
        .map(|&time| {
            let (signal, _) = emit(store, generator, time, 0);
            signal.batch[0]
        })
        .collect()
}

#[test]
fn two_and_three_packets_make_six_pairs() {
    let mut store = InteractionStore::new();
    let mut generator = Generator32::new(1);
    let left = packets_at(&mut store, &mut generator, &[10_000, 10_100, 90_000]);
    let right = packets_at(&mut store, &mut generator, &[10_020, 10_050, 10_120]);
    let mut batches = vec![left, right];
    let mut slice = claim(&mut store, &mut batches);
    let mut right = batches.pop().unwrap();
    let mut left = batches.pop().unwrap();
    let splitter: DualPortWorker<()> = DualPortWorker::new(4);
    let weigh = |early: WavePacket, late: WavePacket| early.time + late.time;
    splitter
        .process_batch((0, 9), &mut left, &mut right, &mut slice, &mut generator, &weigh)
        .unwrap();
    // all that overlap are in one state, and the one that does not is in its own
    let handle = left[0].state_handle;
    assert_eq!(left[1].state_handle, handle);
    assert!(right.iter().all(|wp| wp.state_handle == handle));
    assert_ne!(left[2].state_handle, handle);
    let island = island_at(&slice, handle);
    let mut weights = Vec::new();
    for i in 0..island.operator_count() {
        match island.operator_at(i) {
            Operator::DualBivariate { packet_indistinguishability_bits, .. } => {
                weights.push(packet_indistinguishability_bits)
            }
            Operator::DualUnivariate { .. } => panic!("no packet of it is alone"),
            _ => {}
        }
    }
    // once for each of the six pairs
    weights.sort();
    assert_eq!(weights, [20_020, 20_050, 20_120, 20_120, 20_150, 20_220]);
    let alone = operators_of(island_at(&slice, left[2].state_handle));
    assert!(alone[1].starts_with("DualUnivariate { store_handle: 4, time: 90000"));
    assert_eq!(alone.len(), 2);
}

#[test]
fn a_detector_finishes_islands() {
    let mut store = InteractionStore::new();
    let mut generator = Generator32::new(1);
    let (signal, idler) = emit(&mut store, &mut generator, 10, 10);
    let mut first: SPDWorker<()> = SPDWorker::new(1);
    let second: SPDWorker<()> = SPDWorker::new(2);
    first.handle_custom_event(SPDEvent::ConnectTimeTagger(()));
    assert!(first.tagger_channel.is_some());
    let signal = detect(&mut store, &first, signal.batch);
    // the other photon of each pair is still in flight
    assert!(matches!(store.get_collapsed_packets(&signal), Reading::Blocked));
    let idler = detect(&mut store, &second, idler.batch);
    match store.get_collapsed_packets(&signal) {
        Reading::Ready(times) => assert_eq!(times, [10, 20]),
        _ => panic!("expected the times"),
    }
    match store.get_collapsed_packets(&idler) {
        Reading::Ready(times) => assert_eq!(times, [10, 20]),
        _ => panic!("expected the times"),
    }
    // a packet that is in no result
    let stranger = vec![WavePacket { snowflake: 0, ..signal[0] }];
    assert!(matches!(store.get_collapsed_packets(&stranger), Reading::Unknown));
}

#[test]
fn a_detector_needs_islands() {
    let mut store = InteractionStore::new();
    let mut generator = Generator32::new(1);
    let (signal, _) = emit(&mut store, &mut generator, 10, 0);
    let spd: SPDWorker<()> = SPDWorker::new(1);
    let mut batches = vec![signal.batch];
    let mut slice = claim(&mut store, &mut batches);
    assert!(spd.register_detections(&batches[0], &mut slice));
    // it has been detected already
    assert!(!spd.register_detections(&batches[0], &mut slice));
    slice.set(0, InteractionCell::Vacant);
    assert!(finished_handles(&slice).is_none());
    assert!(result_of(&slice, 0).is_none());
    assert!(result_of(&slice, 17).is_none());
}

#[test]
fn two_photons_come_through_a_whole_circuit() {
    // one pair, a splitter, and a detector at each exit
    let mut store = InteractionStore::new();
    let mut generator = Generator32::new(1);
    let (signal, idler) = emit(&mut store, &mut generator, 10_000, 0);
    let splitter: DualPortWorker<()> = DualPortWorker::new(4);
    let mut batches = vec![signal.batch, idler.batch];
    let mut slice = claim(&mut store, &mut batches);
    let mut right = batches.pop().unwrap();
    let mut left = batches.pop().unwrap();
    let weigh = |_: WavePacket, _: WavePacket| 1.0f64.to_bits();
    let (first, second) = splitter
        .process_batch((0, 9), &mut left, &mut right, &mut slice, &mut generator, &weigh)
        .unwrap();
    assert!(store.release(slice));
    let mut results = Vec::new();
    for (id, batch) in [(1u16, first.batch), (2, second.batch)] {
        let spd: SPDWorker<()> = SPDWorker::new(id);
        let seen = detect(&mut store, &spd, batch);
        results.push(seen);
    }
    for seen in &results {
        match store.get_collapsed_packets(seen) {
            Reading::Ready(times) => assert_eq!(times, [10_000, 10_000]),
            _ => panic!("expected the times"),
        }
    }
}

#[test]
fn results_name_their_packets() {
    let outcome = WpResult::Success { time: 5, spd_id: 1, wp_snowflake: 9 };
    assert_eq!(outcome.wp_snowflake(), 9);
    let mut result = CollapseResult::new();
    result.push(outcome);
    result.push(WpResult::Empty { wp_snowflake: 10 });
    assert_eq!((result.len(), result.ref_cnt), (2, 2));
    let wp = PROFILE.new_wave_packet(77, 9);
    assert!(result.knows(&wp));
    // its own time, not that of the outcome
    assert_eq!(result.get(&wp), Some(77));
    assert_eq!(result.get(&wp.set_snowflake(10)), None);
    assert!(!result.knows(&wp.set_snowflake(11)));
    assert_eq!(result.at(1), WpResult::Empty { wp_snowflake: 10 });
}

#[test]
fn an_island_keeps_its_packets_and_operators() {
    let mut island = IslandOfInteraction::new();
    assert!(island.has_no_active_packets());
    // more than lie inline
    for i in 0..20u32 {
        let mode = island.register_wavepacket(&PROFILE.new_wave_packet(0, i));
        assert_eq!(mode, i as u16);
        let dump = Operator::Dump { source_modes: [i as u16], sink_modes: [] };
        assert_eq!(island.add_operator(dump), i as u16);
    }
    assert_eq!(island.extract_wavepacket(&PROFILE.new_wave_packet(0, 7)), 7);
    assert!(!island.has_packet(&PROFILE.new_wave_packet(0, 7)));
    assert!(island.has_packet(&PROFILE.new_wave_packet(0, 8)));
    assert_eq!(island.extract_wavepacket(&PROFILE.new_wave_packet(0, 19)), 19);
    assert_eq!(island.active_packets.len(), 18);
    assert_eq!(island.operator_count(), 20);
    assert_eq!(operators_of(&island)[19], "Dump { source_modes: [19], sink_modes: [] }");
}

#[test]
fn operators_move_up() {
    let operators = [
        Operator::EPPS { store_handle: 1, time: 2, source_modes: [], sink_modes: [0, 1] },
        Operator::Single { store_handle: 1, time: 2, source_modes: [0], sink_modes: [1] },
        Operator::DualBivariate {
            store_handle: 1,
            time: 2,
            packet_indistinguishability_bits: 3,
            source_modes: [0, 1],
            sink_modes: [2, 3, 4, 5],
        },
        Operator::DualUnivariate {
            store_handle: 1,
            time: 2,
            incidence_port_id: 1,
            source_modes: [0],
            sink_modes: [1, 2],
        },
        Operator::SPD { id: 1, wp_snowflake: 2, time: 3, source_modes: [4], sink_modes: [] },
        Operator::Dump { source_modes: [0], sink_modes: [] },
    ];
    let moved: Vec<String> =
        operators.iter().map(|op| format!("{:?}", op.clone_with_offset(10))).collect();
    assert_eq!(
        moved,
        [
            "EPPS { store_handle: 1, time: 2, source_modes: [], sink_modes: [10, 11] }",
            "Single { store_handle: 1, time: 2, source_modes: [10], sink_modes: [11] }",
            "DualBivariate { store_handle: 1, time: 2, packet_indistinguishability_bits: 3, \
             source_modes: [10, 11], sink_modes: [12, 13, 14, 15] }",
            "DualUnivariate { store_handle: 1, time: 2, incidence_port_id: 1, \
             source_modes: [10], sink_modes: [11, 12] }",
            "SPD { id: 1, wp_snowflake: 2, time: 3, source_modes: [14], sink_modes: [] }",
            "Dump { source_modes: [10], sink_modes: [] }",
        ]
    );
    assert!(operators[4].has_room_for(0xffff - 4));
    assert!(!operators[4].has_room_for(0xffff - 3));
}

#[test]
fn a_chain_of_meetings_ends_in_one_state() {
    // the left packet meets both right ones, which do not meet each other
    let mut store = InteractionStore::new();
    let mut generator = Generator32::new(1);
    let (_, early) = emit(&mut store, &mut generator, 9_700, 0);
    let (_, middle) = emit(&mut store, &mut generator, 10_000, 0);
    let (_, late) = emit(&mut store, &mut generator, 10_300, 0);
    let mut right = early.batch;
    right.extend(late.batch);
    let mut batches = vec![middle.batch, right];
    let splitter: DualPortWorker<()> = DualPortWorker::new(4);
    let mut slice = claim(&mut store, &mut batches);
    let mut right = batches.pop().unwrap();
    let mut left = batches.pop().unwrap();
    let weigh = |_: WavePacket, _: WavePacket| 0;
    splitter
        .process_batch((0, 9), &mut left, &mut right, &mut slice, &mut generator, &weigh)
        .unwrap();
    let home = left[0].state_handle;
    assert!(right.iter().all(|wp| wp.state_handle == home));
    let island = island_at(&slice, home);
    // three sources and two meetings; six packets leave, and three wait elsewhere
    assert_eq!(island.operator_count(), 5);
    assert_eq!(island.active_packets.len(), 9);
    assert!(store.release(slice));
}
