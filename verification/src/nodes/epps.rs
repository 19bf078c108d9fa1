//! A source of entangled photon pairs.

use vstd::prelude::*;

use crate::concurrency::cell::{CellView, InteractionCell};
use crate::concurrency::operator::{IslandOfInteraction, IslandView, Operator};
use crate::concurrency::slice::{InteractionStoreSlice, SliceView};
use crate::concurrency::snowflake::{next_u32, snowflake_32, Generator32};
use crate::nodes::epps_laws::has_profile;
use crate::nodes::packet::{BatchView, WavePacket, WaveProfile, WpBatch};
use crate::nodes::ports::TxPort;
use crate::types::{handle_at, handle_distance, BatchConstraint, OpStoreHandle, PortId, Time};

verus! {

/// The pump that drives the source, with its period and its success probability, is
/// the user's: here it only shows as the times between pairs.
pub struct EPPSWorker<S> {
    pub signal_profile: WaveProfile,
    pub idler_profile: WaveProfile,
    pub signal_sink: Option<TxPort<S>>,
    pub idler_sink: Option<TxPort<S>>,
    pub seq: OpStoreHandle,
}

/// The time that the steps take together.
pub open spec fn elapsed(steps: Seq<u64>) -> int
    decreases steps.len(),
{
    if steps.len() == 0 {
        0
    } else {
        elapsed(steps.drop_last()) + steps.last()
    }
}

/// Another pair may be made at that time, after `n` others.
pub open spec fn goes_on(time: int, n: int, constraint: BatchConstraint) -> bool {
    time <= constraint.timeout && n < constraint.max_size
}

/// The source went on after each of the steps but the last.
pub open spec fn is_run(start: Time, steps: Seq<u64>, constraint: BatchConstraint) -> bool {
    forall|k: int|
        0 <= k < steps.len() ==> goes_on(
            start + elapsed(#[trigger] steps.take(k)),
            k,
            constraint,
        )
}

/// The steps are what `step` gives.
pub open spec fn drawn<F: Fn() -> u64>(step: F, steps: Seq<u64>) -> bool {
    forall|k: int| 0 <= k < steps.len() ==> step.ensures((), #[trigger] steps[k])
}

/// When the pair is made that comes after that many others.
pub open spec fn pair_time(start: Time, steps: Seq<u64>, k: int) -> int {
    start + elapsed(steps.take(k + 1))
}

pub open spec fn packet_of(profile: WaveProfile, time: Time, snowflake: u32) -> WavePacket {
    WavePacket {
        time,
        time_sigma: profile.time_sigma,
        wavelength_bits: profile.wavelength_bits,
        wavelength_sigma_bits: profile.wavelength_sigma_bits,
        state_handle: 0,
        snowflake,
    }
}

/// The pairs that are made on the way: the two packets of each at one time, each under
/// an id of its own.
pub open spec fn emitted(
    signal: WaveProfile,
    idler: WaveProfile,
    start: Time,
    steps: Seq<u64>,
    id: u8,
    count: int,
) -> Seq<(WavePacket, WavePacket)> {
    Seq::new(
        steps.len(),
        |k: int|
            (
                packet_of(
                    signal,
                    pair_time(start, steps, k) as u64,
                    snowflake_32(id, count + 2 * k + 1) as u32,
                ),
                packet_of(
                    idler,
                    pair_time(start, steps, k) as u64,
                    snowflake_32(id, count + 2 * k + 2) as u32,
                ),
            ),
    )
}

proof fn lemma_elapsed_grows(steps: Seq<u64>, i: int, j: int)
    requires
        0 <= i <= j <= steps.len(),
    ensures
        0 <= elapsed(steps.take(i)) <= elapsed(steps.take(j)),
    decreases j,
{
    if j > 0 {
        assert(steps.take(j).drop_last() =~= steps.take(j - 1));
        if i < j {
            lemma_elapsed_grows(steps, i, j - 1);
        } else {
            lemma_elapsed_grows(steps, j - 1, j - 1);
        }
    }
}

proof fn lemma_run_goes_on(
    start: Time,
    steps: Seq<u64>,
    dt: u64,
    constraint: BatchConstraint,
)
    requires
        is_run(start, steps, constraint),
        goes_on(start + elapsed(steps), steps.len() as int, constraint),
    ensures
        is_run(start, steps.push(dt), constraint),
        elapsed(steps.push(dt)) == elapsed(steps) + dt,
{
    let now = steps.push(dt);
    assert(now.drop_last() =~= steps);
    assert forall|k: int| 0 <= k < now.len() implies goes_on(
        start + elapsed(#[trigger] now.take(k)),
        k,
        constraint,
    ) by {
        assert(now.take(k) =~= steps.take(k));
        if k == steps.len() {
            assert(steps.take(k) =~= steps);
        }
    }
}

proof fn lemma_one_more_pair(
    signal: WaveProfile,
    idler: WaveProfile,
    start: Time,
    steps: Seq<u64>,
    dt: u64,
    id: u8,
    count: int,
)
    ensures
        emitted(signal, idler, start, steps.push(dt), id, count) == emitted(
            signal,
            idler,
            start,
            steps,
            id,
            count,
        ).push(
            (
                packet_of(
                    signal,
                    (start + elapsed(steps) + dt) as u64,
                    snowflake_32(id, count + 2 * steps.len() + 1) as u32,
                ),
                packet_of(
                    idler,
                    (start + elapsed(steps) + dt) as u64,
                    snowflake_32(id, count + 2 * steps.len() + 2) as u32,
                ),
            ),
        ),
{
    let now = steps.push(dt);
    let n = steps.len() as int;
    assert(now.drop_last() =~= steps);
    assert(now.take(n + 1) =~= now);
    assert forall|k: int| 0 <= k < n implies #[trigger] pair_time(start, now, k) == pair_time(
        start,
        steps,
        k,
    ) by {
        assert(now.take(k + 1) =~= steps.take(k + 1));
    }
    assert(emitted(signal, idler, start, now, id, count) =~= emitted(
        signal,
        idler,
        start,
        steps,
        id,
        count,
    ).push(emitted(signal, idler, start, now, id, count)[n]));
}

/// The source never goes back in time, and a batch has no more pairs than it may have. All
/// but the last pair are made in time.
pub proof fn pairs_come_in_order(
    start: Time,
    steps: Seq<u64>,
    constraint: BatchConstraint,
    i: int,
    j: int,
)
    requires
        is_run(start, steps, constraint),
        0 <= i <= j < steps.len(),
    ensures
        start <= pair_time(start, steps, i) <= pair_time(start, steps, j),
        i < j ==> pair_time(start, steps, i) <= constraint.timeout,
        steps.len() <= constraint.max_size,
{
    lemma_elapsed_grows(steps, 0, i + 1);
    lemma_elapsed_grows(steps, i + 1, j + 1);
    if i < j {
        lemma_elapsed_grows(steps, i + 1, j);
        assert(goes_on(start + elapsed(steps.take(j)), j, constraint));
    }
    let last = steps.len() - 1;
    assert(goes_on(start + elapsed(steps.take(last)), last, constraint));
}

/// The state of a pair that was just made.
pub open spec fn pair_island(
    pair: (WavePacket, WavePacket),
    seq: OpStoreHandle,
) -> IslandView {
    IslandView {
        operators: seq![
            Operator::EPPS {
                store_handle: seq,
                time: pair.0.time,
                source_modes: [],
                sink_modes: [0, 1],
            },
        ],
        active_packets: seq![(pair.0.snowflake, 0), (pair.1.snowflake, 1)],
        mode_max: 2,
    }
}

/// The slice with the states of the pairs in the cells from `start` on.
pub open spec fn entangled(
    before: SliceView,
    after: SliceView,
    pairs: Seq<(WavePacket, WavePacket)>,
    start: u32,
    seq: OpStoreHandle,
) -> bool {
    &&& after.indices == before.indices
    &&& after.retired == before.retired
    &&& after.moved == before.moved
    &&& forall|handle: u32| #[trigger]
        after.holds(handle) ==> after.cell(handle) == (if handle_distance(start, handle)
            < pairs.len() {
            CellView::Island(pair_island(pairs[handle_distance(start, handle)], seq))
        } else {
            before.cell(handle)
        })
}

impl<S> EPPSWorker<S> {
    pub fn new(
        signal_profile: WaveProfile,
        idler_profile: WaveProfile,
        seq: OpStoreHandle,
    ) -> (worker: Self)
        ensures
            worker == (EPPSWorker::<S> {
                signal_profile,
                idler_profile,
                signal_sink: None,
                idler_sink: None,
                seq,
            }),
    {
        Self { signal_profile, idler_profile, signal_sink: None, idler_sink: None, seq }
    }

    /// Connects one of the two exits, 0 for the signal and 1 for the idler: the answer is
    /// whether the port has such a number.
    pub fn handle_connection(&mut self, exit_port_id: PortId, tx_port: TxPort<S>) -> (connected:
        bool)
        ensures
            connected == (exit_port_id <= 1),
            *final(self) == (if exit_port_id == 0 {
                EPPSWorker { signal_sink: Some(tx_port), ..*old(self) }
            } else if exit_port_id == 1 {
                EPPSWorker { idler_sink: Some(tx_port), ..*old(self) }
            } else {
                *old(self)
            }),
    {
        match exit_port_id {
            0 => {
                self.signal_sink = Some(tx_port);
                true
            },
            1 => {
                self.idler_sink = Some(tx_port);
                true
            },
            _ => false,
        }
    }

    /// Changes what the packets of one exit look like: the answer is whether the port is 0,
    /// for the signal, or 1, for the idler.
    pub fn set_wave_profile(&mut self, port: PortId, profile: WaveProfile) -> (changed: bool)
        ensures
            changed == (port <= 1),
            *final(self) == (if port == 0 {
                EPPSWorker { signal_profile: profile, ..*old(self) }
            } else if port == 1 {
                EPPSWorker { idler_profile: profile, ..*old(self) }
            } else {
                *old(self)
            }),
    {
        match port {
            0 => {
                self.signal_profile = profile;
                true
            },
            1 => {
                self.idler_profile = profile;
                true
            },
            _ => false,
        }
    }

    /// One pair. `total` is how far the generator has counted in all.
    fn make_pair(
        &self,
        time: Time,
        generator: &mut Generator32,
        Ghost(total): Ghost<int>,
    ) -> (pair: (WavePacket, WavePacket))
        requires
            total >= 0,
            old(generator).counter == total % 0x1_0000_0000,
        ensures
            final(generator).id == old(generator).id,
            final(generator).counter == (total + 2) % 0x1_0000_0000,
            pair == (
                packet_of(
                    self.signal_profile,
                    time,
                    snowflake_32(old(generator).id, total + 1) as u32,
                ),
                packet_of(
                    self.idler_profile,
                    time,
                    snowflake_32(old(generator).id, total + 2) as u32,
                ),
            ),
    {
        let signal = self.signal_profile.new_wave_packet(time, next_u32(generator));
        let idler = self.idler_profile.new_wave_packet(time, next_u32(generator));
        (signal, idler)
    }

    /// Makes pairs until the time is past the timeout or the batch is full. `step` gives
    /// the time from one pair to the next; `time` is the clock of the node.
    ///
    /// There is no batch where the clock runs out of times.
    pub fn emit_pairs<F: Fn() -> u64>(
        &self,
        time: &mut Time,
        constraint: BatchConstraint,
        generator: &mut Generator32,
        step: &F,
    ) -> (pairs: Option<Vec<(WavePacket, WavePacket)>>)
        requires
            step.requires(()),
        ensures
            final(generator).id == old(generator).id,
            pairs matches Some(p) ==> forall|k: int|
                0 <= k < p@.len() ==> has_profile((#[trigger] p@[k]).0, self.signal_profile)
                    && has_profile(p@[k].1, self.idler_profile) && p@[k].0.time == p@[k].1.time,
            exists|steps: Seq<u64>| #[trigger]
                drawn(*step, steps) && is_run(*old(time), steps, constraint) && match pairs {
                    Some(p) => {
                        &&& !goes_on(
                            *old(time) + elapsed(steps),
                            steps.len() as int,
                            constraint,
                        )
                        &&& *final(time) == *old(time) + elapsed(steps)
                        &&& p@ == emitted(
                            self.signal_profile,
                            self.idler_profile,
                            *old(time),
                            steps,
                            old(generator).id,
                            old(generator).counter as int,
                        )
                        &&& final(generator).counter == (old(generator).counter + 2 * steps.len())
                            % 0x1_0000_0000
                    },
                    None => *old(time) + elapsed(steps) > u64::MAX,
                },
    {
        let ghost start = *time;
        let ghost id = generator.id;
        let ghost count = generator.counter as int;
        let ghost mut steps: Seq<u64> = seq![];
        let mut pairs: Vec<(WavePacket, WavePacket)> = Vec::new();
        assert(pairs@ =~= emitted(
            self.signal_profile,
            self.idler_profile,
            start,
            steps,
            id,
            count,
        ));
        while *time <= constraint.timeout && pairs.len() < constraint.max_size
            invariant
                step.requires(()),
                start == *old(time),
                id == old(generator).id,
                count == old(generator).counter,
                generator.id == id,
                generator.counter == (count + 2 * steps.len()) % 0x1_0000_0000,
                *time == start + elapsed(steps),
                drawn(*step, steps),
                is_run(start, steps, constraint),
                pairs@ == emitted(
                    self.signal_profile,
                    self.idler_profile,
                    start,
                    steps,
                    id,
                    count,
                ),
            decreases constraint.max_size - pairs@.len(),
        {
            let ghost earlier = steps;
            let dt: u64 = step();
            proof {
                steps = steps.push(dt);
                lemma_run_goes_on(start, earlier, dt, constraint);
            }
            if dt > 0xffff_ffff_ffff_ffff - *time {
                assert(drawn(*step, steps));
                return None;
            }
            *time += dt;
            proof {
                lemma_one_more_pair(
                    self.signal_profile,
                    self.idler_profile,
                    start,
                    earlier,
                    dt,
                    id,
                    count,
                );
            }
            pairs.push(self.make_pair(*time, generator, Ghost(count + 2 * earlier.len())));
        }
        assert(drawn(*step, steps));
        Some(pairs)
    }

    /// Puts each pair in a state of its own, behind the handles from `start_handle` on, and
    /// gives the two batches that leave, the signal's and the idler's. `span` is the time
    /// that they cover.
    pub fn entangle(
        &self,
        span: (Time, Time),
        pairs: &Vec<(WavePacket, WavePacket)>,
        slice: &mut InteractionStoreSlice,
        start_handle: u32,
    ) -> (batches: (WpBatch, WpBatch))
        requires
            old(slice).wf(),
            pairs@.len() <= u32::MAX,
            forall|k: int|
                0 <= k < pairs@.len() ==> old(slice)@.holds(#[trigger] handle_at(start_handle, k)),
        ensures
            final(slice).wf(),
            entangled(old(slice)@, final(slice)@, pairs@, start_handle, self.seq),
            batches.0@ == (BatchView {
                start_time: span.0,
                end_time: span.1,
                packets: Seq::new(
                    pairs@.len(),
                    |k: int|
                        WavePacket { state_handle: handle_at(start_handle, k), ..pairs@[k].0 },
                ),
            }),
            batches.1@ == (BatchView {
                start_time: span.0,
                end_time: span.1,
                packets: Seq::new(
                    pairs@.len(),
                    |k: int|
                        WavePacket { state_handle: handle_at(start_handle, k), ..pairs@[k].1 },
                ),
            }),
    {
        let ghost before = slice@;
        let n: usize = pairs.len();
        let mut signal_packets: Vec<WavePacket> = Vec::new();
        let mut idler_packets: Vec<WavePacket> = Vec::new();
        let mut i: usize = 0;
        proof {
            slice.handles_are_held_once();
        }
        while i < n
            invariant
                n == pairs@.len(),
                n <= u32::MAX,
                i <= n,
                slice.wf(),
                before.wf(),
                forall|k: int|
                    0 <= k < pairs@.len() ==> before.holds(#[trigger] handle_at(start_handle, k)),
                entangled(before, slice@, pairs@.take(i as int), start_handle, self.seq),
                signal_packets@ == Seq::new(
                    i as nat,
                    |k: int|
                        WavePacket { state_handle: handle_at(start_handle, k), ..pairs@[k].0 },
                ),
                idler_packets@ == Seq::new(
                    i as nat,
                    |k: int|
                        WavePacket { state_handle: handle_at(start_handle, k), ..pairs@[k].1 },
                ),
            decreases n - i,
        {
            let handle: u32 = start_handle.wrapping_add(i as u32);
            assert(handle == handle_at(start_handle, i as int));
            let (signal, idler) = pairs[i];
            let signal = WavePacket { state_handle: handle, ..signal };
            let idler = WavePacket { state_handle: handle, ..idler };
            let mut island = IslandOfInteraction::new();
            let signal_mode: u16 = island.register_wavepacket(&signal);
            let idler_mode: u16 = island.register_wavepacket(&idler);
            island.add_operator(
                Operator::EPPS {
                    store_handle: self.seq,
                    time: signal.time,
                    source_modes: [],
                    sink_modes: [signal_mode, idler_mode],
                },
            );
            proof {
                slice.handles_are_held_once();
            }
            let ghost earlier = slice@;
            assert(island@ =~= pair_island(pairs@[i as int], self.seq)) by {
                assert(island@.operators.len() == 1);
            }
            slice.set(handle, InteractionCell::IslandOfInteraction(island));
            signal_packets.push(signal);
            idler_packets.push(idler);
            proof {
                lemma_set_keeps_the_rest(before, earlier, slice@, pairs@, start_handle, self.seq, i as int);
            }
            i += 1;
        }
        assert(pairs@.take(n as int) =~= pairs@);
        (
            WpBatch { start_time: span.0, end_time: span.1, batch: signal_packets },
            WpBatch { start_time: span.0, end_time: span.1, batch: idler_packets },
        )
    }
}

proof fn lemma_set_keeps_the_rest(
    before: SliceView,
    earlier: SliceView,
    now: SliceView,
    pairs: Seq<(WavePacket, WavePacket)>,
    start: u32,
    seq: OpStoreHandle,
    i: int,
)
    requires
        before.wf(),
        earlier.wf(),
        0 <= i < pairs.len() <= u32::MAX,
        entangled(before, earlier, pairs.take(i), start, seq),
        before.holds(handle_at(start, i)),
        now == earlier.with_cell(
            handle_at(start, i),
            CellView::Island(pair_island(pairs[i], seq)),
        ),
    ensures
        entangled(before, now, pairs.take(i + 1), start, seq),
{
    let set = handle_at(start, i);
    assert(earlier.indices[earlier.place(set)] == set);
    assert(handle_distance(start, set) == i);
    assert forall|handle: u32| #[trigger] now.holds(handle) implies now.cell(handle) == (
    if handle_distance(start, handle) < i + 1 {
        CellView::Island(pair_island(pairs.take(i + 1)[handle_distance(start, handle)], seq))
    } else {
        before.cell(handle)
    }) by {
        assert(earlier.holds(handle));
        assert(earlier.indices[earlier.place(handle)] == handle);
        let d = handle_distance(start, handle);
        assert(handle_at(start, d) == handle);
        if handle != set {
            assert(d != i);
            assert(now.cell(handle) == earlier.cell(handle));
        }
    }
}

} // verus!
