//! A component with one way in and one way out, such as a length of fibre.

use vstd::prelude::*;

use crate::concurrency::cell::{CellView, InteractionCell};
use crate::concurrency::operator::{IslandView, Operator};
use crate::concurrency::slice::{InteractionStoreSlice, SliceView};
use crate::concurrency::snowflake::{next_u32, snowflake_32, Generator32};
use crate::nodes::packet::{BatchView, WavePacket, WpBatch};
use crate::nodes::ports::TxPort;
use crate::types::{OpStoreHandle, PortId, Time};

verus! {

pub enum SinglePortEvent {
    SetDelay(u64),
}

pub struct SinglePortWorker<S> {
    pub sink: Option<TxPort<S>>,
    // max u32 picosecond time corresponds to 4ms, which is about 1200km in vacuum
    // distance, which is still not out of the realm of possibility, especially with
    // satellite based communication, so we still use u64 here
    pub delay: u64,
    pub seq: OpStoreHandle,
}

/// How far a batch has come through: the packets that leave, and how far the generator of
/// ids has counted.
#[verifier::ext_equal]
pub struct Passing {
    pub slice: SliceView,
    pub sinks: Seq<WavePacket>,
    pub count: int,
}

/// The packet can pass: its state is an island that knows it and has room for one more
/// mode, and the time at which it leaves is a time.
pub open spec fn can_pass(slice: SliceView, wp: WavePacket, delay: u64) -> bool {
    &&& wp.time + delay <= u64::MAX
    &&& slice.holds(wp.state_handle)
    &&& slice.cell(wp.state_handle) matches CellView::Island(island) && island.has_packet(
        wp.snowflake,
    ) && island.mode_max + 1 <= u16::MAX
}

/// The packet that leaves for one that came in.
pub open spec fn delayed(wp: WavePacket, delay: u64, snowflake: u32) -> WavePacket {
    WavePacket { time: (wp.time + delay) as u64, snowflake, ..wp }
}

/// The island after the packet came in and another left for it.
pub open spec fn passed_on(
    island: IslandView,
    wp: WavePacket,
    snowflake: u32,
    seq: OpStoreHandle,
) -> IslandView {
    island.without_packet(wp.snowflake).with_packet(snowflake).with_operator(
        Operator::Single {
            store_handle: seq,
            time: wp.time,
            source_modes: [island.mode_of(wp.snowflake)],
            sink_modes: [island.mode_max],
        },
    )
}

/// One packet passes.
pub open spec fn pass_on(
    x: Passing,
    wp: WavePacket,
    delay: u64,
    seq: OpStoreHandle,
    id: u8,
) -> Option<Passing> {
    if can_pass(x.slice, wp, delay) {
        let snowflake = snowflake_32(id, x.count + 1) as u32;
        let island = x.slice.cell(wp.state_handle)->Island_0;
        Some(
            Passing {
                slice: x.slice.with_cell(
                    wp.state_handle,
                    CellView::Island(passed_on(island, wp, snowflake, seq)),
                ),
                sinks: x.sinks.push(delayed(wp, delay, snowflake)),
                count: x.count + 1,
            },
        )
    } else {
        None
    }
}

/// All the packets pass, one after the other.
pub open spec fn pass_all(
    slice: SliceView,
    packets: Seq<WavePacket>,
    delay: u64,
    seq: OpStoreHandle,
    id: u8,
    count: int,
) -> Option<Passing>
    decreases packets.len(),
{
    if packets.len() == 0 {
        Some(Passing { slice, sinks: seq![], count })
    } else {
        match pass_all(slice, packets.drop_last(), delay, seq, id, count) {
            None => None,
            Some(so_far) => pass_on(so_far, packets.last(), delay, seq, id),
        }
    }
}

proof fn lemma_pass_fails(
    slice: SliceView,
    packets: Seq<WavePacket>,
    delay: u64,
    seq: OpStoreHandle,
    id: u8,
    count: int,
    n: int,
)
    requires
        0 <= n <= packets.len(),
        pass_all(slice, packets.take(n), delay, seq, id, count) is None,
    ensures
        pass_all(slice, packets, delay, seq, id, count) is None,
    decreases packets.len() - n,
{
    if n < packets.len() {
        assert(packets.take(n + 1).drop_last() =~= packets.take(n));
        lemma_pass_fails(slice, packets, delay, seq, id, count, n + 1);
    } else {
        assert(packets.take(n) =~= packets);
    }
}

/// A packet leaves for every packet that came, in the same order: `delay` later, in the
/// same state and with the same shape.
pub proof fn every_packet_is_delayed(
    slice: SliceView,
    packets: Seq<WavePacket>,
    delay: u64,
    seq: OpStoreHandle,
    id: u8,
    count: int,
)
    requires
        pass_all(slice, packets, delay, seq, id, count) is Some,
    ensures
        ({
            let sinks = (pass_all(slice, packets, delay, seq, id, count)->0).sinks;
            &&& sinks.len() == packets.len()
            &&& forall|i: int|
                0 <= i < packets.len() ==> {
                    &&& (#[trigger] sinks[i]).time == packets[i].time + delay
                    &&& sinks[i].time_sigma == packets[i].time_sigma
                    &&& sinks[i].wavelength_bits == packets[i].wavelength_bits
                    &&& sinks[i].wavelength_sigma_bits == packets[i].wavelength_sigma_bits
                    &&& sinks[i].state_handle == packets[i].state_handle
                    &&& sinks[i] == delayed(packets[i], delay, sinks[i].snowflake)
                }
        }),
    decreases packets.len(),
{
    if packets.len() > 0 {
        every_packet_is_delayed(slice, packets.drop_last(), delay, seq, id, count);
    }
}

impl<S> SinglePortWorker<S> {
    pub fn new(delay: u64, seq: OpStoreHandle) -> (worker: Self)
        ensures
            worker == (SinglePortWorker::<S> { sink: None, delay, seq }),
    {
        Self { sink: None, delay, seq }
    }

    /// Connects the exit. There is none but 0: the answer is whether the port has that
    /// number.
    pub fn handle_connection(&mut self, exit_port_id: PortId, tx_port: TxPort<S>) -> (connected:
        bool)
        ensures
            connected == (exit_port_id == 0),
            *final(self) == (if exit_port_id == 0 {
                SinglePortWorker { sink: Some(tx_port), ..*old(self) }
            } else {
                *old(self)
            }),
    {
        if exit_port_id != 0 {
            return false;
        }
        self.sink = Some(tx_port);
        true
    }

    pub fn handle_custom_event(&mut self, custom_event: SinglePortEvent)
        ensures
            *final(self) == (SinglePortWorker {
                delay: custom_event->SetDelay_0,
                ..*old(self)
            }),
    {
        match custom_event {
            SinglePortEvent::SetDelay(delay) => {
                self.delay = delay;
            },
        }
    }

    /// Lets one packet pass, and gives the one that leaves.
    fn pass(
        &self,
        wp: &WavePacket,
        slice: &mut InteractionStoreSlice,
        generator: &mut Generator32,
    ) -> (sink: Option<WavePacket>)
        requires
            old(slice).wf(),
        ensures
            final(slice).wf(),
            final(generator).id == old(generator).id,
            sink is Some <==> can_pass(old(slice)@, *wp, self.delay),
            sink matches Some(s) ==> {
                let snowflake = snowflake_32(
                    old(generator).id,
                    old(generator).counter + 1,
                ) as u32;
                let island = old(slice)@.cell(wp.state_handle)->Island_0;
                &&& s == delayed(*wp, self.delay, snowflake)
                &&& final(slice)@ == old(slice)@.with_cell(
                    wp.state_handle,
                    CellView::Island(passed_on(island, *wp, snowflake, self.seq)),
                )
                &&& final(generator).counter == (old(generator).counter + 1) % 0x1_0000_0000
            },
    {
        if wp.time > 0xffff_ffff_ffff_ffff - self.delay || !slice.holds(wp.state_handle) {
            return None;
        }
        let able = match slice.get(wp.state_handle) {
            InteractionCell::IslandOfInteraction(island) => island.has_packet(wp)
                && island.mode_max <= 0xfffe,
            _ => false,
        };
        if !able {
            return None;
        }
        let ghost before = slice@.cell(wp.state_handle)->Island_0;
        let snowflake: u32 = next_u32(generator);
        // dispersion would change the shape here as well
        let sink = WavePacket { time: wp.time + self.delay, snowflake, ..*wp };
        let cell = slice.get_mut(wp.state_handle);
        match cell {
            InteractionCell::IslandOfInteraction(island) => {
                let source_mode: u16 = island.extract_wavepacket(wp);
                let sink_mode: u16 = island.register_wavepacket(&sink);
                island.add_operator(
                    Operator::Single {
                        store_handle: self.seq,
                        time: wp.time,
                        source_modes: [source_mode],
                        sink_modes: [sink_mode],
                    },
                );
                assert([source_mode] =~= [before.mode_of(wp.snowflake)]);
                assert([sink_mode] =~= [before.mode_max]);
                Some(sink)
            },
            _ => None,
        }
    }

    /// Lets the packets of a batch pass, and gives the batch that leaves. The clock of
    /// the node follows the packets.
    ///
    /// Nothing leaves where a packet's state is no island that knows it, an island runs
    /// out of modes, or a time does.
    pub fn process_batch(
        &self,
        batch: &WpBatch,
        slice: &mut InteractionStoreSlice,
        generator: &mut Generator32,
        time: &mut Time,
    ) -> (sent: Option<WpBatch>)
        requires
            old(slice).wf(),
        ensures
            final(slice).wf(),
            final(generator).id == old(generator).id,
            ({
                let pass = pass_all(
                    old(slice)@,
                    batch@.packets,
                    self.delay,
                    self.seq,
                    old(generator).id,
                    old(generator).counter as int,
                );
                &&& sent is Some <==> pass is Some && batch.start_time + self.delay <= u64::MAX
                    && batch.end_time + self.delay <= u64::MAX
                &&& sent matches Some(s) ==> {
                    &&& s@ == (BatchView {
                        start_time: (batch.start_time + self.delay) as u64,
                        end_time: (batch.end_time + self.delay) as u64,
                        packets: (pass->0).sinks,
                    })
                    &&& final(slice)@ == (pass->0).slice
                    &&& final(generator).counter == (pass->0).count % 0x1_0000_0000
                    &&& *final(time) == (if batch@.packets.len() == 0 {
                        *old(time)
                    } else {
                        batch@.packets.last().time
                    })
                }
            }),
    {
        let latest: u64 = 0xffff_ffff_ffff_ffff - self.delay;
        if batch.start_time > latest || batch.end_time > latest {
            return None;
        }
        let ghost packets = batch@.packets;
        let ghost start = slice@;
        let ghost id = generator.id;
        let ghost first = generator.counter as int;
        let ghost mut count: int = first;
        let mut sink_batch: Vec<WavePacket> = Vec::new();
        let n: usize = batch.batch.len();
        let mut i: usize = 0;
        assert(packets.take(0) =~= seq![]);
        while i < n
            invariant
                packets == batch@.packets,
                n == packets.len(),
                i <= n,
                slice.wf(),
                start == old(slice)@,
                id == old(generator).id,
                first == old(generator).counter,
                generator.id == id,
                count >= 0,
                generator.counter == count % 0x1_0000_0000,
                *time == (if i == 0 {
                    *old(time)
                } else {
                    packets[i - 1].time
                }),
                pass_all(start, packets.take(i as int), self.delay, self.seq, id, first) == Some(
                    Passing { slice: slice@, sinks: sink_batch@, count },
                ),
            decreases n - i,
        {
            let wp = batch.batch[i];
            let ghost so_far = Passing { slice: slice@, sinks: sink_batch@, count };
            assert(packets.take(i + 1).drop_last() =~= packets.take(i as int));
            assert(packets.take(i + 1).last() == wp);
            *time = wp.time;
            assert(snowflake_32(id, count + 1) == snowflake_32(id, generator.counter + 1));
            match self.pass(&wp, slice, generator) {
                Some(sink) => {
                    sink_batch.push(sink);
                },
                None => {
                    proof {
                        lemma_pass_fails(
                            start,
                            packets,
                            self.delay,
                            self.seq,
                            id,
                            first,
                            i + 1,
                        );
                    }
                    return None;
                },
            }
            proof {
                count = count + 1;
            }
            i += 1;
        }
        assert(packets.take(n as int) =~= packets);
        Some(
            WpBatch {
                start_time: batch.start_time + self.delay,
                end_time: batch.end_time + self.delay,
                batch: sink_batch,
            },
        )
    }
}

} // verus!
