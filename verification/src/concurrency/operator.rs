//! The operators that act on the modes of an island of interaction, and the
//! island itself.

use vstd::prelude::*;

use crate::concurrency::inline_lists::{OperatorList, PacketModeList};
use crate::nodes::packet::WavePacket;
use crate::types::{ModeIndex, OpHandle, OpStoreHandle, PortId, Time, WpSnowflake};

verus! {

/// One optical element acting on modes of an island: it consumes the source
/// modes and produces the sink modes.
///
/// The operator's matrix is looked up elsewhere, by `store_handle` and `time`.
#[derive(Clone, Copy, Debug)]
#[allow(inconsistent_fields)]
pub enum Operator {
    /// An entangled photon pair source.
    EPPS {
        store_handle: OpStoreHandle,
        time: Time,
        source_modes: [ModeIndex; 0],
        sink_modes: [ModeIndex; 2],
    },
    /// A component with one way in and one way out.
    Single {
        store_handle: OpStoreHandle,
        time: Time,
        source_modes: [ModeIndex; 1],
        sink_modes: [ModeIndex; 1],
    },
    /// A 2x2 component with interference: photon incidence on both ports. The
    /// first source feeds the first two sinks, the second the other two.
    ///
    /// The indistinguishability (temporal and spectral overlap of the packets, at
    /// most one) is held as the bit pattern of the 64-bit floating-point number
    /// that it is.
    DualBivariate {
        store_handle: OpStoreHandle,
        time: Time,
        packet_indistinguishability_bits: u64,
        source_modes: [ModeIndex; 2],
        sink_modes: [ModeIndex; 4],
    },
    /// A 2x2 component without interference: one port at a time.
    DualUnivariate {
        store_handle: OpStoreHandle,
        time: Time,
        incidence_port_id: PortId,
        source_modes: [ModeIndex; 1],
        sink_modes: [ModeIndex; 2],
    },
    /// A single-photon detector.
    SPD {
        id: u16,
        wp_snowflake: u32,
        time: Time,
        source_modes: [ModeIndex; 1],
        sink_modes: [ModeIndex; 0],
    },
    Dump { source_modes: [ModeIndex; 1], sink_modes: [ModeIndex; 0] },
}

pub open spec fn moved_up(mode: ModeIndex, offset: ModeIndex) -> ModeIndex {
    (mode + offset) as ModeIndex
}

impl Operator {
    /// The modes that the operator consumes.
    pub open spec fn sources(self) -> Seq<ModeIndex> {
        match self {
            Operator::EPPS { source_modes, .. } => source_modes@,
            Operator::Single { source_modes, .. } => source_modes@,
            Operator::DualBivariate { source_modes, .. } => source_modes@,
            Operator::DualUnivariate { source_modes, .. } => source_modes@,
            Operator::SPD { source_modes, .. } => source_modes@,
            Operator::Dump { source_modes, .. } => source_modes@,
        }
    }

    /// The modes that the operator produces.
    pub open spec fn sinks(self) -> Seq<ModeIndex> {
        match self {
            Operator::EPPS { sink_modes, .. } => sink_modes@,
            Operator::Single { sink_modes, .. } => sink_modes@,
            Operator::DualBivariate { sink_modes, .. } => sink_modes@,
            Operator::DualUnivariate { sink_modes, .. } => sink_modes@,
            Operator::SPD { sink_modes, .. } => sink_modes@,
            Operator::Dump { sink_modes, .. } => sink_modes@,
        }
    }

    /// Every mode of the operator lies below `limit`.
    pub open spec fn modes_below(self, limit: int) -> bool {
        &&& forall|i: int| 0 <= i < self.sources().len() ==> (#[trigger] self.sources()[i]) < limit
        &&& forall|i: int| 0 <= i < self.sinks().len() ==> (#[trigger] self.sinks()[i]) < limit
    }

    /// The same operator with every mode moved up by `offset`.
    pub open spec fn shifted(self, offset: ModeIndex) -> Operator {
        match self {
            Operator::EPPS { store_handle, time, source_modes, sink_modes } => Operator::EPPS {
                store_handle,
                time,
                source_modes,
                sink_modes: [
                    moved_up(sink_modes[0], offset),
                    moved_up(sink_modes[1], offset),
                ],
            },
            Operator::Single { store_handle, time, source_modes, sink_modes } => Operator::Single {
                store_handle,
                time,
                source_modes: [moved_up(source_modes[0], offset)],
                sink_modes: [moved_up(sink_modes[0], offset)],
            },
            Operator::DualBivariate {
                store_handle,
                time,
                packet_indistinguishability_bits,
                source_modes,
                sink_modes,
            } => Operator::DualBivariate {
                store_handle,
                time,
                packet_indistinguishability_bits,
                source_modes: [
                    moved_up(source_modes[0], offset),
                    moved_up(source_modes[1], offset),
                ],
                sink_modes: [
                    moved_up(sink_modes[0], offset),
                    moved_up(sink_modes[1], offset),
                    moved_up(sink_modes[2], offset),
                    moved_up(sink_modes[3], offset),
                ],
            },
            Operator::DualUnivariate {
                store_handle,
                time,
                incidence_port_id,
                source_modes,
                sink_modes,
            } => Operator::DualUnivariate {
                store_handle,
                time,
                incidence_port_id,
                source_modes: [moved_up(source_modes[0], offset)],
                sink_modes: [
                    moved_up(sink_modes[0], offset),
                    moved_up(sink_modes[1], offset),
                ],
            },
            Operator::SPD { id, wp_snowflake, time, source_modes, sink_modes } => Operator::SPD {
                id,
                wp_snowflake,
                time,
                source_modes: [moved_up(source_modes[0], offset)],
                sink_modes,
            },
            Operator::Dump { source_modes, sink_modes } => Operator::Dump {
                source_modes: [moved_up(source_modes[0], offset)],
                sink_modes,
            },
        }
    }

    /// Whether every mode can be moved up by `offset`.
    pub fn has_room_for(&self, offset: ModeIndex) -> (room: bool)
        ensures
            room == self.modes_below(0x1_0000 - offset),
    {
        let limit: u16 = 0xffff - offset;
        match *self {
            Operator::EPPS { sink_modes, .. } => {
                proof {
                    assert(self.sinks()[0] == sink_modes[0] && self.sinks()[1] == sink_modes[1]);
                }
                sink_modes[0] <= limit && sink_modes[1] <= limit
            },
            Operator::Single { source_modes, sink_modes, .. } => {
                proof {
                    assert(self.sources()[0] == source_modes[0]);
                    assert(self.sinks()[0] == sink_modes[0]);
                }
                source_modes[0] <= limit && sink_modes[0] <= limit
            },
            Operator::DualBivariate { source_modes, sink_modes, .. } => {
                proof {
                    assert(self.sources()[0] == source_modes[0]);
                    assert(self.sources()[1] == source_modes[1]);
                    assert(self.sinks()[0] == sink_modes[0] && self.sinks()[1] == sink_modes[1]);
                    assert(self.sinks()[2] == sink_modes[2] && self.sinks()[3] == sink_modes[3]);
                }
                source_modes[0] <= limit && source_modes[1] <= limit && sink_modes[0] <= limit
                    && sink_modes[1] <= limit && sink_modes[2] <= limit && sink_modes[3] <= limit
            },
            Operator::DualUnivariate { source_modes, sink_modes, .. } => {
                proof {
                    assert(self.sources()[0] == source_modes[0]);
                    assert(self.sinks()[0] == sink_modes[0] && self.sinks()[1] == sink_modes[1]);
                }
                source_modes[0] <= limit && sink_modes[0] <= limit && sink_modes[1] <= limit
            },
            Operator::SPD { source_modes, .. } => {
                proof {
                    assert(self.sources()[0] == source_modes[0]);
                }
                source_modes[0] <= limit
            },
            Operator::Dump { source_modes, .. } => {
                proof {
                    assert(self.sources()[0] == source_modes[0]);
                }
                source_modes[0] <= limit
            },
        }
    }

    pub fn clone_with_offset(&self, offset: ModeIndex) -> (moved: Operator)
        requires
            self.modes_below(0x1_0000 - offset),
        ensures
            moved == self.shifted(offset),
    {
        let moved = match *self {
            Operator::EPPS { store_handle, time, source_modes, sink_modes } => {
                assert(self.sinks()[0] + offset <= u16::MAX && self.sinks()[1] + offset <= u16::MAX);
                Operator::EPPS {
                    store_handle,
                    time,
                    source_modes,
                    sink_modes: [sink_modes[0] + offset, sink_modes[1] + offset],
                }
            },
            Operator::Single { store_handle, time, source_modes, sink_modes } => {
                assert(self.sources()[0] + offset <= u16::MAX && self.sinks()[0] + offset
                    <= u16::MAX);
                Operator::Single {
                    store_handle,
                    time,
                    source_modes: [source_modes[0] + offset],
                    sink_modes: [sink_modes[0] + offset],
                }
            },
            Operator::DualBivariate {
                store_handle,
                time,
                packet_indistinguishability_bits,
                source_modes,
                sink_modes,
            } => {
                assert(self.sources()[0] + offset <= u16::MAX && self.sources()[1] + offset
                    <= u16::MAX);
                assert(self.sinks()[0] + offset <= u16::MAX && self.sinks()[1] + offset <= u16::MAX);
                assert(self.sinks()[2] + offset <= u16::MAX && self.sinks()[3] + offset <= u16::MAX);
                Operator::DualBivariate {
                    store_handle,
                    time,
                    packet_indistinguishability_bits,
                    source_modes: [source_modes[0] + offset, source_modes[1] + offset],
                    sink_modes: [
                        sink_modes[0] + offset,
                        sink_modes[1] + offset,
                        sink_modes[2] + offset,
                        sink_modes[3] + offset,
                    ],
                }
            },
            Operator::DualUnivariate {
                store_handle,
                time,
                incidence_port_id,
                source_modes,
                sink_modes,
            } => {
                assert(self.sources()[0] + offset <= u16::MAX);
                assert(self.sinks()[0] + offset <= u16::MAX && self.sinks()[1] + offset <= u16::MAX);
                Operator::DualUnivariate {
                    store_handle,
                    time,
                    incidence_port_id,
                    source_modes: [source_modes[0] + offset],
                    sink_modes: [sink_modes[0] + offset, sink_modes[1] + offset],
                }
            },
            Operator::SPD { id, wp_snowflake, time, source_modes, sink_modes } => {
                assert(self.sources()[0] + offset <= u16::MAX);
                Operator::SPD {
                    id,
                    wp_snowflake,
                    time,
                    source_modes: [source_modes[0] + offset],
                    sink_modes,
                }
            },
            Operator::Dump { source_modes, sink_modes } => {
                assert(self.sources()[0] + offset <= u16::MAX);
                Operator::Dump { source_modes: [source_modes[0] + offset], sink_modes }
            },
        };
        proof {
            let shifted = self.shifted(offset);
            assert(moved.sources() =~= shifted.sources());
            assert(moved.sinks() =~= shifted.sinks());
        }
        moved
    }
}

/// The place of the first entry with this packet id, or the length if there is none.
pub open spec fn first_with_id(packets: Seq<(WpSnowflake, ModeIndex)>, id: WpSnowflake) -> int
    decreases packets.len(),
{
    if packets.len() == 0 || packets[0].0 == id {
        0
    } else {
        1 + first_with_id(packets.drop_first(), id)
    }
}

/// `first_with_id` finds an entry where there is one, and none before it.
pub proof fn lemma_first_with_id(packets: Seq<(WpSnowflake, ModeIndex)>, id: WpSnowflake)
    ensures
        0 <= first_with_id(packets, id) <= packets.len(),
        first_with_id(packets, id) < packets.len() ==> packets[first_with_id(packets, id)].0 == id,
        forall|j: int| 0 <= j < first_with_id(packets, id) ==> (#[trigger] packets[j]).0 != id,
    decreases packets.len(),
{
    if packets.len() > 0 && packets[0].0 != id {
        lemma_first_with_id(packets.drop_first(), id);
        assert forall|j: int| 0 <= j < first_with_id(packets, id) implies (#[trigger] packets[j]).0
            != id by {
            if j > 0 {
                assert(packets.drop_first()[j - 1] == packets[j]);
            }
        }
    }
}

/// The packets in flight that belong to an island, each with its mode.
pub struct ActivePacketStore {
    active_packets: PacketModeList,
}

impl View for ActivePacketStore {
    type V = Seq<(WpSnowflake, ModeIndex)>;

    closed spec fn view(&self) -> Seq<(WpSnowflake, ModeIndex)> {
        self.active_packets@
    }
}

impl ActivePacketStore {
    pub fn new() -> (store: Self)
        ensures
            store@ == Seq::<(WpSnowflake, ModeIndex)>::empty(),
    {
        Self { active_packets: PacketModeList::new() }
    }

    /// Whether a packet with this id is in flight.
    pub fn holds(&self, packet_id: WpSnowflake) -> (found: bool)
        ensures
            found == (first_with_id(self@, packet_id) < self@.len()),
    {
        self.position(packet_id) < self.active_packets.len()
    }

    fn position(&self, packet_id: WpSnowflake) -> (index: usize)
        ensures
            index == first_with_id(self@, packet_id),
            index <= self@.len(),
    {
        let len: usize = self.active_packets.len();
        let mut i: usize = 0;
        assert(self@.skip(0) =~= self@);
        while i < len
            invariant
                len == self@.len(),
                i <= len,
                first_with_id(self@, packet_id) == i + first_with_id(self@.skip(i as int), packet_id),
            decreases len - i,
        {
            if self.active_packets.at(i).0 == packet_id {
                return i;
            }
            assert(self@.skip(i as int).drop_first() =~= self@.skip(i + 1));
            i += 1;
        }
        i
    }

    /// Takes the first packet with this id out and gives its mode.
    pub fn extract(&mut self, packet_id: WpSnowflake) -> (mode: ModeIndex)
        requires
            first_with_id(old(self)@, packet_id) < old(self)@.len(),
        ensures
            mode == old(self)@[first_with_id(old(self)@, packet_id)].1,
            final(self)@ == old(self)@.remove(first_with_id(old(self)@, packet_id)),
    {
        let match_index: usize = self.position(packet_id);
        self.active_packets.remove(match_index).1
    }

    pub fn add(&mut self, packet_id: WpSnowflake, mode_id: ModeIndex)
        ensures
            final(self)@ == old(self)@.push((packet_id, mode_id)),
    {
        self.active_packets.push((packet_id, mode_id));
    }

    pub fn is_empty(&self) -> (empty: bool)
        ensures
            empty == (self@.len() == 0),
    {
        self.active_packets.len() == 0
    }

    // 256 qubits is more than too much to handle already, so u8 suffices
    pub fn len(&self) -> (n: u8)
        ensures
            n == self@.len() % 256,
    {
        let n: usize = self.active_packets.len();
        assert(n as u8 == n % 256) by (bit_vector);
        n as u8
    }

    /// The number of packets in flight, in full.
    pub fn count(&self) -> (n: usize)
        ensures
            n == self@.len(),
    {
        self.active_packets.len()
    }

    /// The packet and mode at that place.
    pub fn at(&self, i: usize) -> (entry: (WpSnowflake, ModeIndex))
        requires
            i < self@.len(),
        ensures
            entry == self@[i as int],
    {
        self.active_packets.at(i)
    }
}

/// What an island holds.
#[verifier::ext_equal]
pub struct IslandView {
    pub operators: Seq<Operator>,
    pub active_packets: Seq<(WpSnowflake, ModeIndex)>,
    /// Every mode of the island is below this.
    pub mode_max: u16,
}

impl IslandView {
    /// A packet with this id is in flight.
    pub open spec fn has_packet(self, id: WpSnowflake) -> bool {
        first_with_id(self.active_packets, id) < self.active_packets.len()
    }

    /// The mode of the packet with this id.
    pub open spec fn mode_of(self, id: WpSnowflake) -> ModeIndex {
        self.active_packets[first_with_id(self.active_packets, id)].1
    }

    /// The island without the packet.
    pub open spec fn without_packet(self, id: WpSnowflake) -> IslandView {
        IslandView {
            active_packets: self.active_packets.remove(first_with_id(self.active_packets, id)),
            ..self
        }
    }

    /// The island with one more packet, in a mode of its own.
    pub open spec fn with_packet(self, id: WpSnowflake) -> IslandView {
        IslandView {
            active_packets: self.active_packets.push((id, self.mode_max)),
            mode_max: (self.mode_max + 1) as u16,
            ..self
        }
    }

    pub open spec fn with_operator(self, operator: Operator) -> IslandView {
        IslandView { operators: self.operators.push(operator), ..self }
    }

    pub open spec fn with_operators(self, operators: Seq<Operator>) -> IslandView {
        IslandView { operators: self.operators + operators, ..self }
    }
}

/// A donor island can move into the recipient: every mode has a number there.
pub open spec fn can_merge(recipient: IslandView, donor: IslandView) -> bool {
    &&& recipient.mode_max + donor.mode_max <= u16::MAX
    &&& forall|i: int|
        0 <= i < donor.operators.len() ==> (#[trigger] donor.operators[i]).modes_below(
            0x1_0000 - recipient.mode_max,
        )
    &&& forall|i: int|
        0 <= i < donor.active_packets.len() ==> (#[trigger] donor.active_packets[i]).1
            + recipient.mode_max <= u16::MAX
}

/// The recipient with the donor's operators and packets added, their modes moved up
/// behind those of the recipient.
pub open spec fn merged_island(recipient: IslandView, donor: IslandView) -> IslandView {
    let offset = recipient.mode_max;
    IslandView {
        operators: recipient.operators + donor.operators.map_values(
            |operator: Operator| operator.shifted(offset),
        ),
        active_packets: recipient.active_packets + donor.active_packets.map_values(
            |entry: (WpSnowflake, ModeIndex)| (entry.0, moved_up(entry.1, offset)),
        ),
        mode_max: (recipient.mode_max + donor.mode_max) as u16,
    }
}

/// The packets whose joint state cannot be told apart into separate states, with
/// the operators that made it so.
pub struct IslandOfInteraction {
    pub operators: OperatorList,
    pub active_packets: ActivePacketStore,
    pub mode_max: u16,  // mode_index < mode_max
}

impl View for IslandOfInteraction {
    type V = IslandView;

    open spec fn view(&self) -> IslandView {
        IslandView {
            operators: self.operators@,
            active_packets: self.active_packets@,
            mode_max: self.mode_max,
        }
    }
}

impl IslandOfInteraction {
    pub fn new() -> (island: Self)
        ensures
            island@ == (IslandView { operators: seq![], active_packets: seq![], mode_max: 0 }),
    {
        Self {
            operators: OperatorList::new(),
            active_packets: ActivePacketStore::new(),
            mode_max: 0,
        }
    }

    /// Records an operator and gives its place, cut to the width of a handle.
    pub fn add_operator(&mut self, operator: Operator) -> (handle: OpHandle)
        ensures
            handle == old(self)@.operators.len() % 0x1_0000,
            final(self)@ == old(self)@.with_operator(operator),
    {
        let len: usize = self.operators.len();
        self.operators.push(operator);
        assert(len as u16 == len % 0x1_0000) by (bit_vector);
        len as OpHandle
    }

    /// Gives the packet a mode of its own.
    pub fn register_wavepacket(&mut self, wp: &WavePacket) -> (mode: ModeIndex)
        requires
            old(self)@.mode_max < u16::MAX,
        ensures
            mode == old(self)@.mode_max,
            final(self)@ == old(self)@.with_packet(wp.snowflake),
    {
        let mode_index: u16 = self.mode_max;
        self.active_packets.add(wp.snowflake, mode_index);
        self.mode_max = mode_index + 1;
        mode_index
    }

    /// Takes the packet out of flight and gives the mode that it was in.
    pub fn extract_wavepacket(&mut self, wp: &WavePacket) -> (mode: ModeIndex)
        requires
            old(self)@.has_packet(wp.snowflake),
        ensures
            mode == old(self)@.mode_of(wp.snowflake),
            final(self)@ == old(self)@.without_packet(wp.snowflake),
    {
        self.active_packets.extract(wp.snowflake)
    }

    /// Whether the donor can move into this island.
    pub fn can_take_in(&self, donor: &IslandOfInteraction) -> (can: bool)
        ensures
            can == can_merge(self@, donor@),
    {
        let offset: u16 = self.mode_max;
        if donor.mode_max > 0xffff - offset {
            return false;
        }
        let n: usize = donor.operators.len();
        let mut i: usize = 0;
        while i < n
            invariant
                offset == self@.mode_max,
                n == donor@.operators.len(),
                i <= n,
                forall|k: int|
                    0 <= k < i ==> (#[trigger] donor@.operators[k]).modes_below(0x1_0000 - offset),
            decreases n - i,
        {
            if !donor.operators.at(i).has_room_for(offset) {
                return false;
            }
            i += 1;
        }
        let packets: usize = donor.active_packets.count();
        let mut i: usize = 0;
        while i < packets
            invariant
                offset == self@.mode_max,
                packets == donor@.active_packets.len(),
                i <= packets,
                forall|k: int|
                    0 <= k < i ==> (#[trigger] donor@.active_packets[k]).1 + offset <= u16::MAX,
            decreases packets - i,
        {
            if donor.active_packets.at(i).1 > 0xffff - offset {
                return false;
            }
            i += 1;
        }
        true
    }

    /// Moves the operators and packets of the donor here.
    pub fn take_in(&mut self, donor: &IslandOfInteraction)
        requires
            can_merge(old(self)@, donor@),
        ensures
            final(self)@ == merged_island(old(self)@, donor@),
    {
        let ghost before = self@;
        let offset: u16 = self.mode_max;
        let n: usize = donor.operators.len();
        let mut i: usize = 0;
        let ghost moved_ops = donor@.operators.map_values(
            |operator: Operator| operator.shifted(offset),
        );
        assert(before.operators + moved_ops.take(0) =~= before.operators);
        while i < n
            invariant
                offset == before.mode_max,
                can_merge(before, donor@),
                n == donor@.operators.len(),
                moved_ops == donor@.operators.map_values(
                    |operator: Operator| operator.shifted(offset),
                ),
                i <= n,
                self@.mode_max == before.mode_max,
                self@.active_packets == before.active_packets,
                self@.operators == before.operators + moved_ops.take(i as int),
            decreases n - i,
        {
            let operator = donor.operators.at(i);
            assert(operator == donor@.operators[i as int]);
            self.operators.push(operator.clone_with_offset(offset));
            assert(before.operators + moved_ops.take(i + 1) =~= (before.operators + moved_ops.take(
                i as int,
            )).push(moved_ops[i as int]));
            i += 1;
        }
        assert(moved_ops.take(n as int) =~= moved_ops);
        let packets: usize = donor.active_packets.count();
        let mut i: usize = 0;
        let ghost moved = donor@.active_packets.map_values(
            |entry: (WpSnowflake, ModeIndex)| (entry.0, moved_up(entry.1, offset)),
        );
        assert(before.active_packets + moved.take(0) =~= before.active_packets);
        while i < packets
            invariant
                can_merge(before, donor@),
                offset == before.mode_max,
                packets == donor@.active_packets.len(),
                moved == donor@.active_packets.map_values(
                    |entry: (WpSnowflake, ModeIndex)| (entry.0, moved_up(entry.1, offset)),
                ),
                i <= packets,
                self@.mode_max == before.mode_max,
                self@.operators == before.operators + moved_ops,
                self@.active_packets == before.active_packets + moved.take(i as int),
            decreases packets - i,
        {
            let (packet_id, mode_idx) = donor.active_packets.at(i);
            assert((packet_id, mode_idx) == donor@.active_packets[i as int]);
            self.active_packets.add(packet_id, mode_idx + offset);
            assert(before.active_packets + moved.take(i + 1) =~= (before.active_packets
                + moved.take(i as int)).push(moved[i as int]));
            i += 1;
        }
        assert(moved.take(packets as int) =~= moved);
        self.mode_max = self.mode_max + donor.mode_max;
    }

    pub fn has_packet(&self, wp: &WavePacket) -> (found: bool)
        ensures
            found == self@.has_packet(wp.snowflake),
    {
        self.active_packets.holds(wp.snowflake)
    }

    pub fn has_no_active_packets(&self) -> (none: bool)
        ensures
            none == (self@.active_packets.len() == 0),
    {
        self.active_packets.is_empty()
    }

    pub fn operator_count(&self) -> (n: usize)
        ensures
            n == self@.operators.len(),
    {
        self.operators.len()
    }

    pub fn operator_at(&self, i: usize) -> (operator: Operator)
        requires
            i < self@.operators.len(),
        ensures
            operator == self@.operators[i as int],
    {
        self.operators.at(i)
    }
}

} // verus!
