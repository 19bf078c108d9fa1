//! Wave packets and the batches that they travel in.

use vstd::prelude::*;

use crate::types::Time;

verus! {

/// A photon wave packet in flight.
///
/// The two wavelengths are only carried along here, so they are held as the bit
/// patterns of the 32-bit floating-point numbers that they are.
#[derive(Clone, Copy, Debug, PartialEq, Eq, Structural)]
pub struct WavePacket {
    pub time: Time,  // ps
    pub time_sigma: u32,  // ps, one sigma
    pub wavelength_bits: u32,
    pub wavelength_sigma_bits: u32,
    pub state_handle: u32,
    pub snowflake: u32,
}

impl WavePacket {
    /// Three sigma before the centre, cut off at time zero.
    pub open spec fn lead(self) -> int {
        if self.time >= 3 * self.time_sigma {
            self.time - 3 * self.time_sigma
        } else {
            0
        }
    }

    /// Three sigma after the centre.
    pub open spec fn trail(self) -> int {
        self.time + 3 * self.time_sigma
    }

    /// The trailing edge is a representable time.
    pub open spec fn fits(self) -> bool {
        self.trail() <= u64::MAX
    }

    /// The two packets share some time.
    pub open spec fn meets(self, other: WavePacket) -> bool {
        self.lead() < other.trail() && other.lead() < self.trail()
    }

    pub fn leading_edge(&self) -> (edge: u64)
        ensures
            edge == self.lead(),
    {
        // three sigma
        self.time.saturating_sub(self.time_sigma as u64 * 3)
    }

    pub fn trailing_edge(&self) -> (edge: u64)
        requires
            self.fits(),
        ensures
            edge == self.trail(),
    {
        self.time + self.time_sigma as u64 * 3
    }

    pub fn overlaps(&self, wp: &WavePacket) -> (shared: bool)
        requires
            self.fits(),
            wp.fits(),
        ensures
            shared == self.meets(*wp),
    {
        self.leading_edge() < wp.trailing_edge() && wp.leading_edge() < self.trailing_edge()
    }

    pub fn is_strictly_before(&self, reference_time: u64) -> (before: bool)
        requires
            self.fits(),
        ensures
            before == (self.trail() < reference_time),
    {
        self.trailing_edge() < reference_time
    }

    pub fn is_strictly_after(&self, reference_time: u64) -> (after: bool)
        ensures
            after == (self.lead() > reference_time),
    {
        self.leading_edge() > reference_time
    }

    /// The same packet under another identity.
    pub fn set_snowflake(self, snowflake: u32) -> (renamed: WavePacket)
        ensures
            renamed == (WavePacket { snowflake, ..self }),
    {
        WavePacket { snowflake, ..self }
    }
}

/// Overlap is mutual.
pub proof fn meets_is_symmetric(a: WavePacket, b: WavePacket)
    ensures
        a.meets(b) == b.meets(a),
{
}

/// A packet with some extent overlaps itself; a packet with none overlaps nothing
/// that has none either.
pub proof fn meets_itself_iff_extended(a: WavePacket)
    ensures
        a.meets(a) == (a.time_sigma > 0),
{
}

/// Every packet of the sequence has a representable trailing edge.
pub open spec fn all_fit(packets: Seq<WavePacket>) -> bool {
    forall|i: int| 0 <= i < packets.len() ==> (#[trigger] packets[i]).fits()
}

/// Packets whose centres and leading edges come one after the other.
pub open spec fn in_step(packets: Seq<WavePacket>) -> bool {
    forall|i: int, k: int|
        0 <= i <= k < packets.len() ==> (#[trigger] packets[i]).time <= (
        #[trigger] packets[k]).time && packets[i].lead() <= packets[k].lead()
}

/// Packets of both ports have some extent, or none of them has.
pub open spec fn alike(left: Seq<WavePacket>, right: Seq<WavePacket>) -> bool {
    forall|l: int, r: int|
        0 <= l < left.len() && 0 <= r < right.len() ==> ((#[trigger] left[l]).time_sigma > 0) == ((
        #[trigger] right[r]).time_sigma > 0)
}

/// Packets of one width are in step when their times are in order, and alike.
pub proof fn equal_widths_are_in_step(left: Seq<WavePacket>, right: Seq<WavePacket>, sigma: u32)
    requires
        forall|i: int| 0 <= i < left.len() ==> (#[trigger] left[i]).time_sigma == sigma,
        forall|i: int| 0 <= i < right.len() ==> (#[trigger] right[i]).time_sigma == sigma,
        forall|i: int, k: int|
            0 <= i <= k < left.len() ==> (#[trigger] left[i]).time <= (#[trigger] left[k]).time,
        forall|i: int, k: int|
            0 <= i <= k < right.len() ==> (#[trigger] right[i]).time <= (#[trigger] right[k]).time,
    ensures
        in_step(left),
        in_step(right),
        alike(left, right),
{
}

/// Packets in order of arrival, with the span of time that they cover.
pub struct WpBatch {
    pub start_time: u64,
    pub end_time: u64,
    pub batch: Vec<WavePacket>,
}

/// What a batch holds.
#[verifier::ext_equal]
pub struct BatchView {
    pub start_time: u64,
    pub end_time: u64,
    pub packets: Seq<WavePacket>,
}

impl BatchView {
    /// The trailing edge of the last packet, or the end of an empty batch.
    pub open spec fn trail(self) -> int {
        if self.packets.len() == 0 {
            self.end_time as int
        } else {
            self.packets.last().trail()
        }
    }

    /// The batch with one more packet, whose leading edge is the end of the batch.
    pub open spec fn pushed(self, wp: WavePacket) -> BatchView {
        BatchView { end_time: wp.lead() as u64, packets: self.packets.push(wp), ..self }
    }
}

impl View for WpBatch {
    type V = BatchView;

    open spec fn view(&self) -> BatchView {
        BatchView {
            start_time: self.start_time,
            end_time: self.end_time,
            packets: self.batch@,
        }
    }
}

impl WpBatch {
    /// Appends a packet, which is taken to arrive after every packet of the batch,
    /// and moves the end of the batch to its leading edge.
    pub fn push(&mut self, wp: WavePacket)
        ensures
            final(self)@ == old(self)@.pushed(wp),
    {
        self.end_time = wp.leading_edge();
        self.batch.push(wp);
    }

    // This breaks down with ultra-long packets, like those of a decaying ion: the
    // last packet need not be the one that ends last.
    pub fn trailing_edge(&self) -> (edge: Time)
        requires
            all_fit(self.batch@),
        ensures
            edge == self@.trail(),
    {
        let n: usize = self.batch.len();
        if n == 0 {
            self.end_time
        } else {
            self.batch[n - 1].trailing_edge()
        }
    }

    pub fn len(&self) -> (n: usize)
        ensures
            n == self.batch@.len(),
    {
        self.batch.len()
    }

    /// Whether every packet has a representable trailing edge.
    pub fn fits(&self) -> (fits: bool)
        ensures
            fits == all_fit(self.batch@),
    {
        let mut i: usize = 0;
        while i < self.batch.len()
            invariant
                i <= self.batch@.len(),
                forall|k: int| 0 <= k < i ==> (#[trigger] self.batch@[k]).fits(),
            decreases self.batch@.len() - i,
        {
            let wp = self.batch[i];
            if wp.time > 0xffff_ffff_ffff_ffff - wp.time_sigma as u64 * 3 {
                assert(!self.batch@[i as int].fits());
                return false;
            }
            i += 1;
        }
        true
    }
}

/// What a source gives every packet that it emits on one port.
#[derive(Clone, Copy)]
pub struct WaveProfile {
    pub time_sigma: u32,
    pub wavelength_bits: u32,
    pub wavelength_sigma_bits: u32,
}

impl WaveProfile {
    /// A packet of this profile at `time`, not yet tied to a state.
    pub fn new_wave_packet(&self, time: Time, snowflake: u32) -> (wp: WavePacket)
        ensures
            wp == (WavePacket {
                time,
                time_sigma: self.time_sigma,
                wavelength_bits: self.wavelength_bits,
                wavelength_sigma_bits: self.wavelength_sigma_bits,
                state_handle: 0,
                snowflake,
            }),
    {
        WavePacket {
            time,
            time_sigma: self.time_sigma,
            wavelength_bits: self.wavelength_bits,
            wavelength_sigma_bits: self.wavelength_sigma_bits,
            state_handle: 0,  // assigned later
            snowflake,
        }
    }
}

/// A packet reaches three sigma to either side of its centre, but not before time zero, and
/// keeps all its time to itself: two packets with some extent overlap exactly when there is an
/// instant that both cover.
pub proof fn packets_overlap_where_they_share_an_instant(a: WavePacket, b: WavePacket)
    ensures
        a.trail() - a.time == 3 * a.time_sigma,
        a.lead() == 0 || a.time - a.lead() == 3 * a.time_sigma,
        a.lead() >= 0,
        a.time - a.lead() <= 3 * a.time_sigma,
        a.time_sigma > 0 && b.time_sigma > 0 ==> (a.meets(b) <==> exists|t: int|
            #![trigger covers(a, t)]
            covers(a, t) && covers(b, t)),
{
    if a.meets(b) && a.time_sigma > 0 && b.time_sigma > 0 {
        let t = if a.lead() >= b.lead() {
            a.lead()
        } else {
            b.lead()
        };
        assert(covers(a, t) && covers(b, t));
    }
}

/// The instant lies within the packet.
pub open spec fn covers(wp: WavePacket, t: int) -> bool {
    wp.lead() <= t < wp.trail()
}

/// A packet pushed to a batch comes last, and the batch ends where it begins.
pub proof fn a_pushed_packet_comes_last(batch: BatchView, wp: WavePacket)
    ensures
        batch.pushed(wp).packets.len() == batch.packets.len() + 1,
        batch.pushed(wp).packets.last() == wp,
        batch.pushed(wp).packets.drop_last() == batch.packets,
        batch.pushed(wp).start_time == batch.start_time,
        batch.pushed(wp).end_time == wp.lead(),
        batch.pushed(wp).trail() == wp.trail(),
{
    assert(batch.pushed(wp).packets.drop_last() =~= batch.packets);
}

/// A batch reaches to where its last packet ends, and an empty one to its own end.
pub proof fn a_batch_reaches_to_its_last_packet(batch: BatchView)
    ensures
        batch.packets.len() == 0 ==> batch.trail() == batch.end_time,
        batch.packets.len() > 0 ==> batch.trail() == batch.packets[batch.packets.len() - 1].time + 3
            * batch.packets[batch.packets.len() - 1].time_sigma,
{
}

} // verus!
