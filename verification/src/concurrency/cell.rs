//! What a slot of the interaction store can hold.

use vstd::prelude::*;

use crate::concurrency::inline_lists::ResultList;
use crate::concurrency::operator::{IslandOfInteraction, IslandView};
use crate::nodes::packet::WavePacket;
use crate::types::{OpStoreHandle, Time};

verus! {

/// Left behind in the slot of an island that was merged into another one.
#[derive(Clone, Copy, Debug, PartialEq, Eq, Structural)]
pub struct Tombstone {
    // 256 qubits is more than too much to handle already
    // so u8 suffices
    pub ref_cnt: u8,
    pub move_destination: u32,
}

/// What became of one packet that reached a detector.
#[derive(Clone, Copy, Debug, PartialEq, Eq, Structural)]
pub enum WpResult {
    Empty { wp_snowflake: u32 },
    Success { time: u64, spd_id: OpStoreHandle, wp_snowflake: u32 },
}

impl WpResult {
    pub open spec fn snowflake(self) -> u32 {
        match self {
            WpResult::Empty { wp_snowflake } => wp_snowflake,
            WpResult::Success { wp_snowflake, .. } => wp_snowflake,
        }
    }

    pub fn wp_snowflake(&self) -> (snowflake: u32)
        ensures
            snowflake == self.snowflake(),
    {
        match self {
            WpResult::Empty { wp_snowflake } => *wp_snowflake,
            WpResult::Success { wp_snowflake, .. } => *wp_snowflake,
        }
    }
}

/// The place of the first result for this packet, or the length if there is none.
pub open spec fn first_result_for(packets: Seq<WpResult>, snowflake: u32) -> int
    decreases packets.len(),
{
    if packets.len() == 0 || packets[0].snowflake() == snowflake {
        0
    } else {
        1 + first_result_for(packets.drop_first(), snowflake)
    }
}

/// The detector outcomes of an island whose packets have all been detected.
pub struct CollapseResult {
    pub packets: ResultList,
    /// How many packets have a result here.
    pub ref_cnt: usize,
}

impl View for CollapseResult {
    type V = Seq<WpResult>;

    open spec fn view(&self) -> Seq<WpResult> {
        self.packets@
    }
}

impl CollapseResult {
    /// The reference count agrees with the results.
    pub open spec fn wf(self) -> bool {
        self.ref_cnt == self@.len()
    }

    pub fn new() -> (result: Self)
        ensures
            result@ == Seq::<WpResult>::empty(),
            result.wf(),
    {
        CollapseResult { packets: ResultList::new(), ref_cnt: 0 }
    }

    /// Records one more outcome.
    pub fn push(&mut self, outcome: WpResult)
        requires
            old(self).wf(),
        ensures
            final(self)@ == old(self)@.push(outcome),
            final(self).wf(),
    {
        self.packets.push(outcome);
        self.ref_cnt = self.packets.len();
    }

    pub fn len(&self) -> (n: usize)
        ensures
            n == self@.len(),
    {
        self.packets.len()
    }

    pub fn at(&self, i: usize) -> (outcome: WpResult)
        requires
            i < self@.len(),
        ensures
            outcome == self@[i as int],
    {
        self.packets.at(i)
    }

    /// Whether there is an outcome for this packet.
    pub fn knows(&self, wp: &WavePacket) -> (known: bool)
        ensures
            known == (first_result_for(self@, wp.snowflake) < self@.len()),
    {
        self.position(wp.snowflake) < self.packets.len()
    }

    fn position(&self, snowflake: u32) -> (index: usize)
        ensures
            index == first_result_for(self@, snowflake),
            index <= self@.len(),
    {
        let len: usize = self.packets.len();
        let mut i: usize = 0;
        assert(self@.skip(0) =~= self@);
        while i < len
            invariant
                len == self@.len(),
                i <= len,
                first_result_for(self@, snowflake) == i + first_result_for(
                    self@.skip(i as int),
                    snowflake,
                ),
            decreases len - i,
        {
            if self.packets.at(i).wp_snowflake() == snowflake {
                return i;
            }
            assert(self@.skip(i as int).drop_first() =~= self@.skip(i + 1));
            i += 1;
        }
        i
    }

    /// When the packet was seen, if it was: its own time, not that of the outcome.
    pub fn get(&self, wp: &WavePacket) -> (seen: Option<Time>)
        requires
            first_result_for(self@, wp.snowflake) < self@.len(),
        ensures
            seen == detection_of(self@, *wp),
    {
        let index: usize = self.position(wp.snowflake);
        match self.packets.at(index) {
            WpResult::Empty { .. } => None,
            WpResult::Success { .. } => Some(wp.time),
        }
    }
}

/// When the packet was seen according to these outcomes.
pub open spec fn detection_of(packets: Seq<WpResult>, wp: WavePacket) -> Option<Time> {
    match packets[first_result_for(packets, wp.snowflake)] {
        WpResult::Empty { .. } => None,
        WpResult::Success { .. } => Some(wp.time),
    }
}

/// A slot of the interaction store.
pub enum InteractionCell {
    Vacant,
    Tombstone(Tombstone),
    IslandOfInteraction(IslandOfInteraction),
    ComputeWip,
    Result(CollapseResult),
}

/// What a slot holds.
pub enum CellView {
    Vacant,
    Tombstone(Tombstone),
    Island(IslandView),
    ComputeWip,
    Result(Seq<WpResult>, usize),
}

impl View for InteractionCell {
    type V = CellView;

    open spec fn view(&self) -> CellView {
        match self {
            InteractionCell::Vacant => CellView::Vacant,
            InteractionCell::Tombstone(tombstone) => CellView::Tombstone(*tombstone),
            InteractionCell::IslandOfInteraction(island) => CellView::Island(island@),
            InteractionCell::ComputeWip => CellView::ComputeWip,
            InteractionCell::Result(result) => CellView::Result(result@, result.ref_cnt),
        }
    }
}

impl InteractionCell {
    /// The island in the cell; what `f` makes of the cell where there is none.
    pub fn unwrap_as_island_or_else<'a, F>(&'a mut self, f: F) -> (island:
        &'a mut IslandOfInteraction) where F: FnOnce(&Self) -> &'a mut IslandOfInteraction
        requires
            !(*old(self) is IslandOfInteraction) ==> f.requires((&*old(self),)),
        ensures
            *old(self) is IslandOfInteraction ==> *old(self)
                == InteractionCell::IslandOfInteraction(*island) && *final(self)
                == InteractionCell::IslandOfInteraction(*final(island)),
            !(*old(self) is IslandOfInteraction) ==> f.ensures((&*old(self),), island)
                && *final(self) == *old(self),
    {
        match self {
            InteractionCell::IslandOfInteraction(island) => island,
            _ => f(self),
        }
    }
}

} // verus!
