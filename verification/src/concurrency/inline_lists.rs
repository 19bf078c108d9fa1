//! Short lists that keep their first items inline, on top of `smallvec`.
//!
//! Each list is a `SmallVec` of one item type; what it holds is the sequence
//! named beside it, and the methods say over that sequence what the `SmallVec`
//! method of the same name does.

use vstd::prelude::*;

use crate::concurrency::cell::WpResult;
use crate::concurrency::operator::Operator;
use crate::nodes::packet::WavePacket;
use crate::types::{ModeIndex, WpSnowflake};

verus! {

/// The operators of an island; the first thirteen lie inline.
#[verifier::external_body]
pub struct OperatorList {
    items: smallvec::SmallVec<[Operator; 13]>,
}

/// What an `OperatorList` holds, first item first.
pub uninterp spec fn operator_items(list: OperatorList) -> Seq<Operator>;

impl View for OperatorList {
    type V = Seq<Operator>;

    open spec fn view(&self) -> Seq<Operator> {
        operator_items(*self)
    }
}

impl OperatorList {
    /// `SmallVec::new`: an empty list.
    #[verifier::external_body]
    pub(crate) fn new() -> (list: OperatorList)
        ensures
            operator_items(list) == Seq::<Operator>::empty(),
    {
        OperatorList { items: smallvec::SmallVec::new() }
    }

    /// `SmallVec::push`: appends the item.
    #[verifier::external_body]
    pub(crate) fn push(&mut self, item: Operator)
        ensures
            operator_items(*final(self)) == operator_items(*old(self)).push(item),
    {
        self.items.push(item);
    }

    /// `SmallVec::len`: the number of items.
    #[verifier::external_body]
    pub(crate) fn len(&self) -> (n: usize)
        ensures
            n == operator_items(*self).len(),
    {
        self.items.len()
    }

    /// Indexing into a `SmallVec`: the item at that place.
    #[verifier::external_body]
    pub(crate) fn at(&self, i: usize) -> (item: Operator)
        requires
            i < operator_items(*self).len(),
        ensures
            item == operator_items(*self)[i as int],
    {
        self.items[i]
    }
}

/// The packets of an island with their modes; the first eight lie inline.
#[verifier::external_body]
pub struct PacketModeList {
    items: smallvec::SmallVec<[(WpSnowflake, ModeIndex); 8]>,
}

/// What a `PacketModeList` holds, first item first.
pub uninterp spec fn packet_mode_items(list: PacketModeList) -> Seq<(WpSnowflake, ModeIndex)>;

impl View for PacketModeList {
    type V = Seq<(WpSnowflake, ModeIndex)>;

    open spec fn view(&self) -> Seq<(WpSnowflake, ModeIndex)> {
        packet_mode_items(*self)
    }
}

impl PacketModeList {
    /// `SmallVec::new`: an empty list.
    #[verifier::external_body]
    pub(crate) fn new() -> (list: PacketModeList)
        ensures
            packet_mode_items(list) == Seq::<(WpSnowflake, ModeIndex)>::empty(),
    {
        PacketModeList { items: smallvec::SmallVec::new() }
    }

    /// `SmallVec::push`: appends the item.
    #[verifier::external_body]
    pub(crate) fn push(&mut self, item: (WpSnowflake, ModeIndex))
        ensures
            packet_mode_items(*final(self)) == packet_mode_items(*old(self)).push(item),
    {
        self.items.push(item);
    }

    /// `SmallVec::len`: the number of items.
    #[verifier::external_body]
    pub(crate) fn len(&self) -> (n: usize)
        ensures
            n == packet_mode_items(*self).len(),
    {
        self.items.len()
    }

    /// Indexing into a `SmallVec`: the item at that place.
    #[verifier::external_body]
    pub(crate) fn at(&self, i: usize) -> (item: (WpSnowflake, ModeIndex))
        requires
            i < packet_mode_items(*self).len(),
        ensures
            item == packet_mode_items(*self)[i as int],
    {
        self.items[i]
    }

    /// `SmallVec::remove`: takes the item at that place out and closes the gap.
    #[verifier::external_body]
    pub(crate) fn remove(&mut self, i: usize) -> (item: (WpSnowflake, ModeIndex))
        requires
            i < packet_mode_items(*old(self)).len(),
        ensures
            item == packet_mode_items(*old(self))[i as int],
            packet_mode_items(*final(self)) == packet_mode_items(*old(self)).remove(i as int),
    {
        self.items.remove(i)
    }
}

/// The detector outcomes of an island; the first twenty lie inline.
#[verifier::external_body]
pub struct ResultList {
    items: smallvec::SmallVec<[WpResult; 20]>,
}

/// What a `ResultList` holds, first item first.
pub uninterp spec fn result_items(list: ResultList) -> Seq<WpResult>;

impl View for ResultList {
    type V = Seq<WpResult>;

    open spec fn view(&self) -> Seq<WpResult> {
        result_items(*self)
    }
}

impl ResultList {
    /// `SmallVec::new`: an empty list.
    #[verifier::external_body]
    pub(crate) fn new() -> (list: ResultList)
        ensures
            result_items(list) == Seq::<WpResult>::empty(),
    {
        ResultList { items: smallvec::SmallVec::new() }
    }

    /// `SmallVec::push`: appends the item.
    #[verifier::external_body]
    pub(crate) fn push(&mut self, item: WpResult)
        ensures
            result_items(*final(self)) == result_items(*old(self)).push(item),
    {
        self.items.push(item);
    }

    /// `SmallVec::len`: the number of items.
    #[verifier::external_body]
    pub(crate) fn len(&self) -> (n: usize)
        ensures
            n == result_items(*self).len(),
    {
        self.items.len()
    }

    /// Indexing into a `SmallVec`: the item at that place.
    #[verifier::external_body]
    pub(crate) fn at(&self, i: usize) -> (item: WpResult)
        requires
            i < result_items(*self).len(),
        ensures
            item == result_items(*self)[i as int],
    {
        self.items[i]
    }
}

/// Packets of one port that belong together; the first lies inline.
#[verifier::external_body]
pub struct PacketList {
    items: smallvec::SmallVec<[WavePacket; 1]>,
}

/// What a `PacketList` holds, first item first.
pub uninterp spec fn packet_items(list: PacketList) -> Seq<WavePacket>;

impl View for PacketList {
    type V = Seq<WavePacket>;

    open spec fn view(&self) -> Seq<WavePacket> {
        packet_items(*self)
    }
}

impl PacketList {
    /// `SmallVec::new`: an empty list.
    #[verifier::external_body]
    pub(crate) fn new() -> (list: PacketList)
        ensures
            packet_items(list) == Seq::<WavePacket>::empty(),
    {
        PacketList { items: smallvec::SmallVec::new() }
    }

    /// `SmallVec::push`: appends the item.
    #[verifier::external_body]
    pub(crate) fn push(&mut self, item: WavePacket)
        ensures
            packet_items(*final(self)) == packet_items(*old(self)).push(item),
    {
        self.items.push(item);
    }

    /// `SmallVec::len`: the number of items.
    #[verifier::external_body]
    pub(crate) fn len(&self) -> (n: usize)
        ensures
            n == packet_items(*self).len(),
    {
        self.items.len()
    }

    /// Indexing into a `SmallVec`: the item at that place.
    #[verifier::external_body]
    pub(crate) fn at(&self, i: usize) -> (item: WavePacket)
        requires
            i < packet_items(*self).len(),
        ensures
            item == packet_items(*self)[i as int],
    {
        self.items[i]
    }

    /// Mutable indexing into a `SmallVec`: the item at that place is replaced.
    #[verifier::external_body]
    pub(crate) fn put(&mut self, i: usize, item: WavePacket)
        requires
            i < packet_items(*old(self)).len(),
        ensures
            packet_items(*final(self)) == packet_items(*old(self)).update(i as int, item),
    {
        self.items[i] = item;
    }
}

/// Pairs of packets, by their places; the first lies inline.
#[verifier::external_body]
pub struct PairList {
    items: smallvec::SmallVec<[(u8, u8); 1]>,
}

/// What a `PairList` holds, first item first.
pub uninterp spec fn pair_items(list: PairList) -> Seq<(u8, u8)>;

impl View for PairList {
    type V = Seq<(u8, u8)>;

    open spec fn view(&self) -> Seq<(u8, u8)> {
        pair_items(*self)
    }
}

impl PairList {
    /// `SmallVec::new`: an empty list.
    #[verifier::external_body]
    pub(crate) fn new() -> (list: PairList)
        ensures
            pair_items(list) == Seq::<(u8, u8)>::empty(),
    {
        PairList { items: smallvec::SmallVec::new() }
    }

    /// `SmallVec::push`: appends the item.
    #[verifier::external_body]
    pub(crate) fn push(&mut self, item: (u8, u8))
        ensures
            pair_items(*final(self)) == pair_items(*old(self)).push(item),
    {
        self.items.push(item);
    }

    /// `SmallVec::len`: the number of items.
    #[verifier::external_body]
    pub(crate) fn len(&self) -> (n: usize)
        ensures
            n == pair_items(*self).len(),
    {
        self.items.len()
    }

    /// Indexing into a `SmallVec`: the item at that place.
    #[verifier::external_body]
    pub(crate) fn at(&self, i: usize) -> (item: (u8, u8))
        requires
            i < pair_items(*self).len(),
        ensures
            item == pair_items(*self)[i as int],
    {
        self.items[i]
    }
}

} // verus!
