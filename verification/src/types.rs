//! Identifiers, handle ranges and batch limits shared by every node.

use vstd::prelude::*;

verus! {

// make it 32 if it needs to support a larger optical circuit
pub type OpHandle = u16;

pub type NodeId = u16;

pub type PortId = u8;

pub type SinkModeId = u8;

pub type WpSnowflake = u32;

pub type Time = u64;

/// Index of an optical mode within one island of interaction.
pub type ModeIndex = u16;

/// Index of an operator table entry (a Kraus set, scatter or density matrix).
pub type OpStoreHandle = u16;

#[derive(Clone, Copy)]
pub struct PortAddress {
    pub node: NodeId,
    pub port: PortId,
}

#[derive(Clone, Copy)]
pub struct SinkModeLocation {
    pub operator: OpHandle,
    pub mode: SinkModeId,
}

/// One detector click, tagged with the channel that it was seen on.
#[derive(Clone, Copy, Debug, PartialEq, Eq, Structural)]
pub struct NormalizedTimeTag {
    pub channel_id: u16,
    pub time_tag_ps: u64,
}

/// The handle that lies `k` places after `start`, counting past `u32::MAX` to 0.
pub open spec fn handle_at(start: u32, k: int) -> u32 {
    ((start + k) % 0x1_0000_0000) as u32
}

/// How many handles lie from `start` up to, not including, `end`.
pub open spec fn handle_distance(start: u32, end: u32) -> int {
    (end - start) % 0x1_0000_0000
}

/// The handles from `start` up to, not including, `end`, in order.
pub open spec fn handle_range(start: u32, end: u32) -> Seq<u32> {
    Seq::new(handle_distance(start, end) as nat, |k: int| handle_at(start, k))
}

/// Stepping from `start` over the whole distance to `end` arrives at `end`, and
/// no two steps on the way give the same handle.
pub proof fn lemma_handle_range(start: u32, end: u32)
    ensures
        0 <= handle_distance(start, end) < 0x1_0000_0000,
        handle_at(start, 0) == start,
        handle_at(start, handle_distance(start, end)) == end,
        handle_range(start, end).no_duplicates(),
        forall|k: int|
            0 <= k < handle_distance(start, end) ==> #[trigger] handle_at(start, k) != end,
        forall|k: int|
            0 <= k < handle_distance(start, end) ==> handle_distance(
                start,
                #[trigger] handle_at(start, k),
            ) == k,
{
}

/// Counts handles upwards from one to another, wrapping at `u32::MAX`.
pub struct WrappingIterU32 {
    i: u32,
    end: u32,
}

impl WrappingIterU32 {
    /// The handles still to come.
    pub closed spec fn remaining(self) -> Seq<u32> {
        handle_range(self.i, self.end)
    }

    pub fn new(start: u32, end: u32) -> (iter: Self)
        ensures
            iter.remaining() == handle_range(start, end),
    {
        Self { i: start, end }
    }

    pub fn next(&mut self) -> (item: Option<u32>)
        ensures
            old(self).remaining().len() == 0 ==> item is None && final(self).remaining() == old(
                self,
            ).remaining(),
            old(self).remaining().len() > 0 ==> item == Some(old(self).remaining()[0])
                && final(self).remaining() == old(self).remaining().drop_first(),
    {
        proof {
            lemma_handle_range(self.i, self.end);
        }
        let i: u32 = self.i;
        if i == self.end {
            return None;
        }
        self.i = i.wrapping_add(1);
        assert(final(self).remaining() =~= old(self).remaining().drop_first());
        Some(i)
    }

    /// The handles still to come, as a list.
    pub fn to_vec(self) -> (handles: Vec<u32>)
        ensures
            handles@ == self.remaining(),
    {
        let ghost all = self.remaining();
        let mut rest = self;
        let mut handles: Vec<u32> = Vec::new();
        loop
            invariant
                all == handles@ + rest.remaining(),
            ensures
                all == handles@,
            decreases rest.remaining().len(),
        {
            match rest.next() {
                Some(handle) => {
                    handles.push(handle);
                },
                None => {
                    assert(all =~= handles@);
                    break;
                },
            }
        }
        handles
    }
}

/// What a batch may hold: nothing whose leading edge is past `timeout`, and at
/// most `max_size` packets.
#[derive(Clone, Copy)]
pub struct BatchConstraint {
    pub timeout: u64,  // picoseconds
    pub max_size: usize,
}

#[derive(Clone, Copy)]
pub struct BatchPolicy {
    pub period: u64,  // picoseconds
    pub max_size: usize,
}

impl BatchPolicy {
    pub fn get_constraint(&self, start_time: Time) -> (constraint: BatchConstraint)
        requires
            start_time + self.period <= u64::MAX,
        ensures
            constraint == (BatchConstraint {
                timeout: (start_time + self.period) as u64,
                max_size: self.max_size,
            }),
    {
        BatchConstraint { timeout: start_time + self.period, max_size: self.max_size }
    }
}

} // verus!
