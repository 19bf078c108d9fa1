//! Which packets of two ports meet, found in one sweep over both.

use vstd::prelude::*;

use crate::nodes::packet::{all_fit, WavePacket, WpBatch};

verus! {

#[derive(Debug, Clone, Copy)]
pub enum DualPortPairing {
    LeftIsolate(WavePacket),
    RightIsolate(WavePacket),
    Pair(WavePacket, WavePacket),
}

/// What the sweep finds, by the places of the packets in their batches.
pub enum Finding {
    LeftAlone(int),
    RightAlone(int),
    Meeting(int, int),
}

/// Where the sweep stands.
pub struct Sweep {
    /// The left packet that is looked at.
    pub left: int,
    /// The right packet that it is held against.
    pub right: int,
    /// The right packet that the next left packet starts from.
    pub pivot: int,
    /// The right packet that was last found to meet a left one, or -1.
    pub last: int,
    /// Whether the left packet has met one.
    pub met: bool,
}

pub open spec fn sweep_start() -> Sweep {
    Sweep { left: 0, right: 0, pivot: 0, last: -1, met: false }
}

/// The sweep goes on.
pub open spec fn is_sweeping(left: Seq<WavePacket>, right: Seq<WavePacket>, s: Sweep) -> bool {
    s.left < left.len() || (left.len() == 0 && s.right < right.len())
}

/// One step of the sweep, and what it finds.
pub open spec fn sweep_step(left: Seq<WavePacket>, right: Seq<WavePacket>, s: Sweep) -> (
    Sweep,
    Option<Finding>,
) {
    if s.left >= left.len() {
        // no left packets at all
        (Sweep { right: s.right + 1, ..s }, Some(Finding::RightAlone(s.right)))
    } else if s.right < right.len() && left[s.left].meets(right[s.right]) {
        (
            Sweep { met: true, last: s.right, right: s.right + 1, ..s },
            Some(Finding::Meeting(s.left, s.right)),
        )
    } else if s.right < right.len() && right[s.right].time < left[s.left].time {
        (
            Sweep { pivot: s.right + 1, right: s.right + 1, ..s },
            if s.right > s.last {
                Some(Finding::RightAlone(s.right))
            } else {
                // it met an earlier left packet
                None
            },
        )
    } else if s.right < right.len() && s.left + 1 == left.len() {
        (Sweep { right: s.right + 1, ..s }, Some(Finding::RightAlone(s.right)))
    } else {
        // the rest lies behind this left packet
        (
            Sweep { left: s.left + 1, right: s.pivot, met: false, ..s },
            if s.met {
                None
            } else {
                Some(Finding::LeftAlone(s.left))
            },
        )
    }
}

/// The places make sense.
pub open spec fn in_sweep(left: Seq<WavePacket>, right: Seq<WavePacket>, s: Sweep) -> bool {
    &&& 0 <= s.left <= left.len()
    &&& 0 <= s.pivot <= s.right <= right.len()
    &&& -1 <= s.last < right.len()
}

/// Everything that the sweep finds from there on.
pub open spec fn findings(left: Seq<WavePacket>, right: Seq<WavePacket>, s: Sweep) -> Seq<Finding>
    decreases left.len() - s.left, right.len() - s.right,
    when in_sweep(left, right, s)
{
    if is_sweeping(left, right, s) {
        let (next, found) = sweep_step(left, right, s);
        match found {
            Some(finding) => seq![finding] + findings(left, right, next),
            None => findings(left, right, next),
        }
    } else {
        seq![]
    }
}

/// The packets that a finding speaks of.
pub open spec fn pairing_of(
    left: Seq<WavePacket>,
    right: Seq<WavePacket>,
    finding: Finding,
) -> DualPortPairing {
    match finding {
        Finding::LeftAlone(l) => DualPortPairing::LeftIsolate(left[l]),
        Finding::RightAlone(r) => DualPortPairing::RightIsolate(right[r]),
        Finding::Meeting(l, r) => DualPortPairing::Pair(left[l], right[r]),
    }
}

/// The packets that the findings speak of.
pub open spec fn pairings_of(
    left: Seq<WavePacket>,
    right: Seq<WavePacket>,
    found: Seq<Finding>,
) -> Seq<DualPortPairing> {
    found.map_values(|finding: Finding| pairing_of(left, right, finding))
}

pub struct DualPortPairingIterator {
    left: Vec<WavePacket>,
    right: Vec<WavePacket>,
    left_idx: usize,
    right_idx: usize,  // running position in the inner scan
    right_pivot: usize,  // where the next left packet restarts scanning
    right_last_overlap: Option<usize>,
    did_overlap: bool,
}

impl DualPortPairingIterator {
    pub closed spec fn wf(self) -> bool {
        &&& all_fit(self.left@)
        &&& all_fit(self.right@)
        &&& in_sweep(self.left@, self.right@, self.sweep())
    }

    pub closed spec fn lefts(self) -> Seq<WavePacket> {
        self.left@
    }

    pub closed spec fn rights(self) -> Seq<WavePacket> {
        self.right@
    }

    pub closed spec fn sweep(self) -> Sweep {
        Sweep {
            left: self.left_idx as int,
            right: self.right_idx as int,
            pivot: self.right_pivot as int,
            last: match self.right_last_overlap {
                Some(r) => r as int,
                None => -1,
            },
            met: self.did_overlap,
        }
    }

    /// What is still to come.
    pub open spec fn remaining(self) -> Seq<DualPortPairing> {
        pairings_of(
            self.lefts(),
            self.rights(),
            findings(self.lefts(), self.rights(), self.sweep()),
        )
    }

    pub fn new(left: WpBatch, right: WpBatch) -> (iter: Self)
        requires
            all_fit(left.batch@),
            all_fit(right.batch@),
        ensures
            iter.wf(),
            iter.lefts() == left.batch@,
            iter.rights() == right.batch@,
            iter.sweep() == sweep_start(),
    {
        Self {
            left: left.batch,
            right: right.batch,
            left_idx: 0,
            right_idx: 0,
            right_pivot: 0,
            right_last_overlap: None,
            did_overlap: false,
        }
    }

    /// Reclaims the buffers for reuse after iteration (optional).
    pub fn into_inner(self) -> (buffers: (Vec<WavePacket>, Vec<WavePacket>))
        ensures
            buffers.0@ == self.lefts(),
            buffers.1@ == self.rights(),
    {
        (self.left, self.right)
    }

    pub fn next(&mut self) -> (item: Option<DualPortPairing>)
        requires
            old(self).wf(),
        ensures
            final(self).wf(),
            final(self).lefts() == old(self).lefts(),
            final(self).rights() == old(self).rights(),
            item is None <==> old(self).remaining().len() == 0,
            item is None ==> final(self).remaining().len() == 0,
            item matches Some(pairing) ==> pairing == old(self).remaining()[0]
                && final(self).remaining() == old(self).remaining().drop_first(),
    {
        let ghost goal = self.remaining();
        let ghost ls = self.left@;
        let ghost rs = self.right@;
        while self.left_idx < self.left.len() || (self.left.len() == 0 && self.right_idx
            < self.right.len())
            invariant
                self.wf(),
                self.left@ == ls,
                self.right@ == rs,
                ls == old(self).lefts(),
                rs == old(self).rights(),
                goal == old(self).remaining(),
                goal == self.remaining(),
            decreases ls.len() - self.left_idx, rs.len() - self.right_idx,
        {
            let ghost before = self.sweep();
            let ghost (next, found) = sweep_step(ls, rs, before);
            let ghost rest = findings(ls, rs, next);
            let item = self.step();
            proof {
                assert(self.sweep() == next);
                match found {
                    Some(finding) => {
                        let all = seq![finding] + rest;
                        assert(findings(ls, rs, before) == all);
                        assert(pairings_of(ls, rs, all).drop_first() =~= pairings_of(ls, rs, rest));
                        assert(pairings_of(ls, rs, all)[0] == pairing_of(ls, rs, finding));
                    },
                    None => {},
                }
            }
            if item.is_some() {
                return item;
            }
        }
        None
    }

    /// Holds the left packet against the next right one, or goes on to the next left
    /// packet.
    fn step(&mut self) -> (item: Option<DualPortPairing>)
        requires
            old(self).wf(),
            is_sweeping(old(self).left@, old(self).right@, old(self).sweep()),
        ensures
            final(self).wf(),
            final(self).left@ == old(self).left@,
            final(self).right@ == old(self).right@,
            final(self).sweep() == sweep_step(
                old(self).left@,
                old(self).right@,
                old(self).sweep(),
            ).0,
            item == (match sweep_step(old(self).left@, old(self).right@, old(self).sweep()).1 {
                Some(finding) => Some(pairing_of(old(self).left@, old(self).right@, finding)),
                None => None,
            }),
    {
        let r: usize = self.right_idx;
        let rights: usize = self.right.len();
        if self.left_idx >= self.left.len() {
            self.right_idx = r + 1;
            return Some(DualPortPairing::RightIsolate(self.right[r]));
        }
        let is_last_left = self.left_idx + 1 == self.left.len();
        let lp = self.left[self.left_idx];
        assert(lp.fits());
        if r < rights {
            let rp = self.right[r];
            assert(rp.fits());
            if lp.overlaps(&rp) {
                self.did_overlap = true;
                self.right_last_overlap = Some(r);
                self.right_idx = r + 1;
                return Some(DualPortPairing::Pair(lp, rp));
            } else if rp.time < lp.time {
                self.right_pivot = r + 1;
                self.right_idx = r + 1;
                let is_new = match self.right_last_overlap {
                    Some(last) => r > last,
                    None => true,
                };
                return if is_new {
                    Some(DualPortPairing::RightIsolate(rp))
                } else {
                    // already appeared in a pair earlier; keep scanning
                    None
                };
            } else if is_last_left {
                self.right_idx = r + 1;
                return Some(DualPortPairing::RightIsolate(rp));
            }
        }
        // finished the inner scan for this left packet
        let had_overlap = self.did_overlap;
        self.left_idx = self.left_idx + 1;
        self.right_idx = self.right_pivot;
        self.did_overlap = false;
        if had_overlap {
            None
        } else {
            Some(DualPortPairing::LeftIsolate(lp))
        }
    }
}

} // verus!
