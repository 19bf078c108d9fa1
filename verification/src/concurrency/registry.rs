//! The states of the slots of a ring, two bits each.

use vstd::prelude::*;

use crate::types::{
    handle_at, handle_distance, handle_range, lemma_handle_range, WrappingIterU32,
};
use crate::util::power::{is_power_of_two, lemma_smaller_divides, lemma_word_range};

verus! {

#[derive(PartialEq, Eq, Clone, Copy, Debug, Structural)]
pub enum CellState {
    Free,
    Locked,
    Moved,
    Retired,
}

/// The state that two bits stand for.
pub open spec fn state_of(bits: u64) -> CellState {
    if bits == 0 {
        CellState::Free
    } else if bits == 1 {
        CellState::Locked
    } else if bits == 2 {
        CellState::Moved
    } else {
        CellState::Retired
    }
}

/// The state at place `p` of a word, the lowest bits first.
spec fn state_in(word: u64, p: int) -> CellState {
    state_of((word >> ((2 * p) as u64)) & 3)
}

impl CellState {
    /// The state that the two lowest bits stand for.
    pub fn from_bits(n: u64) -> (state: CellState)
        ensures
            state == state_of(n & 3),
            state == state_of(n % 4),
    {
        let bits: u64 = n & 3;
        assert(n & 3 == n % 4) by (bit_vector);
        match bits {
            0 => CellState::Free,
            1 => CellState::Locked,
            2 => CellState::Moved,
            _ => CellState::Retired,
        }
    }

    pub fn to_bits(&self) -> (bits: u64)
        ensures
            bits < 4,
            state_of(bits) == *self,
    {
        match self {
            CellState::Free => 0,
            CellState::Locked => 1,
            CellState::Moved => 2,
            CellState::Retired => 3,
        }
    }
}

/// The states by slot, and the handles in use: from `start` up to `end`.
#[verifier::ext_equal]
pub struct RegistryView {
    pub slots: Seq<CellState>,
    pub start: u32,
    pub end: u32,
}

impl RegistryView {
    /// The state that a handle has.
    pub open spec fn state(self, handle: u32) -> CellState {
        self.slots[handle as int % self.slots.len() as int]
    }

    pub open spec fn with_state(self, handle: u32, state: CellState) -> RegistryView {
        RegistryView {
            slots: self.slots.update(handle as int % self.slots.len() as int, state),
            ..self
        }
    }

    /// How many handles are in use.
    pub open spec fn count(self) -> int {
        handle_distance(self.start, self.end)
    }

    /// The states of the handles in use, in order.
    pub open spec fn live(self) -> Seq<CellState> {
        Seq::new(self.count() as nat, |k: int| self.state(handle_at(self.start, k)))
    }

    /// The slots are a power of two in number, and no more than there are handles.
    pub open spec fn is_ring(self) -> bool {
        is_power_of_two(self.slots.len()) && self.slots.len() <= 0x1_0000_0000
    }
}

/// Two handles in use share a slot only if they are more than a ring apart.
pub proof fn handles_in_use_have_their_own_slots(ring: RegistryView, i: int, k: int)
    requires
        ring.is_ring(),
        0 <= i < k < i + ring.slots.len(),
    ensures
        handle_at(ring.start, i) as int % ring.slots.len() as int != handle_at(ring.start, k) as int
            % ring.slots.len() as int,
{
    let cap = ring.slots.len() as int;
    lemma_word_range();
    lemma_smaller_divides(cap as nat, 0x1_0000_0000);
    lemma_slot_of(ring.start, i, cap);
    lemma_slot_of(ring.start, k, cap);
    let a = ring.start + i;
    let b = ring.start + k;
    vstd::arithmetic::div_mod::lemma_fundamental_div_mod(a, cap);
    vstd::arithmetic::div_mod::lemma_fundamental_div_mod(b, cap);
    if a % cap == b % cap {
        let p = a / cap;
        let q = b / cap;
        assert(false) by (nonlinear_arith)
            requires
                b - a == cap * q - cap * p,
                0 < b - a < cap,
        ;
    }
}

proof fn lemma_slot_of(start: u32, k: int, cap: int)
    requires
        cap > 0,
        0x1_0000_0000int % cap == 0,
        k >= 0,
    ensures
        handle_at(start, k) as int % cap == (start + k) % cap,
{
    let x = start + k;
    let w = 0x1_0000_0000int;
    vstd::arithmetic::div_mod::lemma_fundamental_div_mod(x, w);
    vstd::arithmetic::div_mod::lemma_fundamental_div_mod(w, cap);
    let q = x / w;
    let d = w / cap;
    assert(x == cap * (d * q) + x % w) by (nonlinear_arith)
        requires
            x == w * q + x % w,
            w == cap * d,
    ;
    vstd::arithmetic::div_mod::lemma_mod_multiples_vanish(d * q, x % w, cap);
}

/// The slots of `into` after the states of the first `n` handles in use in `from`
/// were written to it, one after the other.
pub open spec fn copied(from: RegistryView, into: RegistryView, n: nat) -> RegistryView
    decreases n,
{
    if n == 0 {
        into
    } else {
        let handle = handle_at(from.start, n - 1);
        copied(from, into, (n - 1) as nat).with_state(handle, from.state(handle))
    }
}

pub struct CellStateRegistry {
    buff: Vec<u64>,
    start_index: u32,
    end_index: u32,
}

impl View for CellStateRegistry {
    type V = RegistryView;

    closed spec fn view(&self) -> RegistryView {
        RegistryView {
            slots: Seq::new(
                (32 * self.buff@.len()) as nat,
                |p: int| state_in(self.buff@[p / 32], p % 32),
            ),
            start: self.start_index,
            end: self.end_index,
        }
    }
}

proof fn lemma_word(word: u64, bits: u64, o: u64, p: u64)
    requires
        o < 32,
        p < 32,
        bits < 4,
    ensures
        ({
            let now = (word & !(3u64 << (2 * o) as u64)) | (bits << (2 * o) as u64);
            (now >> ((2 * p) as u64)) & 3 == (if p == o {
                bits
            } else {
                (word >> ((2 * p) as u64)) & 3
            })
        }),
{
    assert({
        let now = (word & !(3u64 << (2 * o) as u64)) | (bits << (2 * o) as u64);
        (now >> ((2 * p) as u64)) & 3 == (if p == o {
            bits
        } else {
            (word >> ((2 * p) as u64)) & 3
        })
    }) by (bit_vector)
        requires
            o < 32,
            p < 32,
            bits < 4,
    ;
}

impl CellStateRegistry {
    /// There is a slot, and the slots can be counted.
    pub closed spec fn wf(self) -> bool {
        0 < self.buff@.len() && 32 * self.buff@.len() <= usize::MAX
    }

    /// What every registry has: slots in groups of 32, that can be counted.
    pub proof fn slots_come_in_words(self)
        requires
            self.wf(),
        ensures
            self@.slots.len() > 0,
            self@.slots.len() % 32 == 0,
            self@.slots.len() <= usize::MAX,
    {
    }

    /// An empty registry. The capacity is a power of two no less than 32.
    pub fn with_capacity(capacity: usize) -> (registry: Self)
        requires
            is_power_of_two(capacity as nat),
            capacity % 32 == 0,
        ensures
            registry.wf(),
            registry@ == (RegistryView {
                slots: Seq::new(capacity as nat, |p: int| CellState::Free),
                start: 0,
                end: 0,
            }),
    {
        let registry = Self { buff: vec![0; capacity / 32], start_index: 0, end_index: 0 };
        proof {
            assert forall|p: int| 0 <= p < capacity implies #[trigger] registry@.slots[p]
                == CellState::Free by {
                let o = (2 * (p % 32)) as u64;
                assert((0u64 >> o) & 3 == 0) by (bit_vector);
            }
            assert(registry@.slots =~= Seq::new(capacity as nat, |p: int| CellState::Free));
        }
        registry
    }

    pub fn get(&self, i: u32) -> (state: CellState)
        requires
            self.wf(),
        ensures
            state == self@.state(i),
    {
        let idx: usize = (i / 32) as usize % self.buff.len();
        let offset: u32 = (i % 32) * 2;
        let n: u64 = self.buff[idx];
        proof {
            lemma_place(i as int, self.buff@.len() as int);
        }
        CellState::from_bits(n >> offset)
    }

    pub fn set(&mut self, i: u32, state: CellState)
        requires
            old(self).wf(),
        ensures
            final(self).wf(),
            final(self)@ == old(self)@.with_state(i, state),
    {
        let ghost before = self@;
        let ghost words = self.buff@;
        let idx: usize = (i / 32) as usize % self.buff.len();
        let offset: u64 = ((i % 32) * 2) as u64;
        let bits: u64 = state.to_bits();
        let n: u64 = (self.buff[idx] & !(3u64 << offset)) | (bits << offset);
        self.buff.set(idx, n);
        proof {
            lemma_place(i as int, words.len() as int);
            let place = i as int % before.slots.len() as int;
            let o = (i % 32) as u64;
            assert forall|p: int| 0 <= p < before.slots.len() implies #[trigger] self@.slots[p] == (
            if p == place {
                state
            } else {
                before.slots[p]
            }) by {
                lemma_word(words[idx as int], bits, o, (p % 32) as u64);
                assert(p == 32 * (p / 32) + p % 32);
            }
            assert(self@.slots =~= before.slots.update(place, state));
        }
    }

    /// How many handles are in use.
    pub fn len(&self) -> (n: u32)
        ensures
            n == self@.count(),
    {
        self.end_index.wrapping_sub(self.start_index)
    }

    /// The number of slots, cut to the width of a handle.
    pub fn capacity(&self) -> (n: u32)
        requires
            self.wf(),
        ensures
            n == self@.slots.len() % 0x1_0000_0000,
    {
        let slots: u64 = (self.buff.len() * 32) as u64;
        assert(slots as u32 == slots % 0x1_0000_0000) by (bit_vector);
        slots as u32
    }

    pub fn start_index(&self) -> (handle: u32)
        ensures
            handle == self@.start,
    {
        self.start_index
    }

    pub fn end_index(&self) -> (handle: u32)
        ensures
            handle == self@.end,
    {
        self.end_index
    }

    /// The handles in use, in order.
    pub fn handles_from_front(&self) -> (handles: WrappingIterU32)
        ensures
            handles.remaining() == handle_range(self@.start, self@.end),
    {
        WrappingIterU32::new(self.start_index, self.end_index)
    }
}

impl CellStateRegistry {
    /// The same handles with the same states, in another number of slots.
    pub fn resized(&self, new_capacity: usize) -> (grown: Self)
        requires
            self.wf(),
            is_power_of_two(new_capacity as nat),
            new_capacity % 32 == 0,
        ensures
            grown.wf(),
            grown@.slots.len() == new_capacity,
            grown@.start == self@.start,
            grown@.end == self@.end,
            grown@.slots == copied(
                self@,
                (RegistryView {
                    slots: Seq::new(new_capacity as nat, |p: int| CellState::Free),
                    start: 0,
                    end: 0,
                }),
                self@.count() as nat,
            ).slots,
            self@.count() <= new_capacity <= 0x1_0000_0000 ==> grown@.live() == self@.live(),
    {
        let mut grown = Self::with_capacity(new_capacity);
        let ghost fresh = grown@;
        let mut handles = self.handles_from_front();
        let ghost all = handle_range(self@.start, self@.end);
        let ghost mut n: nat = 0;
        proof {
            lemma_handle_range(self@.start, self@.end);
            assert(all.skip(0) =~= all);
        }
        loop
            invariant
                self.wf(),
                grown.wf(),
                all == handle_range(self@.start, self@.end),
                0 <= n <= all.len(),
                all.len() == self@.count(),
                handles.remaining() == all.skip(n as int),
                grown@ == copied(self@, fresh, n),
            ensures
                grown@ == copied(self@, fresh, self@.count() as nat),
            decreases all.len() - n,
        {
            match handles.next() {
                Some(i) => {
                    assert(i == all[n as int]);
                    grown.set(i, self.get(i));
                    proof {
                        assert(all.skip(n as int).drop_first() =~= all.skip(n as int + 1));
                        n = n + 1;
                    }
                },
                None => {
                    break;
                },
            }
        }
        let ghost filled = grown@;
        proof {
            lemma_copied(self@, fresh, self@.count() as nat);
        }
        grown.start_index = self.start_index;
        grown.end_index = self.end_index;
        proof {
            assert(grown@.slots =~= filled.slots);
            if self@.count() <= new_capacity <= 0x1_0000_0000 {
                assert forall|k: int| 0 <= k < self@.count() implies grown@.live()[k]
                    == self@.live()[k] by {
                    lemma_copied_live(self@, fresh, self@.count() as nat, k);
                }
                assert(grown@.live() =~= self@.live());
            }
        }
        grown
    }

    /// Takes one more handle into use.
    pub fn push_back(&mut self, state: CellState)
        requires
            old(self).wf(),
        ensures
            final(self).wf(),
            final(self)@ == (RegistryView {
                end: handle_at(old(self)@.end, 1),
                ..old(self)@.with_state(old(self)@.end, state)
            }),
            old(self)@.is_ring() && old(self)@.count() < old(self)@.slots.len() && old(
                self,
            )@.count() < 0xffff_ffff ==> final(self)@.live() == old(self)@.live().push(state),
    {
        let ghost before = self@;
        let end: u32 = self.end_index;
        self.set(end, state);
        let ghost slots = self@.slots;
        self.end_index = end.wrapping_add(1);
        proof {
            assert(self@.slots =~= slots);
            let n = before.count();
            lemma_handle_range(before.start, before.end);
            if before.is_ring() && n < before.slots.len() && n < 0xffff_ffff {
                assert(self@.count() == n + 1);
                assert(handle_at(before.start, n) == end);
                assert forall|k: int| 0 <= k < n implies self@.live()[k]
                    == before.live()[k] by {
                    handles_in_use_have_their_own_slots(before, k, n);
                }
                assert(self@.live() =~= before.live().push(state));
            }
        }
    }

    /// Takes the first handle out of use.
    pub fn drop_front(&mut self)
        requires
            old(self).wf(),
        ensures
            final(self).wf(),
            final(self)@ == (RegistryView { start: handle_at(old(self)@.start, 1), ..old(self)@ }),
            old(self)@.count() > 0 ==> final(self)@.live() == old(self)@.live().drop_first(),
    {
        let ghost before = self@;
        self.start_index = self.start_index.wrapping_add(1);
        proof {
            assert(self@.slots =~= before.slots);
            if before.count() > 0 {
                assert forall|k: int| 0 <= k < self@.count() implies self@.live()[k]
                    == before.live()[k + 1] by {
                    assert(handle_at(handle_at(before.start, 1), k) == handle_at(
                        before.start,
                        k + 1,
                    ));
                }
                assert(self@.live() =~= before.live().drop_first());
            }
        }
    }
}

proof fn lemma_copied(from: RegistryView, into: RegistryView, n: nat)
    requires
        into.slots.len() > 0,
    ensures
        copied(from, into, n).slots.len() == into.slots.len(),
        copied(from, into, n).start == into.start,
        copied(from, into, n).end == into.end,
    decreases n,
{
    if n > 0 {
        lemma_copied(from, into, (n - 1) as nat);
    }
}

/// A state that was copied to a ring with room for all stays as it was.
proof fn lemma_copied_live(from: RegistryView, into: RegistryView, n: nat, k: int)
    requires
        is_power_of_two(into.slots.len()),
        0 <= k < n <= into.slots.len() <= 0x1_0000_0000,
    ensures
        copied(from, into, n).state(handle_at(from.start, k)) == from.state(
            handle_at(from.start, k),
        ),
    decreases n,
{
    lemma_copied(from, into, n);
    lemma_copied(from, into, (n - 1) as nat);
    let cap = into.slots.len() as int;
    let handle = handle_at(from.start, k);
    assert(0 <= handle as int % cap < cap);
    if k < n - 1 {
        lemma_copied_live(from, into, (n - 1) as nat, k);
        let ring = RegistryView { start: from.start, ..into };
        handles_in_use_have_their_own_slots(ring, k, n - 1);
    }
}

/// The word and the place in it are those of the slot.
proof fn lemma_place(i: int, words: int)
    requires
        0 <= i,
        words > 0,
    ensures
        i % (32 * words) == 32 * ((i / 32) % words) + i % 32,
        0 <= i % (32 * words) < 32 * words,
        (i % (32 * words)) / 32 == (i / 32) % words,
        (i % (32 * words)) % 32 == i % 32,
{
    let q = i / 32;
    vstd::arithmetic::div_mod::lemma_fundamental_div_mod(q, words);
    let r = q % words;
    let d = q / words;
    assert(i == (32 * words) * d + (32 * r + i % 32)) by (nonlinear_arith)
        requires
            i == 32 * q + i % 32,
            q == words * d + r,
    ;
    vstd::arithmetic::div_mod::lemma_fundamental_div_mod_converse(
        i,
        32 * words,
        d,
        32 * r + i % 32,
    );
}

} // verus!
