//! A set of 32-bit numbers: open addressing with linear probing, and a hash that
//! keeps the low bits.

use vstd::prelude::*;

use crate::util::power::doubled_to;

verus! {

/// Marks an empty slot. As a member of the set, this number is kept in `has_max`.
pub const EMPTY: u32 = 0xffff_ffff;

/// 32 slots of 4 bytes are 128 bytes: one cache line of the larger kind.
pub const MIN_SLOTS: usize = 32;

/// More slots than the hash can tell apart are of no use.
pub const MAX_SLOTS: u64 = 0x1_0000_0000;

/// A possible number of slots: the least one, doubled some times.
pub open spec fn is_slot_count(n: nat) -> bool
    decreases n,
{
    n == MIN_SLOTS || (n > MIN_SLOTS && n % 2 == 0 && is_slot_count(n / 2))
}

/// A table of that many slots can be had.
pub open spec fn fits(slots: nat) -> bool {
    slots <= MAX_SLOTS && 4 * slots <= isize::MAX
}

/// The slots for that many elements, so that at most three quarters are in use.
pub open spec fn slots_for(capacity: nat) -> nat {
    doubled_to(MIN_SLOTS as nat, (4 * capacity + 2) / 3)
}

/// How far `to` lies behind `from` on a circle of `cap` slots.
spec fn steps(from: int, to: int, cap: int) -> int {
    if to >= from {
        to - from
    } else {
        to - from + cap
    }
}

/// The slot `n` steps behind `from`.
spec fn walk(from: int, n: int, cap: int) -> int {
    if from + n < cap {
        from + n
    } else {
        from + n - cap
    }
}

spec fn home(x: u32, cap: int) -> int {
    x as int % cap
}

/// From the home of the element at `i`, probing reaches it: no slot on the way is
/// empty, except perhaps `but`.
spec fn reachable(slots: Seq<u32>, i: int, but: int) -> bool {
    let h = home(slots[i], slots.len() as int);
    forall|n: int|
        #![trigger walk(h, n, slots.len() as int)]
        0 <= n < steps(h, i, slots.len() as int) ==> slots[walk(h, n, slots.len() as int)] != EMPTY
            || walk(h, n, slots.len() as int) == but
}

/// Every element can be reached, and stands in one slot alone.
spec fn well_probed(slots: Seq<u32>) -> bool {
    &&& forall|i: int|
        0 <= i < slots.len() && #[trigger] slots[i] != EMPTY ==> reachable(slots, i, -1)
    &&& unrepeated(slots)
}

spec fn unrepeated(slots: Seq<u32>) -> bool {
    forall|i: int, j: int|
        0 <= i < slots.len() && 0 <= j < slots.len() && #[trigger] slots[i] == #[trigger] slots[j]
            && slots[i] != EMPTY ==> i == j
}

/// The elements that stand in slots.
spec fn keys(slots: Seq<u32>) -> Set<u32> {
    slots.to_set().remove(EMPTY)
}

proof fn lemma_keys(slots: Seq<u32>)
    ensures
        keys(slots).finite(),
        forall|x: u32| #[trigger]
            keys(slots).contains(x) <==> x != EMPTY && exists|i: int|
                0 <= i < slots.len() && slots[i] == x,
{
    vstd::seq_lib::seq_to_set_is_finite(slots);
    assert forall|x: u32| #[trigger] keys(slots).contains(x) implies x != EMPTY && exists|i: int|
        0 <= i < slots.len() && slots[i] == x by {
        assert(slots.contains(x));
    }
    assert forall|x: u32, i: int|
        x != EMPTY && 0 <= i < slots.len() && #[trigger] slots[i] == x implies #[trigger] keys(
        slots,
    ).contains(x) by {
        assert(slots.contains(x));
    }
}

/// A table with fewer elements than slots has an empty one.
proof fn lemma_has_empty(slots: Seq<u32>)
    requires
        unrepeated(slots),
        keys(slots).len() < slots.len(),
    ensures
        exists|e: int| 0 <= e < slots.len() && slots[e] == EMPTY,
{
    if forall|e: int| 0 <= e < slots.len() ==> slots[e] != EMPTY {
        assert(slots.no_duplicates());
        slots.unique_seq_to_set();
        assert(!slots.to_set().contains(EMPTY));
        assert(keys(slots) =~= slots.to_set());
    }
}

/// The set of the low bits of the hash, as a number of slots.
pub struct U32OpenAddressSet {
    slots: Vec<u32>,
    len: usize,  // occupied slots (not counting the flag)
    has_max: bool,  // whether the largest number itself is a member
}

impl View for U32OpenAddressSet {
    type V = Set<u32>;

    closed spec fn view(&self) -> Set<u32> {
        if self.has_max {
            keys(self.slots@).insert(EMPTY)
        } else {
            keys(self.slots@)
        }
    }
}

impl U32OpenAddressSet {
    pub closed spec fn wf(self) -> bool {
        &&& is_slot_count(self.slots@.len())
        &&& fits(self.slots@.len())
        &&& self.len == keys(self.slots@).len()
        &&& 4 * self.len <= 3 * self.slots@.len()
        &&& well_probed(self.slots@)
    }

    /// The number of slots.
    pub closed spec fn slot_count(self) -> nat {
        self.slots@.len()
    }

    /// One more element would fill more than three quarters of the slots.
    pub open spec fn is_full(self) -> bool {
        4 * (self@.remove(EMPTY).len() + 1) > 3 * self.slot_count()
    }

    /// What holds of every such set: the elements are finitely many, and their slots
    /// are at most three quarters of all.
    pub proof fn slots_suffice(self)
        requires
            self.wf(),
        ensures
            self@.finite(),
            self@.len() == self@.remove(EMPTY).len() + (if self@.contains(EMPTY) {
                1nat
            } else {
                0nat
            }),
            4 * self@.remove(EMPTY).len() <= 3 * self.slot_count(),
            is_slot_count(self.slot_count()),
            fits(self.slot_count()),
            self.slot_count() >= MIN_SLOTS,
    {
        lemma_keys(self.slots@);
        assert(self@.remove(EMPTY) =~= keys(self.slots@));
    }

    /// `capacity` is the expected number of elements.
    pub fn new(capacity: usize) -> (set: Self)
        requires
            fits(slots_for(capacity as nat)),
        ensures
            set.wf(),
            set@ == Set::<u32>::empty(),
            set.slot_count() == slots_for(capacity as nat),
    {
        proof {
            lemma_doubled(MIN_SLOTS as nat, (4 * capacity as nat + 2) / 3);
        }
        let needed: u64 = (4 * capacity as u64 + 2) / 3;
        let mut slots: usize = MIN_SLOTS;
        while (slots as u64) < needed
            invariant
                needed == (4 * capacity as nat + 2) / 3,
                fits(slots_for(capacity as nat)),
                slots >= MIN_SLOTS,
                is_slot_count(slots as nat),
                slots_for(capacity as nat) == doubled_to(slots as nat, needed as nat),
            decreases (if needed > slots { needed - slots } else { 0 }),
        {
            proof {
                lemma_doubled(slots as nat, needed as nat);
                lemma_doubled(2 * slots as nat, needed as nat);
                assert(is_slot_count(2 * slots as nat));
            }
            slots = slots * 2;
        }
        Self::with_slots(slots)
    }

    fn with_slots(cap: usize) -> (set: Self)
        requires
            is_slot_count(cap as nat),
            fits(cap as nat),
        ensures
            set.wf(),
            set@ == Set::<u32>::empty(),
            set.slot_count() == cap,
            !set.has_max,
    {
        let set = Self { slots: vec![EMPTY; cap], len: 0, has_max: false };
        proof {
            lemma_keys(set.slots@);
            assert(keys(set.slots@) =~= Set::<u32>::empty());
        }
        set
    }

    /// The low bits of the number: as many as tell the slots apart.
    fn hash(&self, n: u32) -> (slot: usize)
        requires
            self.slots@.len() > 0,
        ensures
            slot == home(n, self.slots@.len() as int),
            slot < self.slots@.len(),
    {
        let cap: u64 = self.slots.len() as u64;
        (n as u64 % cap) as usize
    }

    /// The slot after `i`, on the circle.
    fn after(&self, i: usize) -> (next: usize)
        requires
            i < self.slots@.len(),
        ensures
            next == walk(i as int, 1, self.slots@.len() as int),
            next < self.slots@.len(),
    {
        let last: usize = self.slots.len() - 1;
        if i == last {
            0
        } else {
            i + 1
        }
    }

    /// The slot where probing for `x` ends: that of `x` if it has one, else the first
    /// empty one from its home on.
    fn probe(&self, x: u32) -> (i: usize)
        requires
            well_probed(self.slots@),
            keys(self.slots@).len() < self.slots@.len(),
            x != EMPTY,
        ensures
            i < self.slots@.len(),
            self.slots@[i as int] == x || self.slots@[i as int] == EMPTY,
            self.slots@[i as int] == EMPTY ==> !keys(self.slots@).contains(x),
            forall|n: int|
                #![trigger walk(home(x, self.slots@.len() as int), n, self.slots@.len() as int)]
                0 <= n < steps(
                    home(x, self.slots@.len() as int),
                    i as int,
                    self.slots@.len() as int,
                ) ==> self.slots@[walk(
                    home(x, self.slots@.len() as int),
                    n,
                    self.slots@.len() as int,
                )] != EMPTY,
    {
        let ghost slots = self.slots@;
        let ghost cap = self.slots@.len() as int;
        let ghost h = home(x, cap);
        proof {
            lemma_keys(slots);
            lemma_has_empty(slots);
        }
        let ghost e = choose|e: int| 0 <= e < slots.len() && slots[e] == EMPTY;
        let mut i: usize = self.hash(x);
        let ghost mut n: int = 0;
        loop
            invariant
                slots == self.slots@,
                cap == slots.len(),
                x != EMPTY,
                h == home(x, cap),
                0 <= h < cap,
                well_probed(slots),
                0 <= e < cap,
                slots[e] == EMPTY,
                0 <= n <= steps(h, e, cap),
                i == walk(h, n, cap),
                i < cap,
                forall|m: int|
                    #![trigger walk(h, m, cap)]
                    0 <= m < n ==> slots[walk(h, m, cap)] != EMPTY && slots[walk(h, m, cap)] != x,
            decreases cap - n,
        {
            let s: u32 = self.slots[i];
            if s == x {
                return i;
            }
            if s == EMPTY {
                proof {
                    lemma_keys(slots);
                    if exists|p: int| 0 <= p < slots.len() && slots[p] == x {
                        let p = choose|p: int| 0 <= p < slots.len() && slots[p] == x;
                        assert(reachable(slots, p, -1));
                        let far = steps(h, p, cap);
                        assert(walk(h, far, cap) == p);
                        assert(far > n);
                        assert(walk(h, n, cap) == i);
                    }
                }
                return i;
            }
            proof {
                assert(walk(h, steps(h, e, cap), cap) == e);
                assert(n < steps(h, e, cap));
                assert(walk(h, n + 1, cap) == walk(i as int, 1, cap));
                n = n + 1;
            }
            i = self.after(i);
        }
    }

    pub fn contains(&self, x: u32) -> (found: bool)
        requires
            self.wf(),
        ensures
            found == self@.contains(x),
    {
        if x == EMPTY {
            proof {
                lemma_keys(self.slots@);
            }
            return self.has_max;
        }
        let i: usize = self.probe(x);
        proof {
            lemma_keys(self.slots@);
        }
        self.slots[i] == x
    }

    /// Puts an element that is not there in the slot where probing for it ended.
    fn place(&mut self, i: usize, x: u32)
        requires
            well_probed(old(self).slots@),
            i < old(self).slots@.len(),
            old(self).slots@[i as int] == EMPTY,
            x != EMPTY,
            !keys(old(self).slots@).contains(x),
            old(self).len == keys(old(self).slots@).len(),
            old(self).len < usize::MAX,
            forall|n: int|
                #![trigger walk(home(x, old(self).slots@.len() as int), n, old(self).slots@.len() as int)]
                0 <= n < steps(
                    home(x, old(self).slots@.len() as int),
                    i as int,
                    old(self).slots@.len() as int,
                ) ==> old(self).slots@[walk(
                    home(x, old(self).slots@.len() as int),
                    n,
                    old(self).slots@.len() as int,
                )] != EMPTY,
        ensures
            well_probed(final(self).slots@),
            final(self).slots@.len() == old(self).slots@.len(),
            keys(final(self).slots@) == keys(old(self).slots@).insert(x),
            final(self).len == keys(final(self).slots@).len(),
            final(self).len == old(self).len + 1,
            final(self).has_max == old(self).has_max,
    {
        let ghost before = self.slots@;
        let ghost cap = before.len() as int;
        self.slots.set(i, x);
        self.len = self.len + 1;
        proof {
            let now = self.slots@;
            lemma_keys(before);
            lemma_keys(now);
            assert forall|j: int| 0 <= j < cap && #[trigger] now[j] != EMPTY implies reachable(
                now,
                j,
                -1,
            ) by {
                if j != i {
                    assert(before[j] == now[j]);
                    assert(reachable(before, j, -1));
                }
            }
            assert(unrepeated(now)) by {
                assert forall|a: int, b: int|
                    0 <= a < cap && 0 <= b < cap && #[trigger] now[a] == #[trigger] now[b]
                        && now[a] != EMPTY implies a == b by {
                    if a != i && b != i {
                        assert(before[a] == before[b]);
                    } else if a != i {
                        assert(before[a] == x);
                    } else if b != i {
                        assert(before[b] == x);
                    }
                }
            }
            assert(keys(now) =~= keys(before).insert(x)) by {
                assert forall|y: u32| keys(now).contains(y) <==> keys(before).insert(x).contains(
                    y,
                ) by {
                    if keys(before).contains(y) {
                        let j = choose|j: int| 0 <= j < before.len() && before[j] == y;
                        assert(now[j] == y);
                    }
                    if keys(now).contains(y) && y != x {
                        let j = choose|j: int| 0 <= j < now.len() && now[j] == y;
                        assert(before[j] == y);
                    }
                    assert(now[i as int] == x);
                }
            }
        }
    }

    /// Adds an element. The answer is whether it was absent.
    pub fn insert(&mut self, x: u32) -> (absent: bool)
        requires
            old(self).wf(),
            x != EMPTY && old(self).is_full() ==> fits(2 * old(self).slot_count()),
        ensures
            final(self).wf(),
            absent == !old(self)@.contains(x),
            final(self)@ == old(self)@.insert(x),
            final(self).slot_count() == (if x != EMPTY && old(self).is_full() {
                2 * old(self).slot_count()
            } else {
                old(self).slot_count()
            }),
    {
        let ghost before = *self;
        proof {
            lemma_keys(self.slots@);
            assert(self@.remove(EMPTY) =~= keys(self.slots@));
        }
        if x == EMPTY {
            let was = self.has_max;
            self.has_max = true;
            assert(self@ =~= before@.insert(x));
            return !was;
        }
        if (self.len + 1) * 4 > self.slots.len() * 3 {
            self.grow();
        }
        let i: usize = self.probe(x);
        let absent = self.slots[i] != x;
        proof {
            lemma_keys(self.slots@);
        }
        if absent {
            self.place(i, x);
        }
        assert(self@ =~= before@.insert(x));
        absent
    }

    fn grow(&mut self)
        requires
            old(self).wf(),
            fits(2 * old(self).slot_count()),
        ensures
            final(self).wf(),
            final(self).slot_count() == 2 * old(self).slot_count(),
            keys(final(self).slots@) == keys(old(self).slots@),
            final(self).has_max == old(self).has_max,
    {
        let ghost before = self.slots@;
        let old_cap: usize = self.slots.len();
        assert(is_slot_count(2 * old_cap as nat));
        let mut fresh = Self::with_slots(old_cap * 2);
        fresh.has_max = self.has_max;
        let mut i: usize = 0;
        proof {
            lemma_keys(before);
            lemma_keys(fresh.slots@);
            lemma_keys(before.take(0));
            assert(keys(fresh.slots@) =~= keys(before.take(0)));
        }
        while i < old_cap
            invariant
                before == self.slots@,
                unrepeated(before),
                *self == *old(self),
                old_cap == before.len(),
                4 * keys(before).len() <= 3 * old_cap,
                keys(before).finite(),
                i <= old_cap,
                fresh.has_max == self.has_max,
                fresh.slots@.len() == 2 * old_cap,
                is_slot_count(fresh.slots@.len()),
                fits(fresh.slots@.len()),
                well_probed(fresh.slots@),
                fresh.len == keys(fresh.slots@).len(),
                keys(fresh.slots@) == keys(before.take(i as int)),
                keys(fresh.slots@).len() <= keys(before).len(),
            decreases old_cap - i,
        {
            let s: u32 = self.slots[i];
            let ghost done = before.take(i as int);
            let ghost next = before.take(i + 1);
            proof {
                lemma_keys(before);
                lemma_keys(done);
                lemma_keys(next);
                assert forall|y: u32| keys(next).contains(y) implies keys(before).contains(y) by {
                    let j = choose|j: int| 0 <= j < next.len() && next[j] == y;
                    assert(before[j] == y);
                }
                assert(keys(next).subset_of(keys(before)));
                vstd::set_lib::lemma_len_subset(keys(next), keys(before));
                assert forall|y: u32| y != s implies (keys(next).contains(y) <==> keys(
                    done,
                ).contains(y)) by {
                    if keys(next).contains(y) {
                        let j = choose|j: int| 0 <= j < next.len() && next[j] == y;
                        assert(done[j] == y);
                    }
                    if keys(done).contains(y) {
                        let j = choose|j: int| 0 <= j < done.len() && done[j] == y;
                        assert(next[j] == y);
                    }
                }
                assert(next[i as int] == s);
            }
            if s != EMPTY {
                proof {
                    if keys(done).contains(s) {
                        let j = choose|j: int| 0 <= j < done.len() && done[j] == s;
                        assert(before[j] == before[i as int]);
                    }
                    assert(keys(next) =~= keys(done).insert(s));
                }
                let j: usize = fresh.probe(s);
                proof {
                    lemma_keys(fresh.slots@);
                    if fresh.slots@[j as int] == s {
                        assert(keys(fresh.slots@).contains(s));
                    }
                }
                fresh.place(j, s);
            } else {
                assert(keys(next) =~= keys(done));
            }
            i += 1;
        }
        assert(before.take(old_cap as int) =~= before);
        *self = fresh;
    }
}

/// While a hole moves back: the slots with the hole taken as empty. Elements that
/// stand before `j` are reached; those from `j` on may be cut off by the hole. Behind
/// the hole, no slot before `j` is empty.
spec fn shifting(slots: Seq<u32>, hole: int, j: int) -> bool {
    let cap = slots.len() as int;
    let v = slots.update(hole, EMPTY);
    &&& 0 <= hole < cap
    &&& 0 <= j < cap
    &&& hole != j
    &&& unrepeated(v)
    &&& forall|i: int|
        0 <= i < cap && #[trigger] v[i] != EMPTY ==> reachable(
            v,
            i,
            if steps(hole, i, cap) >= steps(hole, j, cap) {
                hole
            } else {
                -1
            },
        )
    &&& forall|n: int|
        #![trigger walk(hole, n, cap)]
        0 < n < steps(hole, j, cap) ==> v[walk(hole, n, cap)] != EMPTY
}

proof fn lemma_shift_starts(slots: Seq<u32>, hole: int, j: int)
    requires
        well_probed(slots),
        0 <= hole < slots.len(),
        slots[hole] != EMPTY,
        slots.len() > 1,
        j == walk(hole, 1, slots.len() as int),
    ensures
        shifting(slots, hole, j),
{
    let cap = slots.len() as int;
    let v = slots.update(hole, EMPTY);
    assert(steps(hole, j, cap) == 1);
    assert forall|i: int| 0 <= i < cap && #[trigger] v[i] != EMPTY implies reachable(
        v,
        i,
        if steps(hole, i, cap) >= steps(hole, j, cap) {
            hole
        } else {
            -1
        },
    ) by {
        assert(i != hole);
        assert(reachable(slots, i, -1));
        let h = home(v[i], cap);
        assert forall|n: int|
            #![trigger walk(h, n, cap)]
            0 <= n < steps(h, i, cap) implies v[walk(h, n, cap)] != EMPTY || walk(h, n, cap)
            == hole by {
            assert(slots[walk(h, n, cap)] != EMPTY || walk(h, n, cap) == -1);
        }
    }
}

/// The element at `j` does not pass the hole on its way: it stays.
proof fn lemma_shift_skips(slots: Seq<u32>, hole: int, j: int)
    requires
        shifting(slots, hole, j),
        slots[j] != EMPTY,
        steps(home(slots[j], slots.len() as int), j, slots.len() as int) < steps(
            hole,
            j,
            slots.len() as int,
        ),
        walk(j, 1, slots.len() as int) != hole,
    ensures
        shifting(slots, hole, walk(j, 1, slots.len() as int)),
{
    let cap = slots.len() as int;
    let v = slots.update(hole, EMPTY);
    let next = walk(j, 1, cap);
    assert(steps(hole, next, cap) == steps(hole, j, cap) + 1);
    assert forall|i: int| 0 <= i < cap && #[trigger] v[i] != EMPTY implies reachable(
        v,
        i,
        if steps(hole, i, cap) >= steps(hole, next, cap) {
            hole
        } else {
            -1
        },
    ) by {
        let h = home(v[i], cap);
        if i == j {
            assert(reachable(v, i, hole));
            assert forall|n: int|
                #![trigger walk(h, n, cap)]
                0 <= n < steps(h, i, cap) implies v[walk(h, n, cap)] != EMPTY || walk(h, n, cap)
                == -1 by {
                if walk(h, n, cap) == hole {
                    assert(steps(h, j, cap) == n + steps(hole, j, cap));
                }
            }
        } else {
            assert(steps(hole, i, cap) != steps(hole, j, cap));
        }
    }
    assert forall|n: int|
        #![trigger walk(hole, n, cap)]
        0 < n < steps(hole, next, cap) implies v[walk(hole, n, cap)] != EMPTY by {
        if n == steps(hole, j, cap) {
            assert(walk(hole, n, cap) == j);
        }
    }
}

/// The element at `j` passes the hole on its way: it moves there.
proof fn lemma_shift_moves(slots: Seq<u32>, hole: int, j: int)
    requires
        shifting(slots, hole, j),
        slots.len() > 1,
        slots[j] != EMPTY,
        steps(home(slots[j], slots.len() as int), j, slots.len() as int) >= steps(
            hole,
            j,
            slots.len() as int,
        ),
    ensures
        shifting(slots.update(hole, slots[j]), j, walk(j, 1, slots.len() as int)),
        forall|x: u32|
            x != EMPTY ==> (slots.update(hole, EMPTY).contains(x) <==> #[trigger] slots.update(
                hole,
                slots[j],
            ).update(j, EMPTY).contains(x)),
{
    let cap = slots.len() as int;
    let v = slots.update(hole, EMPTY);
    let moved = slots.update(hole, slots[j]);
    let w = moved.update(j, EMPTY);
    let next = walk(j, 1, cap);
    let s = slots[j];
    let hs = home(s, cap);
    assert(steps(j, next, cap) == 1);
    assert(v[j] == s);
    assert(reachable(v, j, hole));
    assert(steps(hs, hole, cap) == steps(hs, j, cap) - steps(hole, j, cap));
    assert forall|i: int| 0 <= i < cap && #[trigger] w[i] != EMPTY implies reachable(
        w,
        i,
        if steps(j, i, cap) >= steps(j, next, cap) {
            j
        } else {
            -1
        },
    ) by {
        assert(i != j);
        let h = home(w[i], cap);
        if i == hole {
            assert forall|n: int|
                #![trigger walk(h, n, cap)]
                0 <= n < steps(h, i, cap) implies w[walk(h, n, cap)] != EMPTY || walk(h, n, cap)
                == j by {
                assert(v[walk(h, n, cap)] != EMPTY || walk(h, n, cap) == hole);
            }
        } else {
            assert(v[i] == w[i]);
            assert forall|n: int|
                #![trigger walk(h, n, cap)]
                0 <= n < steps(h, i, cap) implies w[walk(h, n, cap)] != EMPTY || walk(h, n, cap)
                == j by {
                assert(v[walk(h, n, cap)] != EMPTY || walk(h, n, cap) == hole || walk(h, n, cap)
                    == -1);
            }
        }
    }
    assert(unrepeated(w)) by {
        assert forall|a: int, b: int|
            0 <= a < cap && 0 <= b < cap && #[trigger] w[a] == #[trigger] w[b] && w[a]
                != EMPTY implies a == b by {
            let a2 = if a == hole {
                j
            } else {
                a
            };
            let b2 = if b == hole {
                j
            } else {
                b
            };
            assert(v[a2] == w[a] && v[b2] == w[b]);
        }
    }
    assert forall|x: u32| x != EMPTY implies (v.contains(x) <==> #[trigger] w.contains(x)) by {
        if v.contains(x) {
            let i = choose|i: int| 0 <= i < v.len() && v[i] == x;
            assert(w[if i == j {
                hole
            } else {
                i
            }] == x);
        }
        if w.contains(x) {
            let i = choose|i: int| 0 <= i < w.len() && w[i] == x;
            assert(v[if i == hole {
                j
            } else {
                i
            }] == x);
        }
    }
}

/// An empty slot ends the cluster, and nothing behind it was cut off.
proof fn lemma_shift_ends(slots: Seq<u32>, hole: int, j: int)
    requires
        shifting(slots, hole, j),
        slots[j] == EMPTY,
    ensures
        well_probed(slots.update(hole, EMPTY)),
{
    let cap = slots.len() as int;
    let v = slots.update(hole, EMPTY);
    assert(v.len() == cap);
    assert forall|i: int| 0 <= i < cap && #[trigger] v[i] != EMPTY implies reachable(
        v,
        i,
        -1,
    ) by {
        let h = home(v[i], cap);
        if steps(hole, i, cap) >= steps(hole, j, cap) {
            assert(reachable(v, i, hole));
            assert(forall|n: int|
                #![trigger walk(h, n, cap)]
                0 <= n < steps(h, i, cap) ==> v[walk(h, n, cap)] != EMPTY || walk(h, n, cap)
                    == hole);
            assert forall|n: int|
                #![trigger walk(h, n, cap)]
                0 <= n < steps(h, i, cap) implies v[walk(h, n, cap)] != EMPTY || walk(h, n, cap)
                == -1 by {
                if walk(h, n, cap) == hole {
                    let m = n + steps(hole, j, cap);
                    assert(i != j);
                    assert(0 <= h < cap);
                    assert(steps(hole, i, cap) > steps(hole, j, cap));
                    assert(steps(h, i, cap) == n + steps(hole, i, cap));
                    assert(walk(h, m, cap) == j);
                    assert(v[walk(h, m, cap)] != EMPTY || walk(h, m, cap) == hole);
                    assert(v[j] == EMPTY);
                }
            }
        }
    }
}

impl U32OpenAddressSet {
    /// How far `to` lies behind `from`, on the circle.
    fn distance(&self, from: usize, to: usize) -> (d: usize)
        requires
            from < self.slots@.len(),
            to < self.slots@.len(),
        ensures
            d == steps(from as int, to as int, self.slots@.len() as int),
    {
        if to >= from {
            to - from
        } else {
            self.slots.len() - (from - to)
        }
    }

    /// Takes an element out, and lets those behind it move up (no tombstones). The
    /// answer is whether it was there.
    pub fn remove(&mut self, x: u32) -> (present: bool)
        requires
            old(self).wf(),
        ensures
            final(self).wf(),
            present == old(self)@.contains(x),
            final(self)@ == old(self)@.remove(x),
            final(self).slot_count() == old(self).slot_count(),
    {
        let ghost before = *self;
        let ghost start = self.slots@;
        let ghost cap = self.slots@.len() as int;
        proof {
            lemma_keys(self.slots@);
        }
        if x == EMPTY {
            let was = self.has_max;
            self.has_max = false;
            assert(self@ =~= before@.remove(x));
            return was;
        }
        let i: usize = self.probe(x);
        if self.slots[i] != x {
            assert(self@ =~= before@.remove(x));
            return false;
        }
        proof {
            lemma_has_empty(start);
            assert(keys(start).contains(x));
        }
        let ghost e = choose|e: int| 0 <= e < start.len() && start[e] == EMPTY;
        let mut hole: usize = i;
        let mut j: usize = self.after(i);
        proof {
            lemma_shift_starts(start, hole as int, j as int);
            assert forall|y: u32| y != EMPTY implies (#[trigger] start.update(
                hole as int,
                EMPTY,
            ).contains(y) <==> keys(start).remove(x).contains(y)) by {
                let v = start.update(hole as int, EMPTY);
                if v.contains(y) {
                    let k = choose|k: int| 0 <= k < v.len() && v[k] == y;
                    assert(start[k] == y);
                }
                if keys(start).remove(x).contains(y) {
                    let k = choose|k: int| 0 <= k < start.len() && start[k] == y;
                    assert(v[k] == y);
                }
            }
        }
        loop
            invariant_except_break
                steps(hole as int, j as int, cap) <= steps(hole as int, e, cap),
            invariant
                cap == self.slots@.len(),
                cap > 1,
                x != EMPTY,
                0 <= e < cap,
                e != hole,
                self.slots@[e] == EMPTY,
                self.len == before.len,
                self.has_max == before.has_max,
                shifting(self.slots@, hole as int, j as int),
                forall|y: u32|
                    y != EMPTY ==> (#[trigger] self.slots@.update(hole as int, EMPTY).contains(y)
                        <==> keys(start).remove(x).contains(y)),
            ensures
                self.slots@[j as int] == EMPTY,
            decreases steps(j as int, e, cap),
        {
            let s: u32 = self.slots[j];
            if s == EMPTY {
                break;
            }
            let home: usize = self.hash(s);
            let dist_home_to_j: usize = self.distance(home, j);
            let dist_hole_to_j: usize = self.distance(hole, j);
            let ghost slots = self.slots@;
            assert(steps(j as int, e, cap) == steps(hole as int, e, cap) - steps(
                hole as int,
                j as int,
                cap,
            ));
            if dist_home_to_j >= dist_hole_to_j {
                proof {
                    lemma_shift_moves(slots, hole as int, j as int);
                }
                self.slots.set(hole, s);
                hole = j;
            } else {
                proof {
                    lemma_shift_skips(slots, hole as int, j as int);
                }
            }
            j = self.after(j);
        }
        proof {
            lemma_shift_ends(self.slots@, hole as int, j as int);
        }
        self.slots.set(hole, EMPTY);
        proof {
            lemma_keys(self.slots@);
            assert(keys(self.slots@) =~= keys(start).remove(x)) by {
                assert forall|y: u32| keys(self.slots@).contains(y) <==> keys(start).remove(
                    x,
                ).contains(y) by {
                    assert(self.slots@.contains(y) == self.slots@.contains(y));
                }
            }
        }
        self.len = self.len - 1;
        assert(self@ =~= before@.remove(x));
        true
    }

    /// Empties the set and keeps the slots.
    pub fn clear(&mut self)
        requires
            old(self).wf(),
        ensures
            final(self).wf(),
            final(self)@ == Set::<u32>::empty(),
            final(self).slot_count() == old(self).slot_count(),
    {
        let cap: usize = self.slots.len();
        let mut i: usize = 0;
        while i < cap
            invariant
                cap == self.slots@.len(),
                cap == old(self).slots@.len(),
                i <= cap,
                forall|k: int| 0 <= k < i ==> #[trigger] self.slots@[k] == EMPTY,
            decreases cap - i,
        {
            self.slots.set(i, EMPTY);
            i += 1;
        }
        self.len = 0;
        self.has_max = false;
        proof {
            lemma_keys(self.slots@);
            assert(keys(self.slots@) =~= Set::<u32>::empty());
        }
    }

    pub fn len(&self) -> (n: usize)
        requires
            self.wf(),
        ensures
            n == self@.len(),
    {
        proof {
            lemma_keys(self.slots@);
        }
        if self.has_max {
            self.len + 1
        } else {
            self.len
        }
    }

    pub fn is_empty(&self) -> (empty: bool)
        requires
            self.wf(),
        ensures
            empty == (self@ == Set::<u32>::empty()),
    {
        proof {
            lemma_keys(self.slots@);
            if self@.len() == 0 {
                self@.lemma_len0_is_empty();
            }
        }
        self.len() == 0
    }

    pub fn slot_capacity(&self) -> (n: usize)
        ensures
            n == self.slot_count(),
    {
        self.slots.len()
    }

    /// The elements, each once: those in slots in the order of the slots, then the
    /// largest number if it is there.
    pub fn iter(&self) -> (items: Vec<u32>)
        requires
            self.wf(),
        ensures
            items@.no_duplicates(),
            items@.to_set() == self@,
            items@.len() == self@.len(),
            items@ == self.in_order(),
            self@.contains(EMPTY) ==> items@.last() == EMPTY,
    {
        let mut items: Vec<u32> = Vec::new();
        let n: usize = self.slots.len();
        let mut i: usize = 0;
        let ghost keep = |s: u32| s != EMPTY;
        assert(self.slots@.take(0) =~= seq![]);
        assert(self.slots@.take(0).filter(keep) =~= seq![]) by {
            reveal(Seq::filter);
        }
        while i < n
            invariant
                n == self.slots@.len(),
                i <= n,
                keep == |s: u32| s != EMPTY,
                items@ == self.slots@.take(i as int).filter(keep),
            decreases n - i,
        {
            assert(self.slots@.take(i + 1).drop_last() =~= self.slots@.take(i as int));
            reveal(Seq::filter);
            if self.slots[i] != EMPTY {
                items.push(self.slots[i]);
            }
            i += 1;
        }
        assert(self.slots@.take(n as int) =~= self.slots@);
        proof {
            lemma_kept(self.slots@, keep);
        }
        if self.has_max {
            items.push(EMPTY);
        }
        proof {
            lemma_keys(self.slots@);
            let kept = self.slots@.filter(keep);
            assert forall|x: u32| self@.contains(x) <==> items@.contains(x) by {
                if items@.contains(x) {
                    let k = choose|k: int| 0 <= k < items@.len() && items@[k] == x;
                    if k < kept.len() {
                        assert(kept[k] == x);
                        assert(kept.contains(x));
                    }
                }
                if self@.contains(x) {
                    if x == EMPTY {
                        assert(items@[items@.len() - 1] == EMPTY);
                    } else {
                        assert(self.slots@.contains(x));
                        assert(kept.contains(x));
                        let k = choose|k: int| 0 <= k < kept.len() && kept[k] == x;
                        assert(items@[k] == x);
                    }
                }
            }
            assert(items@.to_set() =~= self@);
            assert(self.has_max == self@.contains(EMPTY));
            assert forall|a: int, b: int|
                0 <= a < items@.len() && 0 <= b < items@.len() && a != b implies items@[a]
                != items@[b] by {
                if a < kept.len() {
                    assert(kept.contains(kept[a]));
                }
                if b < kept.len() {
                    assert(kept.contains(kept[b]));
                }
            }
            items@.unique_seq_to_set();
        }
        items
    }

    /// What the slots hold, slot after slot.
    pub closed spec fn slot_values(self) -> Seq<u32> {
        self.slots@
    }

    /// The elements in the order of the slots, and then the largest number if it is there.
    pub open spec fn in_order(self) -> Seq<u32> {
        let kept = self.slot_values().filter(|s: u32| s != EMPTY);
        if self@.contains(EMPTY) {
            kept.push(EMPTY)
        } else {
            kept
        }
    }
}

/// Filtering the empty slots out keeps every element, once.
proof fn lemma_kept(slots: Seq<u32>, keep: spec_fn(u32) -> bool)
    requires
        unrepeated(slots),
        keep == |s: u32| s != EMPTY,
    ensures
        slots.filter(keep).no_duplicates(),
        forall|x: u32| #[trigger]
            slots.filter(keep).contains(x) <==> x != EMPTY && slots.contains(x),
    decreases slots.len(),
{
    reveal(Seq::filter);
    if slots.len() > 0 {
        let rest = slots.drop_last();
        assert(unrepeated(rest)) by {
            assert forall|a: int, b: int|
                0 <= a < rest.len() && 0 <= b < rest.len() && #[trigger] rest[a]
                    == #[trigger] rest[b] && rest[a] != EMPTY implies a == b by {
                assert(slots[a] == slots[b]);
            }
        }
        lemma_kept(rest, keep);
        let last = slots.last();
        assert forall|x: u32| slots.contains(x) <==> rest.contains(x) || x == last by {
            if slots.contains(x) && x != last {
                let k = choose|k: int| 0 <= k < slots.len() && slots[k] == x;
                assert(rest[k] == x);
            }
            if rest.contains(x) {
                let k = choose|k: int| 0 <= k < rest.len() && rest[k] == x;
                assert(slots[k] == x);
            }
            assert(slots[slots.len() - 1] == last);
        }
        if last != EMPTY {
            if rest.contains(last) {
                let k = choose|k: int| 0 <= k < rest.len() && rest[k] == last;
                assert(slots[k] == slots[slots.len() - 1]);
            }
            let kept = rest.filter(keep);
            assert forall|x: u32| #[trigger] kept.push(last).contains(x) <==> kept.contains(x) || x
                == last by {
                if kept.contains(x) {
                    let k = choose|k: int| 0 <= k < kept.len() && kept[k] == x;
                    assert(kept.push(last)[k] == x);
                }
                assert(kept.push(last)[kept.len() as int] == last);
            }
            assert forall|a: int, b: int|
                0 <= a < kept.push(last).len() && 0 <= b < kept.push(last).len() && a
                    != b implies kept.push(last)[a] != kept.push(last)[b] by {
                if a < kept.len() {
                    assert(kept.contains(kept[a]));
                }
                if b < kept.len() {
                    assert(kept.contains(kept[b]));
                }
            }
        }
    }
}

proof fn lemma_doubled(n: nat, needed: nat)
    requires
        n > 0,
    ensures
        doubled_to(n, needed) >= n,
        doubled_to(n, needed) >= needed,
    decreases (if needed > n { needed - n } else { 0 }),
{
    if n < needed {
        lemma_doubled(2 * n, needed);
    }
}

} // verus!
