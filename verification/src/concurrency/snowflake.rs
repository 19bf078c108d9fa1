//! Identifiers that are cheap to make on every thread: one byte names the
//! generator, the rest counts.

use vstd::prelude::*;

verus! {

pub type Snowflake = u64;

/// The 32-bit identifier that a generator makes at that count.
pub open spec fn snowflake_32(id: u8, count: int) -> int {
    (count % 0x100_0000) * 0x100 + id
}

/// The 64-bit identifier that a generator makes at that count.
pub open spec fn snowflake_64(id: u8, count: int) -> int {
    (count % 0x100_0000_0000_0000) * 0x100 + id
}

/// An identifier comes again only after the counter has gone all the way round, and
/// never from a generator with another name.
pub proof fn snowflakes_32_are_distinct(id: u8, count: int, other_id: u8, other_count: int)
    requires
        id != other_id || 0 < other_count - count < 0x100_0000,
    ensures
        snowflake_32(id, count) != snowflake_32(other_id, other_count),
        0 <= snowflake_32(id, count) <= u32::MAX,
        snowflake_32(id, count) % 0x100 == id,
{
}

/// Two counts less than a round apart give two identifiers.
pub proof fn lemma_ids_differ(id: u8, a: int, b: int)
    requires
        a != b,
        -0x100_0000 < a - b < 0x100_0000,
    ensures
        snowflake_32(id, a) as u32 != snowflake_32(id, b) as u32,
{
    if a < b {
        snowflakes_32_are_distinct(id, a, id, b);
        snowflakes_32_are_distinct(id, b, id, b + 1);
    } else {
        snowflakes_32_are_distinct(id, b, id, a);
        snowflakes_32_are_distinct(id, a, id, a + 1);
    }
}

/// An identifier comes again only after the counter has gone all the way round, and
/// never from a generator with another name.
pub proof fn snowflakes_64_are_distinct(id: u8, count: int, other_id: u8, other_count: int)
    requires
        id != other_id || 0 < other_count - count < 0x100_0000_0000_0000,
    ensures
        snowflake_64(id, count) != snowflake_64(other_id, other_count),
        0 <= snowflake_64(id, count) <= u64::MAX,
        snowflake_64(id, count) % 0x100 == id,
{
}

/// Names generators, from 0 on; after 255 it starts again.
pub struct IdAllocator {
    pub next: u8,
}

impl IdAllocator {
    pub fn allocate(&mut self) -> (id: u8)
        ensures
            id == old(self).next,
            final(self).next == (old(self).next + 1) % 0x100,
    {
        let id: u8 = self.next;
        self.next = self.next.wrapping_add(1);
        id
    }
}

/// The name for one more generator.
pub fn allocate_generator_id(allocator: &mut IdAllocator) -> (id: u8)
    ensures
        id == old(allocator).next,
        final(allocator).next == (old(allocator).next + 1) % 0x100,
{
    allocator.allocate()
}

pub struct Generator32 {
    pub id: u8,
    pub counter: u32,
}

impl Generator32 {
    pub fn new(id: u8) -> (generator: Self)
        ensures
            generator == (Generator32 { id, counter: 0 }),
    {
        Self { id, counter: 0 }
    }

    pub fn next(&mut self) -> (snowflake: u32)
        ensures
            snowflake == snowflake_32(old(self).id, old(self).counter + 1),
            final(self).id == old(self).id,
            final(self).counter == (old(self).counter + 1) % 0x1_0000_0000,
    {
        let counter: u32 = self.counter.wrapping_add(1);
        self.counter = counter;
        let id: u32 = self.id as u32;
        assert(id < 0x100 ==> ((counter & 0x00ff_ffff) << 8) | id == (counter % 0x100_0000) * 0x100
            + id) by (bit_vector);
        ((counter & 0x00ff_ffff) << 8) | id
    }
}

pub struct Generator64 {
    pub id: u8,
    pub counter: u64,
}

impl Generator64 {
    pub fn new(id: u8) -> (generator: Self)
        ensures
            generator == (Generator64 { id, counter: 0 }),
    {
        Self { id, counter: 0 }
    }

    pub fn next(&mut self) -> (snowflake: u64)
        ensures
            snowflake == snowflake_64(old(self).id, old(self).counter + 1),
            final(self).id == old(self).id,
            final(self).counter == (old(self).counter + 1) % 0x1_0000_0000_0000_0000,
    {
        let counter: u64 = self.counter.wrapping_add(1);
        self.counter = counter;
        let id: u64 = self.id as u64;
        assert(id < 0x100 ==> ((counter & 0x00ff_ffff_ffff_ffff) << 8) | id == (counter
            % 0x100_0000_0000_0000) * 0x100 + id) by (bit_vector);
        ((counter & 0x00ff_ffff_ffff_ffff) << 8) | id
    }
}

/// The next identifier of the generator that belongs to the thread.
pub fn next_u32(generator: &mut Generator32) -> (snowflake: u32)
    ensures
        snowflake == snowflake_32(old(generator).id, old(generator).counter + 1),
        final(generator).id == old(generator).id,
        final(generator).counter == (old(generator).counter + 1) % 0x1_0000_0000,
{
    generator.next()
}

/// The next identifier of the generator that belongs to the thread.
pub fn next_u64(generator: &mut Generator64) -> (snowflake: u64)
    ensures
        snowflake == snowflake_64(old(generator).id, old(generator).counter + 1),
        final(generator).id == old(generator).id,
        final(generator).counter == (old(generator).counter + 1) % 0x1_0000_0000_0000_0000,
{
    generator.next()
}

} // verus!
