//! The operators that nodes look up: the matrices of sources, fibres and 2x2 components.

use std::sync::Arc;

use vstd::prelude::*;

use crate::types::{OpStoreHandle, Time};

verus! {

/// The matrices of an operator, number by number, as the bit patterns of the 32-bit
/// floating-point numbers that they are.
pub type OperatorBits = Vec<u32>;

/// A `boxcar::Vec` of operators, each behind an `arc_swap::ArcSwap`.
#[verifier::external_body]
pub struct OperatorTable {
    items: boxcar::Vec<arc_swap::ArcSwap<OperatorBits>>,
}

/// What an `OperatorTable` holds, first item first. Everything that changes it takes the
/// table for itself.
pub uninterp spec fn table_items(table: OperatorTable) -> Seq<Seq<u32>>;

impl View for OperatorTable {
    type V = Seq<Seq<u32>>;

    open spec fn view(&self) -> Seq<Seq<u32>> {
        table_items(*self)
    }
}

impl OperatorTable {
    /// `boxcar::Vec::new`: an empty table.
    #[verifier::external_body]
    pub(crate) fn new() -> (table: OperatorTable)
        ensures
            table_items(table) == Seq::<Seq<u32>>::empty(),
    {
        OperatorTable { items: boxcar::Vec::new() }
    }

    /// `boxcar::Vec::push`: appends the item and gives its place, which is the number of
    /// items before as long as nobody else pushes. It panics where the places run out, so
    /// that many items are left out.
    #[verifier::external_body]
    pub(crate) fn push(&mut self, operator: OperatorBits) -> (place: usize)
        requires
            table_items(*old(self)).len() < 0x4000_0000,
        ensures
            place == table_items(*old(self)).len(),
            table_items(*final(self)) == table_items(*old(self)).push(operator@),
    {
        self.items.push(arc_swap::ArcSwap::from_pointee(operator))
    }

    /// `boxcar::Vec::count`: the number of items.
    #[verifier::external_body]
    pub(crate) fn count(&self) -> (n: usize)
        ensures
            n == table_items(*self).len(),
    {
        self.items.count()
    }

    /// `arc_swap::ArcSwapAny::store` on the item at that place: replaces it.
    #[verifier::external_body]
    pub(crate) fn store(&mut self, place: usize, operator: OperatorBits)
        requires
            place < table_items(*old(self)).len(),
        ensures
            table_items(*final(self)) == table_items(*old(self)).update(
                place as int,
                operator@,
            ),
    {
        self.items[place].store(Arc::new(operator));
    }

    /// `arc_swap::ArcSwapAny::load` on the item at that place: gives what it holds.
    #[verifier::external_body]
    pub(crate) fn load(&self, place: usize) -> (operator: Arc<OperatorBits>)
        requires
            place < table_items(*self).len(),
        ensures
            operator@ == table_items(*self)[place as int],
    {
        arc_swap::Guard::into_inner(self.items[place].load())
    }
}

/// A table of operators. A handle stands for an operator, at all times so far.
// This store currently only serves as a table. However, in the future, we will need to
// store the past operators, and interpolate between them. Also we need a mechanism to
// invalidate and remove the old values from the store, based on a best effort clock. In
// addition, some experiment will require that the operator follows a specific function
// based on time.
pub struct OpStore {
    items: OperatorTable,
}

impl View for OpStore {
    type V = Seq<Seq<u32>>;

    closed spec fn view(&self) -> Seq<Seq<u32>> {
        self.items@
    }
}

impl OpStore {
    pub fn new() -> (store: Self)
        ensures
            store@ == Seq::<Seq<u32>>::empty(),
    {
        Self { items: OperatorTable::new() }
    }

    /// Adds an operator and gives its place, cut to the width of a handle.
    pub fn add(&mut self, operator: OperatorBits) -> (handle: OpStoreHandle)
        requires
            old(self)@.len() < 0x4000_0000,
        ensures
            handle == old(self)@.len() % 0x1_0000,
            final(self)@ == old(self)@.push(operator@),
    {
        let place: usize = self.items.push(operator);
        assert(place as u16 == place % 0x1_0000) by (bit_vector);
        place as OpStoreHandle
    }

    /// Changes an operator.
    pub fn set(&mut self, handle: OpStoreHandle, operator: OperatorBits, _time: Time)
        requires
            handle < old(self)@.len(),
        ensures
            final(self)@ == old(self)@.update(handle as int, operator@),
    {
        self.items.store(handle as usize, operator);
    }

    pub fn get(&self, handle: OpStoreHandle, _time: Time) -> (operator: Arc<OperatorBits>)
        requires
            handle < self@.len(),
        ensures
            operator@ == self@[handle as int],
    {
        self.items.load(handle as usize)
    }

    pub fn len(&self) -> (n: usize)
        ensures
            n == self@.len(),
    {
        self.items.count()
    }
}

/// An operator is found as it was last set or added, and what is done under one handle
/// changes nothing under another. (Handles come again after as many as there are.)
pub proof fn operators_are_kept_apart(
    items: Seq<Seq<u32>>,
    handle: OpStoreHandle,
    other: OpStoreHandle,
    operator: Seq<u32>,
)
    requires
        handle < items.len(),
        other < items.len(),
    ensures
        items.update(handle as int, operator)[handle as int] == operator,
        handle != other ==> items.update(handle as int, operator)[other as int]
            == items[other as int],
        items.push(operator)[other as int] == items[other as int],
        items.push(operator)[items.len() as int] == operator,
{
}

/// The operators of a simulation, by kind of node.
pub struct OperatorRecord {
    pub single: OpStore,  // [3x3 kraus operator; <=7]
    pub dual: OpStore,  // 4x4 scatter matrix
    pub epps: OpStore,  // 4x4 density matrix
}

impl OperatorRecord {
    pub fn new() -> (record: Self)
        ensures
            record.single@ == Seq::<Seq<u32>>::empty(),
            record.dual@ == Seq::<Seq<u32>>::empty(),
            record.epps@ == Seq::<Seq<u32>>::empty(),
    {
        Self { single: OpStore::new(), dual: OpStore::new(), epps: OpStore::new() }
    }
}

} // verus!
