//! A growing table whose entries can be redirected to one another.

use vstd::prelude::*;

verus! {

pub enum MonotonicMapCell<T> {
    Data(T),
    Moved(u16),
}

/// Where each cell redirects to, if it does.
pub open spec fn hops_of<T>(cells: Seq<MonotonicMapCell<T>>) -> Seq<Option<u16>> {
    cells.map_values(
        |cell: MonotonicMapCell<T>|
            match cell {
                MonotonicMapCell::Data(_) => None,
                MonotonicMapCell::Moved(next) => Some(next),
            },
    )
}

/// The cell that `handle` leads to in at most `fuel` redirections.
pub open spec fn root_within(hops: Seq<Option<u16>>, handle: int, fuel: nat) -> Option<int>
    decreases fuel,
{
    if !(0 <= handle < hops.len()) {
        None
    } else {
        match hops[handle] {
            None => Some(handle),
            Some(next) => if fuel == 0 {
                None
            } else {
                root_within(hops, next as int, (fuel - 1) as nat)
            },
        }
    }
}

/// Following the redirections from `handle` ends.
pub open spec fn has_root(hops: Seq<Option<u16>>, handle: int) -> bool {
    exists|fuel: nat| root_within(hops, handle, fuel) is Some
}

/// The cell that the redirections from `handle` end at.
pub open spec fn root_of(hops: Seq<Option<u16>>, handle: int) -> int {
    root_within(hops, handle, choose|fuel: nat| root_within(hops, handle, fuel) is Some)->0
}

/// Every handle leads somewhere.
pub open spec fn all_rooted(hops: Seq<Option<u16>>) -> bool {
    forall|h: int| 0 <= h < hops.len() ==> #[trigger] has_root(hops, h)
}

proof fn lemma_more_fuel(hops: Seq<Option<u16>>, handle: int, fuel: nat, more: nat)
    requires
        root_within(hops, handle, fuel) is Some,
        fuel <= more,
    ensures
        root_within(hops, handle, more) == root_within(hops, handle, fuel),
    decreases fuel,
{
    if let Some(next) = hops[handle] {
        lemma_more_fuel(hops, next as int, (fuel - 1) as nat, (more - 1) as nat);
    }
}

/// Whatever fuel suffices, it leads to the root.
pub proof fn lemma_root_is(hops: Seq<Option<u16>>, handle: int, fuel: nat)
    requires
        root_within(hops, handle, fuel) is Some,
    ensures
        has_root(hops, handle),
        root_within(hops, handle, fuel) == Some(root_of(hops, handle)),
{
    let chosen = choose|fuel: nat| root_within(hops, handle, fuel) is Some;
    if chosen <= fuel {
        lemma_more_fuel(hops, handle, chosen, fuel);
    } else {
        lemma_more_fuel(hops, handle, fuel, chosen);
    }
}

proof fn lemma_root_within_data(hops: Seq<Option<u16>>, handle: int, fuel: nat)
    requires
        root_within(hops, handle, fuel) is Some,
    ensures
        0 <= root_within(hops, handle, fuel)->0 < hops.len(),
        hops[root_within(hops, handle, fuel)->0] is None,
    decreases fuel,
{
    if let Some(next) = hops[handle] {
        lemma_root_within_data(hops, next as int, (fuel - 1) as nat);
    }
}

/// A root holds data, is its own root, and redirecting to a handle shares its root.
pub proof fn lemma_root(hops: Seq<Option<u16>>, handle: int)
    requires
        has_root(hops, handle),
    ensures
        0 <= handle < hops.len(),
        0 <= root_of(hops, handle) < hops.len(),
        hops[root_of(hops, handle)] is None,
        hops[handle] is None ==> root_of(hops, handle) == handle,
        hops[handle] matches Some(next) ==> has_root(hops, next as int) && root_of(
            hops,
            next as int,
        ) == root_of(hops, handle),
{
    let fuel = choose|fuel: nat| root_within(hops, handle, fuel) is Some;
    lemma_root_within_data(hops, handle, fuel);
    if let Some(next) = hops[handle] {
        lemma_root_is(hops, next as int, (fuel - 1) as nat);
    }
}

proof fn lemma_root_within_pushed(hops: Seq<Option<u16>>, handle: int, fuel: nat)
    requires
        root_within(hops, handle, fuel) is Some,
    ensures
        root_within(hops.push(None), handle, fuel) == root_within(hops, handle, fuel),
    decreases fuel,
{
    if let Some(next) = hops[handle] {
        lemma_root_within_pushed(hops, next as int, (fuel - 1) as nat);
    }
}

/// A new cell leaves every root where it was and is its own.
pub proof fn lemma_root_pushed(hops: Seq<Option<u16>>)
    requires
        all_rooted(hops),
    ensures
        all_rooted(hops.push(None)),
        root_of(hops.push(None), hops.len() as int) == hops.len(),
        forall|h: int|
            0 <= h < hops.len() ==> #[trigger] root_of(hops.push(None), h) == root_of(hops, h),
{
    let pushed = hops.push(None);
    assert(root_within(pushed, hops.len() as int, 0) == Some(hops.len() as int));
    lemma_root_is(pushed, hops.len() as int, 0);
    assert forall|h: int|
        #![trigger has_root(pushed, h)]
        #![trigger root_of(pushed, h)]
        0 <= h < hops.len() implies has_root(pushed, h) && root_of(pushed, h) == root_of(
        hops,
        h,
    ) by {
        assert(has_root(hops, h));
        let fuel = choose|fuel: nat| root_within(hops, h, fuel) is Some;
        lemma_root_within_pushed(hops, h, fuel);
        lemma_root_is(pushed, h, fuel);
    }
}

proof fn lemma_root_within_redirected(
    hops: Seq<Option<u16>>,
    handle: int,
    fuel: nat,
    from: int,
    to: u16,
    to_fuel: nat,
)
    requires
        root_within(hops, handle, fuel) is Some,
        0 <= from < hops.len(),
        hops[from] is None,
        root_within(hops, to as int, to_fuel) is Some,
        root_within(hops, to as int, to_fuel) != Some(from),
    ensures
        root_within(hops, handle, fuel) == Some(from) ==> root_within(
            hops.update(from, Some(to)),
            handle,
            fuel + 1 + to_fuel,
        ) == root_within(hops, to as int, to_fuel),
        root_within(hops, handle, fuel) != Some(from) ==> root_within(
            hops.update(from, Some(to)),
            handle,
            fuel,
        ) == root_within(hops, handle, fuel),
    decreases fuel, (if root_within(hops, handle, fuel) == Some(from) { 1int } else { 0int }),
{
    let redirected = hops.update(from, Some(to));
    if handle == from {
        // the target's path never meets `from`, or it would end there
        assert(root_within(hops, handle, fuel) == Some(from));
        lemma_target_path(hops, to as int, to_fuel, from, to);
        lemma_more_fuel(redirected, to as int, to_fuel, fuel + to_fuel);
    } else if let Some(next) = hops[handle] {
        lemma_root_within_redirected(hops, next as int, (fuel - 1) as nat, from, to, to_fuel);
    }
}

proof fn lemma_target_path(hops: Seq<Option<u16>>, handle: int, fuel: nat, from: int, to: u16)
    requires
        root_within(hops, handle, fuel) is Some,
        0 <= from < hops.len(),
        hops[from] is None,
        root_within(hops, handle, fuel) != Some(from),
    ensures
        root_within(hops.update(from, Some(to)), handle, fuel) == root_within(hops, handle, fuel),
    decreases fuel,
{
    if let Some(next) = hops[handle] {
        lemma_target_path(hops, next as int, (fuel - 1) as nat, from, to);
    }
}

/// Redirecting a root to a handle with another root moves what ended at the one to
/// the other, and nothing else.
pub proof fn lemma_root_redirected(hops: Seq<Option<u16>>, from: int, to: u16)
    requires
        all_rooted(hops),
        0 <= from < hops.len(),
        hops[from] is None,
        to < hops.len(),
        root_of(hops, to as int) != from,
    ensures
        all_rooted(hops.update(from, Some(to))),
        forall|h: int|
            0 <= h < hops.len() ==> #[trigger] root_of(hops.update(from, Some(to)), h) == (
            if root_of(hops, h) == from {
                root_of(hops, to as int)
            } else {
                root_of(hops, h)
            }),
{
    let redirected = hops.update(from, Some(to));
    assert(has_root(hops, to as int));
    let to_fuel = choose|fuel: nat| root_within(hops, to as int, fuel) is Some;
    assert forall|h: int|
        #![trigger has_root(redirected, h)]
        #![trigger root_of(redirected, h)]
        0 <= h < hops.len() implies has_root(redirected, h) && root_of(redirected, h) == (if root_of(
        hops,
        h,
    ) == from {
        root_of(hops, to as int)
    } else {
        root_of(hops, h)
    }) by {
        assert(has_root(hops, h));
        let fuel = choose|fuel: nat| root_within(hops, h, fuel) is Some;
        lemma_root_within_redirected(hops, h, fuel, from, to, to_fuel);
        if root_of(hops, h) == from {
            lemma_root_is(redirected, h, fuel + 1 + to_fuel);
        } else {
            lemma_root_is(redirected, h, fuel);
        }
    }
}

/// Entries are only ever added or redirected, so a handle stays good for ever.
pub struct MonotonicMap<T> {
    data: Vec<MonotonicMapCell<T>>,
}

impl<T> View for MonotonicMap<T> {
    type V = Seq<MonotonicMapCell<T>>;

    closed spec fn view(&self) -> Seq<MonotonicMapCell<T>> {
        self.data@
    }
}

impl<T> MonotonicMap<T> {
    pub fn new() -> (map: Self)
        ensures
            map@ == Seq::<MonotonicMapCell<T>>::empty(),
    {
        Self { data: Vec::new() }
    }

    pub fn len(&self) -> (n: usize)
        ensures
            n == self@.len(),
    {
        self.data.len()
    }

    /// The cell at that place, as it is.
    pub fn at(&self, i: usize) -> (cell: &MonotonicMapCell<T>)
        requires
            i < self@.len(),
        ensures
            *cell == self@[i as int],
    {
        &self.data[i]
    }

    /// Adds an entry and gives its handle.
    pub fn add(&mut self, value: T) -> (handle: u16)
        requires
            old(self)@.len() <= u16::MAX,
        ensures
            handle == old(self)@.len(),
            final(self)@ == old(self)@.push(MonotonicMapCell::Data(value)),
    {
        let index: usize = self.data.len();
        self.data.push(MonotonicMapCell::Data(value));
        index as u16
    }

    /// The handle that `handle` leads to in the end.
    pub fn resolve(&self, handle: u16) -> (root: u16)
        requires
            has_root(hops_of(self@), handle as int),
        ensures
            root == root_of(hops_of(self@), handle as int),
            root < self@.len(),
            self@[root as int] is Data,
    {
        let ghost hops = hops_of(self@);
        let mut at: u16 = handle;
        let ghost mut fuel: nat = choose|fuel: nat| root_within(hops, handle as int, fuel) is Some;
        loop
            invariant
                hops == hops_of(self@),
                root_within(hops, at as int, fuel) is Some,
                root_of(hops, at as int) == root_of(hops, handle as int),
            decreases fuel,
        {
            proof {
                lemma_root_is(hops, at as int, fuel);
                lemma_root(hops, at as int);
            }
            match &self.data[at as usize] {
                MonotonicMapCell::Moved(next) => {
                    at = *next;
                    proof {
                        fuel = (fuel - 1) as nat;
                    }
                },
                MonotonicMapCell::Data(_) => {
                    return at;
                },
            }
        }
    }

    /// The entry that `handle` leads to.
    pub fn get(&mut self, handle: u16) -> (data: &mut T)
        requires
            has_root(hops_of(old(self)@), handle as int),
        ensures
            old(self)@[root_of(hops_of(old(self)@), handle as int)] == MonotonicMapCell::Data(*data),
            final(self)@ == old(self)@.update(
                root_of(hops_of(old(self)@), handle as int),
                MonotonicMapCell::Data(*final(data)),
            ),
    {
        let root: u16 = self.resolve(handle);
        match &mut self.data[root as usize] {
            MonotonicMapCell::Data(data) => data,
            MonotonicMapCell::Moved(_) => vstd::pervasive::unreached(),
        }
    }

    /// Takes the entry that `handle` leads to out, and leaves a redirection to
    /// `next_handle` in its place.
    pub fn move_out_to(&mut self, handle: u16, next_handle: u16) -> (value: T)
        requires
            has_root(hops_of(old(self)@), handle as int),
        ensures
            old(self)@[root_of(hops_of(old(self)@), handle as int)] == MonotonicMapCell::Data(
                value,
            ),
            final(self)@ == old(self)@.update(
                root_of(hops_of(old(self)@), handle as int),
                MonotonicMapCell::Moved(next_handle),
            ),
    {
        let root: u16 = self.resolve(handle);
        let mut cell = MonotonicMapCell::Moved(next_handle);
        std::mem::swap(&mut self.data[root as usize], &mut cell);
        match cell {
            MonotonicMapCell::Data(value) => value,
            MonotonicMapCell::Moved(_) => vstd::pervasive::unreached(),
        }
    }
}

} // verus!
