//! Photons, and the operators that hand them from mode to mode.

use vstd::prelude::*;

use crate::types::{ModeIndex, Time};

verus! {

#[derive(Clone, Copy, Debug, PartialEq, Eq, Structural)]
pub enum Photon {
    Single,
    Vac,
}

impl Photon {
    pub fn is_vac(&self) -> (vac: bool)
        ensures
            vac == (*self == Photon::Vac),
    {
        match self {
            Photon::Single => false,
            Photon::Vac => true,
        }
    }

    pub fn is_single(&self) -> (single: bool)
        ensures
            single == (*self == Photon::Single),
    {
        match self {
            Photon::Single => true,
            Photon::Vac => false,
        }
    }
}

/// Of two exits, the photon takes one and leaves the other empty.
pub open spec fn splits_into(photon: Photon, first: Photon, second: Photon) -> bool {
    (first == photon && second == Photon::Vac) || (first == Photon::Vac && second == photon)
}

/// What leaves the two exits of a 2x2 component, first exit first, when the photon
/// takes the first (`takes_first`) or the second.
pub fn split_photon(photon: Photon, takes_first: bool) -> (exits: (Photon, Photon))
    ensures
        exits == (if takes_first {
            (photon, Photon::Vac)
        } else {
            (Photon::Vac, photon)
        }),
        splits_into(photon, exits.0, exits.1),
{
    if takes_first {
        (photon, Photon::Vac)
    } else {
        (Photon::Vac, photon)
    }
}

/// One way through an operator: from a source mode to its sink modes.
#[verifier::ext_equal]
pub struct Link {
    pub source: ModeIndex,
    pub sinks: Seq<ModeIndex>,
}

/// What an operator does with the photons that arrive.
pub enum NodeKind {
    /// Passes the photon on.
    Relay,
    /// Sends the photon to one of two exits.
    Split,
    /// Two photons meet; the number is the bit pattern of their
    /// indistinguishability.
    Interfere(u64),
    /// More than two packets met; each photon goes its own way.
    Multi,
    /// Records the arrival.
    Detect { id: u16, wp_snowflake: u32, time: Time },
    /// Swallows the photon.
    Dump,
}

/// An operator as the walk sees it: its links, and which of their photons it holds
/// while it waits for the others.
#[verifier::ext_equal]
pub struct Node {
    pub kind: NodeKind,
    pub links: Seq<Link>,
    pub held: Seq<Option<Photon>>,
}

/// No photon on any of `n` links.
pub open spec fn none_held(n: nat) -> Seq<Option<Photon>> {
    Seq::new(n, |i: int| None)
}

/// A link of the sequence starts at that mode.
pub open spec fn has_source(links: Seq<Link>, source: ModeIndex) -> bool {
    exists|k: int| 0 <= k < links.len() && (#[trigger] links[k]).source == source
}

/// The links with one more, unless one of them has its source already.
pub open spec fn with_link(links: Seq<Link>, link: Link) -> Seq<Link> {
    if has_source(links, link.source) {
        links
    } else {
        links.push(link)
    }
}

/// The links with those of `more` added one by one.
pub open spec fn with_links(links: Seq<Link>, more: Seq<Link>) -> Seq<Link>
    decreases more.len(),
{
    if more.len() == 0 {
        links
    } else {
        with_link(with_links(links, more.drop_last()), more.last())
    }
}

/// A mode with its two exits, as a link.
pub open spec fn entry_link(entry: (ModeIndex, ModeIndex, ModeIndex)) -> Link {
    Link { source: entry.0, sinks: seq![entry.1, entry.2] }
}

pub open spec fn entry_links(entries: Seq<(ModeIndex, ModeIndex, ModeIndex)>) -> Seq<Link> {
    entries.map_values(|entry: (ModeIndex, ModeIndex, ModeIndex)| entry_link(entry))
}

/// Adds an entry unless there is one with its source mode.
pub fn multi_mode_map_append(
    mode_map: &mut Vec<(ModeIndex, ModeIndex, ModeIndex)>,
    entry: (ModeIndex, ModeIndex, ModeIndex),
)
    ensures
        entry_links(final(mode_map)@) == with_link(entry_links(old(mode_map)@), entry_link(entry)),
        has_source(entry_links(old(mode_map)@), entry.0) ==> final(mode_map)@ == old(mode_map)@,
        !has_source(entry_links(old(mode_map)@), entry.0) ==> final(mode_map)@ == old(
            mode_map,
        )@.push(entry),
{
    let ghost links = entry_links(mode_map@);
    let mut i: usize = 0;
    while i < mode_map.len()
        invariant
            i <= mode_map@.len(),
            mode_map@ == old(mode_map)@,
            links == entry_links(mode_map@),
            forall|k: int| 0 <= k < i ==> (#[trigger] links[k]).source != entry.0,
        decreases mode_map@.len() - i,
    {
        if mode_map[i].0 == entry.0 {
            assert(links[i as int].source == entry.0);
            return ;
        }
        i += 1;
    }
    mode_map.push(entry);
    assert(entry_links(mode_map@) =~= links.push(entry_link(entry)));
}

/// Where more than two packets met: each source mode with its two exits, and the
/// photons that have arrived.
pub struct MultiModeMap {
    pub source_photons: Vec<Option<Photon>>,
    pub mode_map: Vec<(ModeIndex, ModeIndex, ModeIndex)>,
}

impl MultiModeMap {
    /// Every entry has its place for a photon.
    pub open spec fn wf(self) -> bool {
        self.source_photons@.len() == self.mode_map@.len()
    }

    /// The place of the first entry with that source mode; 0 if there is none.
    pub open spec fn place_of(self, mode: ModeIndex) -> int {
        first_source(entry_links(self.mode_map@), mode)
    }

    pub fn new() -> (map: Self)
        ensures
            map.wf(),
            map.mode_map@ == Seq::<(ModeIndex, ModeIndex, ModeIndex)>::empty(),
            map.source_photons@ == Seq::<Option<Photon>>::empty(),
    {
        Self { source_photons: Vec::new(), mode_map: Vec::new() }
    }

    pub fn add(&mut self, entry: (ModeIndex, ModeIndex, ModeIndex))
        requires
            old(self).wf(),
        ensures
            final(self).wf(),
            entry_links(final(self).mode_map@) == with_link(
                entry_links(old(self).mode_map@),
                entry_link(entry),
            ),
            has_source(entry_links(old(self).mode_map@), entry.0) ==> final(self).mode_map@ == old(
                self,
            ).mode_map@ && final(self).source_photons@ == old(self).source_photons@,
            !has_source(entry_links(old(self).mode_map@), entry.0) ==> final(self).mode_map@ == old(
                self,
            ).mode_map@.push(entry) && final(self).source_photons@ == old(
                self,
            ).source_photons@.push(None),
    {
        let before: usize = self.mode_map.len();
        multi_mode_map_append(&mut self.mode_map, entry);
        if self.mode_map.len() > before {
            self.source_photons.push(None);
        }
    }

    pub fn is_ready(&self) -> (ready: bool)
        ensures
            ready == (forall|k: int|
                0 <= k < self.source_photons@.len() ==> (#[trigger] self.source_photons@[k])
                    is Some),
    {
        let mut i: usize = 0;
        while i < self.source_photons.len()
            invariant
                i <= self.source_photons@.len(),
                forall|k: int| 0 <= k < i ==> (#[trigger] self.source_photons@[k]) is Some,
            decreases self.source_photons@.len() - i,
        {
            if self.source_photons[i].is_none() {
                return false;
            }
            i += 1;
        }
        true
    }

    pub fn register_photon(&mut self, mode: ModeIndex, photon: Photon)
        requires
            old(self).wf(),
            old(self).mode_map@.len() > 0,
        ensures
            final(self).wf(),
            final(self).mode_map@ == old(self).mode_map@,
            final(self).source_photons@ == old(self).source_photons@.update(
                old(self).place_of(mode),
                Some(photon),
            ),
    {
        let mut idx: usize = 0;
        let mut i: usize = 0;
        let ghost links = entry_links(self.mode_map@);
        while i < self.mode_map.len()
            invariant_except_break
                idx == 0,
                forall|k: int| 0 <= k < i ==> (#[trigger] links[k]).source != mode,
            invariant
                links == entry_links(self.mode_map@),
                *self == *old(self),
                i <= self.mode_map@.len(),
            ensures
                idx == first_source(links, mode),
                idx < links.len() || idx == 0,
            decreases self.mode_map@.len() - i,
        {
            if self.mode_map[i].0 == mode {
                idx = i;
                assert(links[i as int].source == mode);
                proof {
                    lemma_first_source(links, mode);
                }
                break;
            }
            i += 1;
        }
        self.source_photons.set(idx, Some(photon));
    }
}

/// The place of the first link that starts at that mode; 0 if there is none.
pub open spec fn first_source(links: Seq<Link>, mode: ModeIndex) -> int {
    if has_source(links, mode) {
        choose|k: int|
            0 <= k < links.len() && (#[trigger] links[k]).source == mode && (forall|j: int|
                0 <= j < k ==> (#[trigger] links[j]).source != mode)
    } else {
        0
    }
}

/// Where a link starts at that mode, `first_source` finds the first that does.
pub proof fn lemma_first_source(links: Seq<Link>, mode: ModeIndex)
    requires
        has_source(links, mode),
    ensures
        0 <= first_source(links, mode) < links.len(),
        links[first_source(links, mode)].source == mode,
        forall|j: int| 0 <= j < first_source(links, mode) ==> (#[trigger] links[j]).source != mode,
{
    let k = choose|k: int| 0 <= k < links.len() && (#[trigger] links[k]).source == mode;
    lemma_least_source(links, mode, k);
}

proof fn lemma_least_source(links: Seq<Link>, mode: ModeIndex, k: int)
    requires
        0 <= k < links.len(),
        links[k].source == mode,
    ensures
        exists|i: int|
            0 <= i < links.len() && (#[trigger] links[i]).source == mode && (forall|j: int|
                0 <= j < i ==> (#[trigger] links[j]).source != mode),
    decreases k,
{
    if exists|j: int| 0 <= j < k && (#[trigger] links[j]).source == mode {
        let j = choose|j: int| 0 <= j < k && (#[trigger] links[j]).source == mode;
        lemma_least_source(links, mode, j);
    }
}

/// An operator, with the photons that it holds while it waits for others.
#[allow(inconsistent_fields)]
pub enum MonteCarloOperator {
    Single { source: ModeIndex, sink: ModeIndex },
    Double { source: ModeIndex, sinks: [ModeIndex; 2] },
    DoubleInterfering {
        indistinguishability_bits: u64,
        sources: [ModeIndex; 2],
        source_photons: [Option<Photon>; 2],
        sinks: [ModeIndex; 4],
    },
    MultiModeMap(MultiModeMap),
    SPD { source: ModeIndex, id: u16, wp_snowflake: u32, time: Time },
    Dump { source: ModeIndex },
}

/// The two links of a pair of sources with two exits each.
pub open spec fn pair_links(sources: Seq<ModeIndex>, sinks: Seq<ModeIndex>) -> Seq<Link> {
    seq![
        Link { source: sources[0], sinks: seq![sinks[0], sinks[1]] },
        Link { source: sources[1], sinks: seq![sinks[2], sinks[3]] },
    ]
}

impl MonteCarloOperator {
    pub open spec fn wf(self) -> bool {
        match self {
            MonteCarloOperator::MultiModeMap(map) => map.wf(),
            _ => true,
        }
    }

    pub open spec fn node(self) -> Node {
        match self {
            MonteCarloOperator::Single { source, sink } => Node {
                kind: NodeKind::Relay,
                links: seq![Link { source, sinks: seq![sink] }],
                held: none_held(1),
            },
            MonteCarloOperator::Double { source, sinks } => Node {
                kind: NodeKind::Split,
                links: seq![Link { source, sinks: seq![sinks[0], sinks[1]] }],
                held: none_held(1),
            },
            MonteCarloOperator::DoubleInterfering {
                indistinguishability_bits,
                sources,
                source_photons,
                sinks,
            } => Node {
                kind: NodeKind::Interfere(indistinguishability_bits),
                links: pair_links(sources@, sinks@),
                held: source_photons@,
            },
            MonteCarloOperator::MultiModeMap(map) => Node {
                kind: NodeKind::Multi,
                links: entry_links(map.mode_map@),
                held: map.source_photons@,
            },
            MonteCarloOperator::SPD { source, id, wp_snowflake, time } => Node {
                kind: NodeKind::Detect { id, wp_snowflake, time },
                links: seq![Link { source, sinks: seq![] }],
                held: none_held(1),
            },
            MonteCarloOperator::Dump { source } => Node {
                kind: NodeKind::Dump,
                links: seq![Link { source, sinks: seq![] }],
                held: none_held(1),
            },
        }
    }

    pub fn link_count(&self) -> (n: usize)
        ensures
            n == self.node().links.len(),
    {
        match self {
            MonteCarloOperator::DoubleInterfering { .. } => 2,
            MonteCarloOperator::MultiModeMap(map) => map.mode_map.len(),
            _ => 1,
        }
    }

    pub fn source_at(&self, k: usize) -> (mode: ModeIndex)
        requires
            k < self.node().links.len(),
        ensures
            mode == self.node().links[k as int].source,
    {
        match self {
            MonteCarloOperator::Single { source, .. } => *source,
            MonteCarloOperator::Double { source, .. } => *source,
            MonteCarloOperator::DoubleInterfering { sources, .. } => sources[k],
            MonteCarloOperator::MultiModeMap(map) => map.mode_map[k].0,
            MonteCarloOperator::SPD { source, .. } => *source,
            MonteCarloOperator::Dump { source } => *source,
        }
    }

    /// How many exits each of its links has.
    pub fn exit_count(&self) -> (n: usize)
        ensures
            forall|k: int|
                0 <= k < self.node().links.len() ==> (#[trigger] self.node().links[k]).sinks.len()
                    == n,
            n <= 2,
    {
        match self {
            MonteCarloOperator::Single { .. } => 1,
            MonteCarloOperator::SPD { .. } | MonteCarloOperator::Dump { .. } => 0,
            _ => 2,
        }
    }

    pub fn sink_at(&self, k: usize, j: usize) -> (mode: ModeIndex)
        requires
            k < self.node().links.len(),
            j < self.node().links[k as int].sinks.len(),
        ensures
            mode == self.node().links[k as int].sinks[j as int],
    {
        match self {
            MonteCarloOperator::Single { sink, .. } => *sink,
            MonteCarloOperator::Double { sinks, .. } => sinks[j],
            MonteCarloOperator::DoubleInterfering { sinks, .. } => sinks[2 * k + j],
            MonteCarloOperator::MultiModeMap(map) => if j == 0 {
                map.mode_map[k].1
            } else {
                map.mode_map[k].2
            },
            MonteCarloOperator::SPD { source, .. } => *source,
            MonteCarloOperator::Dump { source } => *source,
        }
    }

    /// Lets one more pair of packets meet here. Only where packets meet already can
    /// more of them do so; elsewhere nothing changes and the answer is `false`.
    pub fn join(
        &mut self,
        first: (ModeIndex, ModeIndex, ModeIndex),
        second: (ModeIndex, ModeIndex, ModeIndex),
    ) -> (joined: bool)
        requires
            old(self).wf(),
            old(self).node().held == none_held(old(self).node().links.len()),
        ensures
            final(self).wf(),
            joined == meets_others(old(self).node()),
            joined ==> final(self).node() == joined_node(
                old(self).node(),
                seq![entry_link(first), entry_link(second)],
            ),
            !joined ==> *final(self) == *old(self),
    {
        let mut map = match self {
            MonteCarloOperator::DoubleInterfering { sources, sinks, .. } => {
                let mut map = MultiModeMap::new();
                assert(entry_links(map.mode_map@) =~= seq![]);
                map.add((sources[0], sinks[0], sinks[1]));
                map.add((sources[1], sinks[2], sinks[3]));
                proof {
                    lemma_with_two(
                        seq![],
                        entry_link((sources[0], sinks[0], sinks[1])),
                        entry_link((sources[1], sinks[2], sinks[3])),
                    );
                    assert(seq![
                        entry_link((sources[0], sinks[0], sinks[1])),
                        entry_link((sources[1], sinks[2], sinks[3])),
                    ] =~= pair_links(sources@, sinks@));
                }
                map
            },
            MonteCarloOperator::MultiModeMap(map) => {
                let mut taken = MultiModeMap::new();
                std::mem::swap(map, &mut taken);
                taken
            },
            _ => {
                return false;
            },
        };
        let ghost base = entry_links(map.mode_map@);
        assert(map.source_photons@ =~= none_held(base.len()));
        map.add(first);
        map.add(second);
        proof {
            lemma_with_two(base, entry_link(first), entry_link(second));
        }
        assert(map.source_photons@ =~= none_held(map.mode_map@.len()));
        *self = MonteCarloOperator::MultiModeMap(map);
        true
    }

    /// Adds the links of another meeting of packets to this one.
    pub fn absorb(&mut self, other: MonteCarloOperator) -> (absorbed: bool)
        requires
            old(self).wf(),
            other.wf(),
            old(self).node().held == none_held(old(self).node().links.len()),
            old(self).node().kind is Multi,
        ensures
            final(self).wf(),
            absorbed == meets_others(other.node()),
            absorbed ==> final(self).node() == joined_node(old(self).node(), other.node().links),
            !absorbed ==> *final(self) == *old(self),
    {
        match self {
            MonteCarloOperator::MultiModeMap(map) => {
                match other {
                    MonteCarloOperator::DoubleInterfering { sources, sinks, .. } => {
                        let ghost base = entry_links(map.mode_map@);
                        map.add((sources[0], sinks[0], sinks[1]));
                        map.add((sources[1], sinks[2], sinks[3]));
                        proof {
                            lemma_with_two(
                                base,
                                entry_link((sources[0], sinks[0], sinks[1])),
                                entry_link((sources[1], sinks[2], sinks[3])),
                            );
                            assert(seq![
                                entry_link((sources[0], sinks[0], sinks[1])),
                                entry_link((sources[1], sinks[2], sinks[3])),
                            ] =~= pair_links(sources@, sinks@));
                        }
                        assert(map.source_photons@ =~= none_held(map.mode_map@.len()));
                        true
                    },
                    MonteCarloOperator::MultiModeMap(moved) => {
                        let ghost base = entry_links(map.mode_map@);
                        let ghost more = entry_links(moved.mode_map@);
                        let n: usize = moved.mode_map.len();
                        let mut i: usize = 0;
                        while i < n
                            invariant
                                n == moved.mode_map@.len(),
                                more == entry_links(moved.mode_map@),
                                i <= n,
                                map.wf(),
                                map.source_photons@ == none_held(map.mode_map@.len()),
                                entry_links(map.mode_map@) == with_links(base, more.take(i as int)),
                            decreases n - i,
                        {
                            map.add(moved.mode_map[i]);
                            assert(more.take(i + 1).drop_last() =~= more.take(i as int));
                            assert(map.source_photons@ =~= none_held(map.mode_map@.len()));
                            i += 1;
                        }
                        assert(more.take(n as int) =~= more);
                        true
                    },
                    _ => false,
                }
            },
            _ => false,
        }
    }
}

/// Packets meet at the node.
pub open spec fn meets_others(node: Node) -> bool {
    node.kind is Interfere || node.kind is Multi
}

/// The node with more packets meeting there.
pub open spec fn joined_node(node: Node, more: Seq<Link>) -> Node {
    let base = if node.kind is Interfere {
        with_links(seq![], node.links)
    } else {
        node.links
    };
    let links = with_links(base, more);
    Node { kind: NodeKind::Multi, links, held: none_held(links.len()) }
}

proof fn lemma_with_two(links: Seq<Link>, first: Link, second: Link)
    ensures
        with_links(links, seq![first, second]) == with_link(with_link(links, first), second),
{
    let both = seq![first, second];
    assert(both.drop_last() =~= seq![first]);
    assert(both.drop_last().drop_last() =~= seq![]);
    reveal_with_fuel(with_links, 3);
}

} // verus!
