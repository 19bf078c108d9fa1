//! What becomes of the packets, modes and operators of an island.

use vstd::prelude::*;

use crate::concurrency::operator::{
    can_merge, first_with_id, lemma_first_with_id, merged_island, IslandView, Operator,
};
use crate::types::{ModeIndex, WpSnowflake};

verus! {

/// The packet is in flight in that mode.
pub open spec fn flies_in(island: IslandView, id: WpSnowflake, mode: ModeIndex) -> bool {
    island.active_packets.contains((id, mode))
}

/// The two islands have the same packet in the same mode, or neither has it.
pub open spec fn same_flight(one: IslandView, other: IslandView, id: WpSnowflake) -> bool {
    &&& one.has_packet(id) == other.has_packet(id)
    &&& one.has_packet(id) ==> one.mode_of(id) == other.mode_of(id)
}

/// An entry with the id that has none before it is the one that is found.
pub proof fn lemma_is_first(packets: Seq<(WpSnowflake, ModeIndex)>, id: WpSnowflake, i: int)
    requires
        0 <= i < packets.len(),
        packets[i].0 == id,
        forall|j: int| 0 <= j < i ==> (#[trigger] packets[j]).0 != id,
    ensures
        first_with_id(packets, id) == i,
{
    lemma_first_with_id(packets, id);
    let f = first_with_id(packets, id);
    if f > i {
        assert(packets[i].0 != id);
    } else if f < i {
        assert(packets[f].0 != id);
    }
}

/// No entry has the id.
pub proof fn lemma_has_none(packets: Seq<(WpSnowflake, ModeIndex)>, id: WpSnowflake)
    requires
        forall|j: int| 0 <= j < packets.len() ==> (#[trigger] packets[j]).0 != id,
    ensures
        first_with_id(packets, id) == packets.len(),
{
    lemma_first_with_id(packets, id);
    let f = first_with_id(packets, id);
    if f < packets.len() {
        assert(packets[f].0 == id);
    }
}

/// A packet is in flight where one of the entries has its id, and in the mode of the first
/// that has.
pub proof fn a_packet_is_found_where_it_flies(island: IslandView, id: WpSnowflake)
    ensures
        island.has_packet(id) <==> exists|mode: ModeIndex| #[trigger] flies_in(island, id, mode),
        island.has_packet(id) ==> flies_in(island, id, island.mode_of(id)),
        (forall|i: int, k: int|
            0 <= i < k < island.active_packets.len() ==> (#[trigger] island.active_packets[i]).0
                != (#[trigger] island.active_packets[k]).0) ==> forall|mode: ModeIndex| #[trigger]
            flies_in(island, id, mode) ==> island.mode_of(id) == mode,
{
    let packets = island.active_packets;
    let f = first_with_id(packets, id);
    lemma_first_with_id(packets, id);
    if island.has_packet(id) {
        assert(packets[f] == (id, island.mode_of(id)));
        assert(flies_in(island, id, island.mode_of(id)));
    }
    assert forall|mode: ModeIndex| #[trigger] flies_in(island, id, mode) implies island.has_packet(
        id,
    ) && packets[packets.index_of((id, mode))] == (id, mode) by {
        let i = packets.index_of((id, mode));
        assert(packets[i].0 == id);
    }
    if forall|i: int, k: int|
        0 <= i < k < packets.len() ==> (#[trigger] packets[i]).0 != (#[trigger] packets[k]).0 {
        assert forall|mode: ModeIndex| #[trigger] flies_in(island, id, mode) implies island.mode_of(
            id,
        ) == mode by {
            let i = packets.index_of((id, mode));
            assert(packets[i].0 == packets[f].0);
            if i < f {
                assert(packets[i].0 != packets[f].0);
            } else if f < i {
                assert(packets[f].0 != packets[i].0);
            }
        }
    }
}

/// A packet that is registered gets the first mode that none had; all others stay as they are.
pub proof fn a_registered_packet_has_a_new_mode(island: IslandView, id: WpSnowflake)
    requires
        island.mode_max < u16::MAX,
        !island.has_packet(id),
    ensures
        ({
            let after = island.with_packet(id);
            &&& after.has_packet(id)
            &&& after.mode_of(id) == island.mode_max
            &&& after.mode_max == island.mode_max + 1
            &&& after.operators == island.operators
            &&& forall|other: WpSnowflake|
                other != id ==> #[trigger] same_flight(island, after, other)
        }),
{
    let packets = island.active_packets;
    let after = island.with_packet(id);
    lemma_first_with_id(packets, id);
    assert forall|j: int| 0 <= j < packets.len() implies (#[trigger] after.active_packets[j]).0
        != id by {
        assert(packets[j].0 != id);
    }
    lemma_is_first(after.active_packets, id, packets.len() as int);
    assert forall|other: WpSnowflake| other != id implies #[trigger] same_flight(
        island,
        after,
        other,
    ) by {
        lemma_first_with_id(packets, other);
        lemma_pushed_keeps(packets, (id, island.mode_max), other);
    }
}

proof fn lemma_pushed_keeps(
    packets: Seq<(WpSnowflake, ModeIndex)>,
    entry: (WpSnowflake, ModeIndex),
    other: WpSnowflake,
)
    requires
        other != entry.0 || first_with_id(packets, other) < packets.len(),
    ensures
        first_with_id(packets, other) < packets.len() ==> first_with_id(packets.push(entry), other)
            == first_with_id(packets, other),
        first_with_id(packets, other) == packets.len() ==> first_with_id(
            packets.push(entry),
            other,
        ) == packets.len() + 1,
{
    let f = first_with_id(packets, other);
    let after = packets.push(entry);
    lemma_first_with_id(packets, other);
    if f < packets.len() {
        assert forall|j: int| 0 <= j < f implies (#[trigger] after[j]).0 != other by {
            assert(packets[j].0 != other);
        }
        lemma_is_first(after, other, f);
    } else {
        assert forall|j: int| 0 <= j < after.len() implies (#[trigger] after[j]).0 != other by {
            if j < packets.len() {
                assert(packets[j].0 != other);
            }
        }
        lemma_has_none(after, other);
    }
}

/// A packet that is extracted is gone, if it was there once; all others stay as they are.
pub proof fn an_extracted_packet_is_gone(island: IslandView, id: WpSnowflake)
    requires
        island.has_packet(id),
    ensures
        ({
            let after = island.without_packet(id);
            &&& after.active_packets.len() == island.active_packets.len() - 1
            &&& after.mode_max == island.mode_max
            &&& after.operators == island.operators
            &&& forall|other: WpSnowflake|
                other != id ==> #[trigger] same_flight(island, after, other)
            &&& (forall|i: int, k: int|
                0 <= i < k < island.active_packets.len() ==> (
                #[trigger] island.active_packets[i]).0 != (#[trigger] island.active_packets[k]).0)
                ==> !after.has_packet(id)
        }),
{
    let packets = island.active_packets;
    let f = first_with_id(packets, id);
    let after = packets.remove(f);
    lemma_first_with_id(packets, id);
    assert forall|other: WpSnowflake| other != id implies #[trigger] same_flight(
        island,
        island.without_packet(id),
        other,
    ) by {
        lemma_first_with_id(packets, other);
        let g = first_with_id(packets, other);
        if g < packets.len() {
            assert(g != f);
            let h = if g < f {
                g
            } else {
                g - 1
            };
            assert forall|j: int| 0 <= j < h implies (#[trigger] after[j]).0 != other by {
                if j < f {
                    assert(packets[j].0 != other);
                } else {
                    assert(packets[j + 1].0 != other);
                }
            }
            lemma_is_first(after, other, h);
        } else {
            assert forall|j: int| 0 <= j < after.len() implies (#[trigger] after[j]).0
                != other by {
                if j < f {
                    assert(packets[j].0 != other);
                } else {
                    assert(packets[j + 1].0 != other);
                }
            }
            lemma_has_none(after, other);
        }
    }
    if forall|i: int, k: int|
        0 <= i < k < packets.len() ==> (#[trigger] packets[i]).0 != (#[trigger] packets[k]).0 {
        assert forall|j: int| 0 <= j < after.len() implies (#[trigger] after[j]).0 != id by {
            if j < f {
                assert(packets[j].0 != packets[f].0);
            } else {
                assert(packets[f].0 != packets[j + 1].0);
            }
        }
        lemma_has_none(after, id);
    }
}

/// An operator that is moved keeps all it has but its modes, and each of those moves up by as
/// much as the others, in its place.
pub proof fn a_moved_operator_keeps_its_shape(operator: Operator, offset: ModeIndex)
    requires
        operator.modes_below(0x1_0000 - offset),
    ensures
        ({
            let moved = operator.shifted(offset);
            &&& moved.sources().len() == operator.sources().len()
            &&& moved.sinks().len() == operator.sinks().len()
            &&& forall|i: int|
                0 <= i < operator.sources().len() ==> #[trigger] moved.sources()[i]
                    == operator.sources()[i] + offset
            &&& forall|i: int|
                0 <= i < operator.sinks().len() ==> #[trigger] moved.sinks()[i]
                    == operator.sinks()[i] + offset
            &&& is_same_element(operator, moved)
        }),
{
    let moved = operator.shifted(offset);
    assert forall|i: int| 0 <= i < operator.sources().len() implies #[trigger] moved.sources()[i]
        == operator.sources()[i] + offset by {
        assert(operator.sources()[i] < 0x1_0000 - offset);
    }
    assert forall|i: int| 0 <= i < operator.sinks().len() implies #[trigger] moved.sinks()[i]
        == operator.sinks()[i] + offset by {
        assert(operator.sinks()[i] < 0x1_0000 - offset);
    }
}

/// The two operators are the same element at the same time: they differ in their modes at
/// most.
pub open spec fn is_same_element(one: Operator, other: Operator) -> bool {
    match (one, other) {
        (
            Operator::EPPS { store_handle: h, time: t, .. },
            Operator::EPPS { store_handle, time, .. },
        ) => h == store_handle && t == time,
        (
            Operator::Single { store_handle: h, time: t, .. },
            Operator::Single { store_handle, time, .. },
        ) => h == store_handle && t == time,
        (
            Operator::DualBivariate {
                store_handle: h,
                time: t,
                packet_indistinguishability_bits: b,
                ..
            },
            Operator::DualBivariate {
                store_handle,
                time,
                packet_indistinguishability_bits,
                ..
            },
        ) => h == store_handle && t == time && b == packet_indistinguishability_bits,
        (
            Operator::DualUnivariate { store_handle: h, time: t, incidence_port_id: p, .. },
            Operator::DualUnivariate { store_handle, time, incidence_port_id, .. },
        ) => h == store_handle && t == time && p == incidence_port_id,
        (
            Operator::SPD { id: i, wp_snowflake: s, time: t, .. },
            Operator::SPD { id, wp_snowflake, time, .. },
        ) => i == id && s == wp_snowflake && t == time,
        (Operator::Dump { .. }, Operator::Dump { .. }) => true,
        _ => false,
    }
}

/// Merging keeps the recipient as it is and brings in the donor whole: its operators in their
/// order, its packets, and with both every mode moved up by as many as the recipient had. So
/// what a packet of the donor came from it comes from still, and no two modes fall together.
pub proof fn merging_keeps_both_islands(recipient: IslandView, donor: IslandView)
    requires
        can_merge(recipient, donor),
    ensures
        ({
            let merged = merged_island(recipient, donor);
            let n = recipient.operators.len();
            &&& merged.mode_max == recipient.mode_max + donor.mode_max
            &&& merged.operators.len() == n + donor.operators.len()
            &&& forall|i: int| 0 <= i < n ==> #[trigger] merged.operators[i]
                == recipient.operators[i]
            &&& forall|i: int|
                0 <= i < donor.operators.len() ==> is_moved(
                    #[trigger] donor.operators[i],
                    merged.operators[n + i],
                    recipient.mode_max as int,
                )
            &&& merged.active_packets.len() == recipient.active_packets.len()
                + donor.active_packets.len()
            &&& forall|id: WpSnowflake|
                recipient.has_packet(id) ==> #[trigger] same_flight(recipient, merged, id)
            &&& forall|id: WpSnowflake|
                !recipient.has_packet(id) && #[trigger] donor.has_packet(id) ==> merged.has_packet(
                    id,
                ) && merged.mode_of(id) == donor.mode_of(id) + recipient.mode_max
            &&& forall|id: WpSnowflake|
                !recipient.has_packet(id) && !donor.has_packet(id) ==> !(
                #[trigger] merged.has_packet(id))
        }),
{
    let merged = merged_island(recipient, donor);
    let n = recipient.operators.len();
    let offset = recipient.mode_max;
    let first = recipient.active_packets;
    let second = donor.active_packets;
    let all = merged.active_packets;
    assert forall|i: int| 0 <= i < donor.operators.len() implies is_moved(
        #[trigger] donor.operators[i],
        merged.operators[n + i],
        offset as int,
    ) by {
        assert(merged.operators[n + i] == donor.operators[i].shifted(offset));
        a_moved_operator_keeps_its_shape(donor.operators[i], offset);
    }
    assert forall|id: WpSnowflake| recipient.has_packet(id) implies #[trigger] same_flight(
        recipient,
        merged,
        id,
    ) by {
        let f = first_with_id(first, id);
        lemma_first_with_id(first, id);
        assert forall|j: int| 0 <= j < f implies (#[trigger] all[j]).0 != id by {
            assert(first[j].0 != id);
        }
        lemma_is_first(all, id, f);
    }
    assert forall|id: WpSnowflake| !recipient.has_packet(id) && #[trigger] donor.has_packet(
        id,
    ) implies merged.has_packet(id) && merged.mode_of(id) == donor.mode_of(id)
        + recipient.mode_max by {
        lemma_first_with_id(first, id);
        lemma_first_with_id(second, id);
        let g = first_with_id(second, id);
        let at = first.len() + g;
        assert forall|j: int| 0 <= j < at implies (#[trigger] all[j]).0 != id by {
            if j < first.len() {
                assert(first[j].0 != id);
            } else {
                assert(second[j - first.len()].0 != id);
            }
        }
        lemma_is_first(all, id, at);
        assert(second[g].1 + recipient.mode_max <= u16::MAX);
    }
    assert forall|id: WpSnowflake| !recipient.has_packet(id) && !donor.has_packet(id) implies !(
    #[trigger] merged.has_packet(id)) by {
        lemma_first_with_id(first, id);
        lemma_first_with_id(second, id);
        assert forall|j: int| 0 <= j < all.len() implies (#[trigger] all[j]).0 != id by {
            if j < first.len() {
                assert(first[j].0 != id);
            } else {
                assert(second[j - first.len()].0 != id);
            }
        }
        lemma_has_none(all, id);
    }
}

/// The same element, with every mode moved up by `offset`.
pub open spec fn is_moved(before: Operator, after: Operator, offset: int) -> bool {
    &&& is_same_element(before, after)
    &&& after.sources().len() == before.sources().len()
    &&& after.sinks().len() == before.sinks().len()
    &&& forall|i: int|
        0 <= i < before.sources().len() ==> #[trigger] after.sources()[i] == before.sources()[i]
            + offset
    &&& forall|i: int|
        0 <= i < before.sinks().len() ==> #[trigger] after.sinks()[i] == before.sinks()[i] + offset
}

/// Registering a packet takes none out of flight.
pub proof fn lemma_registering_keeps(island: IslandView, id: WpSnowflake, other: WpSnowflake)
    requires
        island.has_packet(other),
    ensures
        island.with_packet(id).has_packet(other),
        island.with_packet(id).mode_of(other) == island.mode_of(other),
{
    lemma_first_with_id(island.active_packets, other);
    lemma_pushed_keeps(island.active_packets, (id, island.mode_max), other);
}

/// Islands can be merged where their modes fit in one: where those of each are below its limit
/// and the limits together are a number that modes can have.
pub proof fn islands_that_fit_can_be_merged(recipient: IslandView, donor: IslandView)
    requires
        recipient.mode_max + donor.mode_max <= u16::MAX,
        forall|i: int|
            0 <= i < donor.operators.len() ==> (#[trigger] donor.operators[i]).modes_below(
                donor.mode_max as int,
            ),
        forall|i: int|
            0 <= i < donor.active_packets.len() ==> (#[trigger] donor.active_packets[i]).1
                < donor.mode_max,
    ensures
        can_merge(recipient, donor),
{
    assert forall|i: int| 0 <= i < donor.operators.len() implies (
    #[trigger] donor.operators[i]).modes_below(0x1_0000 - recipient.mode_max) by {
        assert(donor.operators[i].modes_below(donor.mode_max as int));
    }
}

} // verus!
