//! What the pairs of a source are like, and the states that they start in.

use vstd::prelude::*;

use crate::concurrency::cell::CellView;
use crate::concurrency::island_laws::lemma_is_first;
use crate::concurrency::operator::{IslandView, Operator};
use crate::concurrency::slice::SliceView;
use crate::concurrency::snowflake::lemma_ids_differ;
use crate::nodes::epps::{elapsed, emitted, entangled, goes_on, pair_time};
use crate::nodes::packet::{WavePacket, WaveProfile};
use crate::types::{handle_at, handle_distance, BatchConstraint, OpStoreHandle, Time};

verus! {

/// The packet looks as the profile says.
pub open spec fn has_profile(wp: WavePacket, profile: WaveProfile) -> bool {
    &&& wp.time_sigma == profile.time_sigma
    &&& wp.wavelength_bits == profile.wavelength_bits
    &&& wp.wavelength_sigma_bits == profile.wavelength_sigma_bits
}

/// Every signal packet has the profile of the signal and every idler packet that of the
/// idler. The two of a pair have one time: the first pair comes one step after the start, and
/// each other one step after the pair before.
pub proof fn pairs_have_the_profiles_of_their_source(
    signal: WaveProfile,
    idler: WaveProfile,
    start: Time,
    steps: Seq<u64>,
    id: u8,
    count: int,
    k: int,
)
    requires
        start + elapsed(steps) <= u64::MAX,
        0 <= k < steps.len(),
    ensures
        ({
            let pairs = emitted(signal, idler, start, steps, id, count);
            &&& pairs.len() == steps.len()
            &&& has_profile(pairs[k].0, signal)
            &&& has_profile(pairs[k].1, idler)
            &&& pairs[k].1.time == pairs[k].0.time
            &&& pairs[k].0.time == (if k == 0 {
                start as int
            } else {
                pairs[k - 1].0.time as int
            }) + steps[k]
            &&& k == steps.len() - 1 ==> pairs[k].0.time == start + elapsed(steps)
        }),
{
    lemma_pair_time(start, steps, k);
    if k > 0 {
        lemma_pair_time(start, steps, k - 1);
    }
    assert(steps.take(0) =~= seq![]);
    assert(steps.take(steps.len() as int) =~= steps);
}

proof fn lemma_pair_time(start: Time, steps: Seq<u64>, k: int)
    requires
        start + elapsed(steps) <= u64::MAX,
        0 <= k < steps.len(),
    ensures
        elapsed(steps.take(k + 1)) == elapsed(steps.take(k)) + steps[k],
        0 <= pair_time(start, steps, k) <= u64::MAX,
{
    assert(steps.take(k + 1).drop_last() =~= steps.take(k));
    lemma_prefix(steps, k + 1);
}

proof fn lemma_prefix(steps: Seq<u64>, n: int)
    requires
        0 <= n <= steps.len(),
    ensures
        0 <= elapsed(steps.take(n)) <= elapsed(steps),
    decreases steps.len(),
{
    if n < steps.len() {
        assert(steps.drop_last().take(n) =~= steps.take(n));
        lemma_prefix(steps.drop_last(), n);
    } else {
        assert(steps.take(n) =~= steps);
        if steps.len() > 0 {
            lemma_prefix(steps.drop_last(), n - 1);
        }
    }
}

/// No two packets of a batch have the same id, as long as the batch does not take the
/// generator all the way round.
pub proof fn packets_of_a_batch_have_their_own_ids(
    signal: WaveProfile,
    idler: WaveProfile,
    start: Time,
    steps: Seq<u64>,
    id: u8,
    count: int,
    i: int,
    k: int,
)
    requires
        0 <= i < steps.len(),
        0 <= k < steps.len(),
        2 * steps.len() <= 0x100_0000,
    ensures
        ({
            let pairs = emitted(signal, idler, start, steps, id, count);
            &&& pairs[i].0.snowflake != pairs[k].1.snowflake
            &&& i != k ==> pairs[i].0.snowflake != pairs[k].0.snowflake
            &&& i != k ==> pairs[i].1.snowflake != pairs[k].1.snowflake
        }),
{
    lemma_ids_differ(id, count + 2 * i + 1, count + 2 * k + 2);
    if i != k {
        lemma_ids_differ(id, count + 2 * i + 1, count + 2 * k + 1);
        lemma_ids_differ(id, count + 2 * i + 2, count + 2 * k + 2);
    }
}

/// The state of a pair that was just made: the source alone has acted, at the time of the
/// pair, and leads to the modes of the signal and of the idler, in this order. Nothing else is
/// in flight, and there is no other mode.
pub open spec fn starts_as_pair(
    island: IslandView,
    pair: (WavePacket, WavePacket),
    seq: OpStoreHandle,
) -> bool {
    &&& island.operators.len() == 1
    &&& island.operators[0] matches Operator::EPPS { store_handle, time, sink_modes, .. } && {
        &&& store_handle == seq
        &&& time == pair.0.time
        &&& sink_modes[0] == island.mode_of(pair.0.snowflake)
        &&& sink_modes[1] == island.mode_of(pair.1.snowflake)
        &&& sink_modes[0] != sink_modes[1]
        &&& sink_modes[0] < island.mode_max
        &&& sink_modes[1] < island.mode_max
    }
    &&& island.active_packets.len() == 2
    &&& island.has_packet(pair.0.snowflake)
    &&& island.has_packet(pair.1.snowflake)
    &&& island.mode_max == 2
}

/// Every pair starts in a state of its own, behind the handle that its packets carry; no other
/// state is touched.
pub proof fn every_pair_starts_in_a_state_of_its_own(
    before: SliceView,
    after: SliceView,
    pairs: Seq<(WavePacket, WavePacket)>,
    start: u32,
    seq: OpStoreHandle,
    k: int,
)
    requires
        entangled(before, after, pairs, start, seq),
        0 <= k < pairs.len() <= u32::MAX,
        after.holds(handle_at(start, k)),
        pairs[k].0.snowflake != pairs[k].1.snowflake,
    ensures
        after.cell(handle_at(start, k)) matches CellView::Island(island) && starts_as_pair(
            island,
            pairs[k],
            seq,
        ),
        forall|i: int|
            0 <= i < pairs.len() && i != k ==> #[trigger] handle_at(start, i) != handle_at(
                start,
                k,
            ),
        forall|handle: u32| #[trigger]
            after.holds(handle) && (forall|i: int|
                0 <= i < pairs.len() ==> #[trigger] handle_at(start, i) != handle) ==> after.cell(
                handle,
            ) == before.cell(handle),
{
    let handle = handle_at(start, k);
    assert(handle_distance(start, handle) == k);
    let island = after.cell(handle)->Island_0;
    lemma_is_first(island.active_packets, pairs[k].0.snowflake, 0);
    lemma_is_first(island.active_packets, pairs[k].1.snowflake, 1);
    assert forall|other: u32| #[trigger]
        after.holds(other) && (forall|i: int|
            0 <= i < pairs.len() ==> #[trigger] handle_at(start, i) != other) implies after.cell(
        other,
    ) == before.cell(other) by {
        let d = handle_distance(start, other);
        assert(handle_at(start, d) == other);
    }
}

/// A source goes on as long as its clock is not past the timeout and its batch has room: it
/// stops only where one of the two is so.
pub proof fn a_source_goes_on_until_it_is_late_or_full(
    time: int,
    n: int,
    constraint: BatchConstraint,
)
    ensures
        time <= constraint.timeout && n < constraint.max_size ==> goes_on(time, n, constraint),
        !goes_on(time, n, constraint) ==> time > constraint.timeout || n >= constraint.max_size,
        time > constraint.timeout ==> !goes_on(time, n, constraint),
        n >= constraint.max_size ==> !goes_on(time, n, constraint),
{
}

} // verus!
