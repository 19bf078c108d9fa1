//! The stream of time tags over all rounds, from the first batch on.

use vstd::prelude::*;

use crate::parquet::channels::{
    a_round_stays_in_order, absorbing_brings_nothing_earlier, all_after, all_from, all_until,
    every_tag_is_emitted_or_waits, lags, lemma_filtered, lemma_lags, lemma_some_lag, safe_time,
    times_pending, what_stays_is_later, ChannelView,
};
use crate::parquet::sort::{is_sorted, is_sorting_of};
use crate::types::{NormalizedTimeTag, Time};

verus! {

/// What the merging does, step by step.
pub ghost enum StreamStep {
    /// A batch arrives on the channel at that place.
    Absorb { channel: int, tags: Seq<Time>, end_time: Time },
    /// What is final is sent.
    Emit(Seq<NormalizedTimeTag>),
}

/// The channels after a step.
pub open spec fn after_step(channels: Seq<ChannelView>, step: StreamStep) -> Seq<ChannelView> {
    match step {
        StreamStep::Absorb { channel, tags, end_time } => channels.update(
            channel,
            channels[channel].with_batch(tags, end_time),
        ),
        StreamStep::Emit(_) => all_after(channels, safe_time(channels)),
    }
}

/// The channels after all the steps.
pub open spec fn after_steps(start: Seq<ChannelView>, steps: Seq<StreamStep>) -> Seq<ChannelView>
    decreases steps.len(),
{
    if steps.len() == 0 {
        start
    } else {
        after_step(after_steps(start, steps.drop_last()), steps.last())
    }
}

/// The step can be taken: the batch is for a channel that there is, and what is sent is what
/// is final, in the order of time.
pub open spec fn is_step(channels: Seq<ChannelView>, step: StreamStep) -> bool {
    match step {
        StreamStep::Absorb { channel, .. } => 0 <= channel < channels.len(),
        StreamStep::Emit(tags) => is_sorting_of(tags, all_until(channels, safe_time(channels))),
    }
}

/// Every step can be taken in its turn.
pub open spec fn is_stream(start: Seq<ChannelView>, steps: Seq<StreamStep>) -> bool
    decreases steps.len(),
{
    steps.len() > 0 ==> is_stream(start, steps.drop_last()) && is_step(
        after_steps(start, steps.drop_last()),
        steps.last(),
    )
}

/// Every batch keeps what the frontier of its channel promises.
pub open spec fn keeps_its_word(start: Seq<ChannelView>, steps: Seq<StreamStep>) -> bool
    decreases steps.len(),
{
    steps.len() > 0 ==> {
        let channels = after_steps(start, steps.drop_last());
        &&& keeps_its_word(start, steps.drop_last())
        &&& match steps.last() {
            StreamStep::Absorb { channel, tags, end_time } => channels[channel].is_kept_by(
                tags,
                end_time,
            ),
            StreamStep::Emit(_) => true,
        }
    }
}

/// Channels that nothing has arrived on.
pub open spec fn is_fresh(channels: Seq<ChannelView>) -> bool {
    &&& channels.len() > 0
    &&& forall|c: int|
        0 <= c < channels.len() ==> (#[trigger] channels[c]).pending.len() == 0
            && channels[c].frontier == 0
}

/// All that is sent, in the order of sending.
pub open spec fn sent(steps: Seq<StreamStep>) -> Seq<NormalizedTimeTag>
    decreases steps.len(),
{
    if steps.len() == 0 {
        seq![]
    } else {
        match steps.last() {
            StreamStep::Emit(tags) => sent(steps.drop_last()) + tags,
            _ => sent(steps.drop_last()),
        }
    }
}

/// How often the tag has arrived.
pub open spec fn times_received(
    start: Seq<ChannelView>,
    steps: Seq<StreamStep>,
    tag: NormalizedTimeTag,
) -> nat
    decreases steps.len(),
{
    if steps.len() == 0 {
        0
    } else {
        times_received(start, steps.drop_last(), tag) + match steps.last() {
            StreamStep::Absorb { channel, tags, .. } => if start[channel].channel_id
                == tag.channel_id {
                tags.to_multiset().count(tag.time_tag_ps)
            } else {
                0
            },
            StreamStep::Emit(_) => 0,
        }
    }
}

/// Channels stay the channels that they are.
proof fn lemma_same_channels(start: Seq<ChannelView>, steps: Seq<StreamStep>)
    requires
        is_stream(start, steps),
    ensures
        after_steps(start, steps).len() == start.len(),
        forall|c: int|
            0 <= c < start.len() ==> (#[trigger] after_steps(start, steps)[c]).channel_id
                == start[c].channel_id,
    decreases steps.len(),
{
    if steps.len() > 0 {
        lemma_same_channels(start, steps.drop_last());
        let before = after_steps(start, steps.drop_last());
        assert forall|c: int| 0 <= c < start.len() implies (
        #[trigger] after_steps(start, steps)[c]).channel_id == start[c].channel_id by {
            assert(before[c].channel_id == start[c].channel_id);
        }
    }
}

/// Up to some time all is sent, and from there on nothing is.
spec fn is_settled(start: Seq<ChannelView>, steps: Seq<StreamStep>, time: Time) -> bool {
    &&& all_from(after_steps(start, steps), time)
    &&& is_sorted(sent(steps))
    &&& forall|i: int| 0 <= i < sent(steps).len() ==> (#[trigger] sent(steps)[i]).time_tag_ps
        <= time
}

proof fn lemma_settled(start: Seq<ChannelView>, steps: Seq<StreamStep>) -> (time: Time)
    requires
        is_fresh(start),
        is_stream(start, steps),
        keeps_its_word(start, steps),
    ensures
        is_settled(start, steps, time),
        steps.len() > 0 && steps.last() is Emit ==> time == safe_time(
            after_steps(start, steps.drop_last()),
        ),
    decreases steps.len(),
{
    if steps.len() == 0 {
        0
    } else {
        let rest = steps.drop_last();
        let before = after_steps(start, rest);
        let after = after_steps(start, steps);
        let time = lemma_settled(start, rest);
        lemma_same_channels(start, rest);
        match steps.last() {
            StreamStep::Absorb { channel, tags, end_time } => {
                absorbing_brings_nothing_earlier(before, channel, tags, end_time, time);
                time
            },
            StreamStep::Emit(tags) => {
                let safe = safe_time(before);
                lemma_some_lag(before);
                let l = choose|l: int| lags(before, l);
                lemma_lags(before, l);
                assert(before[l].frontier >= time);
                what_stays_is_later(before);
                let earlier = sent(rest);
                let all = sent(steps);
                assert forall|i: int| 0 <= i < tags.len() implies time <= (
                #[trigger] tags[i]).time_tag_ps <= safe by {
                    a_round_stays_in_order(before, time, tags, i);
                }
                assert forall|i: int| 0 <= i < all.len() implies (#[trigger] all[i]).time_tag_ps
                    <= safe by {
                    if i < earlier.len() {
                        assert(all[i] == earlier[i]);
                    } else {
                        assert(all[i] == tags[i - earlier.len()]);
                    }
                }
                assert forall|i: int, j: int| 0 <= i <= j < all.len() implies (
                #[trigger] all[i]).time_tag_ps <= (#[trigger] all[j]).time_tag_ps by {
                    if j < earlier.len() {
                        assert(all[i] == earlier[i] && all[j] == earlier[j]);
                    } else if i < earlier.len() {
                        assert(all[i] == earlier[i] && all[j] == tags[j - earlier.len()]);
                    } else {
                        assert(all[i] == tags[i - earlier.len()] && all[j] == tags[j
                            - earlier.len()]);
                    }
                }
                safe
            },
        }
    }
}

/// All that is ever sent is in the order of time, across rounds and channels: as long as
/// the batches of each channel come in order, and none brings a tag from before the end of
/// the one before it.
pub proof fn the_stream_stays_in_order(start: Seq<ChannelView>, steps: Seq<StreamStep>)
    requires
        is_fresh(start),
        is_stream(start, steps),
        keeps_its_word(start, steps),
    ensures
        is_sorted(sent(steps)),
{
    let time = lemma_settled(start, steps);
}

/// The tag is pending as often as before, and as often as the batch brings it.
proof fn lemma_absorbed(
    channels: Seq<ChannelView>,
    c: int,
    tags: Seq<Time>,
    end_time: Time,
    tag: NormalizedTimeTag,
)
    requires
        0 <= c < channels.len(),
    ensures
        times_pending(channels.update(c, channels[c].with_batch(tags, end_time)), tag)
            == times_pending(channels, tag) + if channels[c].channel_id == tag.channel_id {
            tags.to_multiset().count(tag.time_tag_ps)
        } else {
            0
        },
    decreases channels.len(),
{
    let now = channels.update(c, channels[c].with_batch(tags, end_time));
    let rest = channels.drop_last();
    if c == channels.len() - 1 {
        assert(now.drop_last() =~= rest);
        vstd::seq_lib::lemma_multiset_commutative(channels[c].pending, tags);
    } else {
        assert(rest[c] == channels[c]);
        assert(now.drop_last() =~= rest.update(c, rest[c].with_batch(tags, end_time)));
        lemma_absorbed(rest, c, tags, end_time, tag);
    }
}

proof fn lemma_fresh_holds_none(channels: Seq<ChannelView>, tag: NormalizedTimeTag)
    requires
        forall|c: int|
            0 <= c < channels.len() ==> (#[trigger] channels[c]).pending.len() == 0,
    ensures
        times_pending(channels, tag) == 0,
    decreases channels.len(),
{
    broadcast use vstd::seq_lib::group_to_multiset_ensures;

    if channels.len() > 0 {
        let rest = channels.drop_last();
        assert forall|c: int| 0 <= c < rest.len() implies (#[trigger] rest[c]).pending.len()
            == 0 by {
            assert(rest[c] == channels[c]);
        }
        lemma_fresh_holds_none(rest, tag);
        assert(channels[channels.len() - 1].pending.len() == 0);
        assert(channels.last().pending =~= Seq::<Time>::empty());
    }
}

/// Over all rounds, and whatever batches come, no tag is lost, repeated or given to another
/// channel: it has arrived as often as it was sent and still waits.
pub proof fn every_tag_is_sent_or_waits(
    start: Seq<ChannelView>,
    steps: Seq<StreamStep>,
    tag: NormalizedTimeTag,
)
    requires
        is_fresh(start),
        is_stream(start, steps),
    ensures
        times_received(start, steps, tag) == sent(steps).to_multiset().count(tag)
            + times_pending(after_steps(start, steps), tag),
    decreases steps.len(),
{
    broadcast use vstd::seq_lib::group_to_multiset_ensures;

    if steps.len() == 0 {
        lemma_fresh_holds_none(start, tag);
    } else {
        let rest = steps.drop_last();
        let before = after_steps(start, rest);
        every_tag_is_sent_or_waits(start, rest, tag);
        lemma_same_channels(start, rest);
        match steps.last() {
            StreamStep::Absorb { channel, tags, end_time } => {
                lemma_absorbed(before, channel, tags, end_time, tag);
                assert(before[channel].channel_id == start[channel].channel_id);
            },
            StreamStep::Emit(tags) => {
                every_tag_is_emitted_or_waits(before, safe_time(before), tag);
                vstd::seq_lib::lemma_multiset_commutative(sent(rest), tags);
            },
        }
    }
}

/// After every round, all tags up to the oldest frontier have been sent, and none that is
/// later: what waits is later, and what was sent is not.
pub proof fn all_that_is_final_is_sent(start: Seq<ChannelView>, steps: Seq<StreamStep>)
    requires
        is_fresh(start),
        is_stream(start, steps),
        keeps_its_word(start, steps),
        steps.len() > 0,
        steps.last() is Emit,
    ensures
        ({
            let channels = after_steps(start, steps);
            &&& forall|c: int, i: int|
                0 <= c < channels.len() && 0 <= i < channels[c].pending.len()
                    ==> #[trigger] channels[c].pending[i] > safe_time(channels)
            &&& forall|i: int|
                0 <= i < sent(steps).len() ==> (#[trigger] sent(steps)[i]).time_tag_ps
                    <= safe_time(channels)
        }),
{
    let rest = steps.drop_last();
    let before = after_steps(start, rest);
    let after = after_steps(start, steps);
    let safe = safe_time(before);
    let time = lemma_settled(start, steps);
    lemma_same_channels(start, rest);
    lemma_some_lag(before);
    let l = choose|l: int| lags(before, l);
    lemma_lags(before, l);
    assert(lags(after, l)) by {
        assert forall|k: int| 0 <= k < after.len() implies (#[trigger] after[k]).frontier
            >= after[l].frontier && (k < l ==> after[k].frontier > after[l].frontier) by {
            assert(before[k].frontier >= before[l].frontier);
        }
    }
    lemma_lags(after, l);
    assert forall|c: int, i: int|
        0 <= c < after.len() && 0 <= i < after[c].pending.len() implies #[trigger] after[c].pending[i]
        > safe by {
        lemma_filtered(before[c].pending, |t: Time| t > safe, i);
    }
}

} // verus!
