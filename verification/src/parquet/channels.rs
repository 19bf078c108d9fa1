//! Time tags of several channels as one stream, in the order of time.

use vstd::prelude::*;

use crate::parquet::sort::{is_sorted, is_sorting_of, sort_by_time};
use crate::types::{NormalizedTimeTag, Time};

verus! {

pub struct TimeTagBatch {
    pub start_time: Time,
    pub end_time: Time,
    pub batch: Vec<Time>,
}

/// The tags of one channel that wait.
pub struct ChannelBuffer {
    pub channel_id: u16,
    // tags received but not yet safe to emit (may still be preceded by
    // tags from a channel whose frontier lags behind)
    pub pending: Vec<Time>,
    // every future tag on this channel is >= frontier: batches arrive in
    // leading-edge order and a tag never precedes its packet's leading edge
    pub frontier: Time,
}

/// What a channel holds.
#[verifier::ext_equal]
pub struct ChannelView {
    pub channel_id: u16,
    pub pending: Seq<Time>,
    pub frontier: Time,
}

impl View for ChannelBuffer {
    type V = ChannelView;

    open spec fn view(&self) -> ChannelView {
        ChannelView {
            channel_id: self.channel_id,
            pending: self.pending@,
            frontier: self.frontier,
        }
    }
}

impl ChannelView {
    /// The channel with a batch absorbed.
    pub open spec fn with_batch(self, tags: Seq<Time>, end_time: Time) -> ChannelView {
        ChannelView { pending: self.pending + tags, frontier: end_time, ..self }
    }

    /// The batch keeps what the frontier promises.
    pub open spec fn is_kept_by(self, tags: Seq<Time>, end_time: Time) -> bool {
        &&& self.frontier <= end_time
        &&& forall|i: int| 0 <= i < tags.len() ==> self.frontier <= #[trigger] tags[i]
    }

    /// The tags up to that time.
    pub open spec fn tags_until(self, safe: Time) -> Seq<NormalizedTimeTag> {
        let id = self.channel_id;
        self.pending.filter(|t: Time| t <= safe).map_values(
            |t: Time| NormalizedTimeTag { channel_id: id, time_tag_ps: t },
        )
    }

    /// The channel without the tags up to that time.
    pub open spec fn after(self, safe: Time) -> ChannelView {
        ChannelView { pending: self.pending.filter(|t: Time| t > safe), ..self }
    }
}

impl ChannelBuffer {
    pub fn new(channel_id: u16) -> (channel: Self)
        ensures
            channel@ == (ChannelView { channel_id, pending: seq![], frontier: 0 }),
    {
        Self { channel_id, pending: Vec::new(), frontier: 0 }
    }

    pub fn absorb(&mut self, batch: TimeTagBatch)
        ensures
            final(self)@ == old(self)@.with_batch(batch.batch@, batch.end_time),
    {
        let ghost before = self.pending@;
        let n: usize = batch.batch.len();
        let mut i: usize = 0;
        assert(before + batch.batch@.take(0) =~= before);
        while i < n
            invariant
                n == batch.batch@.len(),
                i <= n,
                self.channel_id == old(self).channel_id,
                before == old(self).pending@,
                self.pending@ == before + batch.batch@.take(i as int),
            decreases n - i,
        {
            self.pending.push(batch.batch[i]);
            assert(before + batch.batch@.take(i + 1) =~= (before + batch.batch@.take(
                i as int,
            )).push(batch.batch@[i as int]));
            i += 1;
        }
        assert(batch.batch@.take(n as int) =~= batch.batch@);
        self.frontier = batch.end_time;
    }

    /// Moves the tags up to that time to the end of the list.
    fn drain_until(&mut self, safe: Time, out: &mut Vec<NormalizedTimeTag>)
        ensures
            final(self)@ == old(self)@.after(safe),
            final(out)@ == old(out)@ + old(self)@.tags_until(safe),
    {
        let ghost all = self.pending@;
        let ghost before = out@;
        let ghost early = |t: Time| t <= safe;
        let ghost late = |t: Time| t > safe;
        let ghost id = self.channel_id;
        let ghost named = |t: Time| NormalizedTimeTag { channel_id: id, time_tag_ps: t };
        let mut keep: Vec<Time> = Vec::new();
        let n: usize = self.pending.len();
        let mut i: usize = 0;
        proof {
            reveal(Seq::filter);
            assert(all.take(0) =~= seq![]);
            assert(before + all.take(0).filter(early).map_values(named) =~= before);
        }
        while i < n
            invariant
                n == all.len(),
                i <= n,
                *self == *old(self),
                all == self.pending@,
                id == self.channel_id,
                before == old(out)@,
                early == (|t: Time| t <= safe),
                late == (|t: Time| t > safe),
                named == (|t: Time| NormalizedTimeTag { channel_id: id, time_tag_ps: t }),
                keep@ == all.take(i as int).filter(late),
                out@ == before + all.take(i as int).filter(early).map_values(named),
            decreases n - i,
        {
            let t: Time = self.pending[i];
            proof {
                reveal(Seq::filter);
                assert(all.take(i + 1).drop_last() =~= all.take(i as int));
                assert(all.take(i + 1).last() == t);
            }
            if t <= safe {
                out.push(NormalizedTimeTag { channel_id: self.channel_id, time_tag_ps: t });
                proof {
                    let so_far = all.take(i as int).filter(early);
                    assert(so_far.push(t).map_values(named) =~= so_far.map_values(named).push(
                        named(t),
                    ));
                    assert(before + so_far.push(t).map_values(named) =~= (before
                        + so_far.map_values(named)).push(named(t)));
                }
            } else {
                keep.push(t);
            }
            i += 1;
        }
        assert(all.take(n as int) =~= all);
        self.pending = keep;
    }
}

pub open spec fn channel_views(channels: Seq<ChannelBuffer>) -> Seq<ChannelView> {
    channels.map_values(|channel: ChannelBuffer| channel@)
}

/// The channel that lags behind: its frontier is the oldest, and the first of those.
pub open spec fn lags(channels: Seq<ChannelView>, i: int) -> bool {
    &&& 0 <= i < channels.len()
    &&& forall|k: int|
        0 <= k < channels.len() ==> (#[trigger] channels[k]).frontier >= channels[i].frontier && (k
            < i ==> channels[k].frontier > channels[i].frontier)
}

/// The time up to which no channel can have anything to add: the oldest frontier.
pub open spec fn safe_time(channels: Seq<ChannelView>) -> Time {
    channels[choose|i: int| lags(channels, i)].frontier
}

/// The tags of all channels up to that time, channel by channel.
pub open spec fn all_until(channels: Seq<ChannelView>, safe: Time) -> Seq<NormalizedTimeTag>
    decreases channels.len(),
{
    if channels.len() == 0 {
        seq![]
    } else {
        all_until(channels.drop_last(), safe) + channels.last().tags_until(safe)
    }
}

/// All channels without the tags up to that time.
pub open spec fn all_after(channels: Seq<ChannelView>, safe: Time) -> Seq<ChannelView> {
    channels.map_values(|channel: ChannelView| channel.after(safe))
}

pub proof fn lemma_lags(channels: Seq<ChannelView>, i: int)
    requires
        lags(channels, i),
    ensures
        safe_time(channels) == channels[i].frontier,
{
    let j = choose|j: int| lags(channels, j);
    assert(channels[i].frontier >= channels[j].frontier && channels[j].frontier
        >= channels[i].frontier);
}

/// Merges the tags of the channels.
pub struct ParquetWorker {
    pub rx_channels: Vec<ChannelBuffer>,
}

impl View for ParquetWorker {
    type V = Seq<ChannelView>;

    open spec fn view(&self) -> Seq<ChannelView> {
        channel_views(self.rx_channels@)
    }
}

impl ParquetWorker {
    pub fn new() -> (worker: Self)
        ensures
            worker@ == Seq::<ChannelView>::empty(),
    {
        let worker = Self { rx_channels: Vec::new() };
        assert(worker@ =~= seq![]);
        worker
    }

    pub fn add_channel(&mut self, channel_id: u16)
        ensures
            final(self)@ == old(self)@.push(
                ChannelView { channel_id, pending: seq![], frontier: 0 },
            ),
    {
        let ghost before = self@;
        let channel = ChannelBuffer::new(channel_id);
        let ghost new = channel@;
        self.rx_channels.push(channel);
        assert(self@ =~= before.push(new));
    }

    pub fn channel_count(&self) -> (n: usize)
        ensures
            n == self@.len(),
    {
        self.rx_channels.len()
    }

    /// Hands a batch to the channel at that place.
    pub fn absorb(&mut self, index: usize, batch: TimeTagBatch)
        requires
            index < old(self)@.len(),
        ensures
            final(self)@ == old(self)@.update(
                index as int,
                old(self)@[index as int].with_batch(batch.batch@, batch.end_time),
            ),
    {
        let ghost before = self@;
        let ghost now = before[index as int].with_batch(batch.batch@, batch.end_time);
        self.rx_channels[index].absorb(batch);
        assert(self@ =~= before.update(index as int, now));
    }

    /// The channel gating the safe emission point: the one whose frontier is oldest.
    pub fn youngest_channel(&self) -> (index: usize)
        requires
            self@.len() > 0,
        ensures
            lags(self@, index as int),
    {
        let n: usize = self.rx_channels.len();
        let mut index: usize = 0;
        let mut i: usize = 1;
        while i < n
            invariant
                n == self@.len(),
                index < i <= n,
                forall|k: int|
                    0 <= k < i ==> (#[trigger] self@[k]).frontier >= self@[index as int].frontier
                        && (k < index ==> self@[k].frontier > self@[index as int].frontier),
            decreases n - i,
        {
            assert(self@[i as int].frontier == self.rx_channels@[i as int].frontier);
            assert(self@[index as int].frontier == self.rx_channels@[index as int].frontier);
            if self.rx_channels[i].frontier < self.rx_channels[index].frontier {
                index = i;
            }
            i += 1;
        }
        index
    }

    /// Takes out, in the order of time, every tag that is final: at or before the slowest
    /// frontier, no channel can produce an older tag any more. None where there is no such
    /// tag.
    pub fn emit(&mut self) -> (tags: Option<Vec<NormalizedTimeTag>>)
        requires
            old(self)@.len() > 0,
        ensures
            tags is None <==> all_until(old(self)@, safe_time(old(self)@)).len() == 0,
            tags matches Some(t) ==> is_sorting_of(
                t@,
                all_until(old(self)@, safe_time(old(self)@)),
            ),
            final(self)@ == all_after(old(self)@, safe_time(old(self)@)),
    {
        let ghost before = self@;
        let laggard: usize = self.youngest_channel();
        let safe: Time = self.rx_channels[laggard].frontier;
        proof {
            lemma_lags(before, laggard as int);
        }
        let mut out: Vec<NormalizedTimeTag> = Vec::new();
        let n: usize = self.rx_channels.len();
        let mut i: usize = 0;
        assert(before.take(0) =~= seq![]);
        while i < n
            invariant
                n == before.len(),
                i <= n,
                self@.len() == n,
                forall|k: int|
                    0 <= k < n ==> #[trigger] self@[k] == (if k < i {
                        before[k].after(safe)
                    } else {
                        before[k]
                    }),
                out@ == all_until(before.take(i as int), safe),
            decreases n - i,
        {
            let ghost earlier = self@;
            assert(self@[i as int] == before[i as int]);
            self.rx_channels[i].drain_until(safe, &mut out);
            proof {
                assert(self@ =~= earlier.update(i as int, before[i as int].after(safe)));
                assert(before.take(i + 1).drop_last() =~= before.take(i as int));
            }
            i += 1;
        }
        assert(before.take(n as int) =~= before);
        assert(self@ =~= all_after(before, safe));
        if out.len() == 0 {
            None
        } else {
            Some(sort_by_time(&out))
        }
    }
}

/// No tag that waits, and no frontier, is before that time.
pub open spec fn all_from(channels: Seq<ChannelView>, time: Time) -> bool {
    forall|c: int|
        0 <= c < channels.len() ==> (#[trigger] channels[c]).frontier >= time && forall|i: int|
            0 <= i < channels[c].pending.len() ==> #[trigger] channels[c].pending[i] >= time
}

pub proof fn lemma_filtered(tags: Seq<Time>, keep: spec_fn(Time) -> bool, i: int)
    requires
        0 <= i < tags.filter(keep).len(),
    ensures
        keep(tags.filter(keep)[i]),
        tags.contains(tags.filter(keep)[i]),
    decreases tags.len(),
{
    reveal(Seq::filter);
    if tags.len() > 0 {
        let rest = tags.drop_last();
        if i < rest.filter(keep).len() {
            lemma_filtered(rest, keep, i);
            let j = rest.index_of(rest.filter(keep)[i]);
            assert(tags[j] == rest[j]);
        } else {
            assert(tags[tags.len() - 1] == tags.last());
        }
    }
}

proof fn lemma_until_bounds(channels: Seq<ChannelView>, safe: Time, from: Time, i: int)
    requires
        all_from(channels, from),
        0 <= i < all_until(channels, safe).len(),
    ensures
        from <= all_until(channels, safe)[i].time_tag_ps <= safe,
    decreases channels.len(),
{
    if channels.len() > 0 {
        let earlier = all_until(channels.drop_last(), safe);
        if i < earlier.len() {
            assert forall|c: int| 0 <= c < channels.drop_last().len() implies (
            #[trigger] channels.drop_last()[c]).frontier >= from && forall|k: int|
                0 <= k < channels.drop_last()[c].pending.len()
                    ==> #[trigger] channels.drop_last()[c].pending[k] >= from by {
                assert(channels.drop_last()[c] == channels[c]);
            }
            lemma_until_bounds(channels.drop_last(), safe, from, i);
        } else {
            let channel = channels.last();
            let keep = |t: Time| t <= safe;
            lemma_filtered(channel.pending, keep, i - earlier.len());
            let t = channel.pending.filter(keep)[i - earlier.len()];
            assert(channels[channels.len() - 1] == channel);
            assert(channel.pending[channel.pending.index_of(t)] >= from);
        }
    }
}

/// What is emitted is final: what stays behind is later than all of it, and so is every
/// frontier at least.
pub proof fn what_stays_is_later(channels: Seq<ChannelView>)
    requires
        channels.len() > 0,
    ensures
        all_from(all_after(channels, safe_time(channels)), safe_time(channels)),
        forall|i: int|
            0 <= i < all_until(channels, safe_time(channels)).len() ==> (#[trigger] all_until(
                channels,
                safe_time(channels),
            )[i]).time_tag_ps <= safe_time(channels),
    decreases channels.len(),
{
    let safe = safe_time(channels);
    lemma_some_lag(channels);
    let l = choose|l: int| lags(channels, l);
    let after = all_after(channels, safe);
    assert forall|c: int| 0 <= c < after.len() implies (#[trigger] after[c]).frontier >= safe
        && forall|i: int|
        0 <= i < after[c].pending.len() ==> #[trigger] after[c].pending[i] >= safe by {
        assert(channels[c].frontier >= channels[l].frontier);
        assert forall|i: int| 0 <= i < after[c].pending.len() implies #[trigger] after[c].pending[i]
            >= safe by {
            lemma_filtered(channels[c].pending, |t: Time| t > safe, i);
        }
    }
    assert forall|i: int| 0 <= i < all_until(channels, safe).len() implies (#[trigger] all_until(
        channels,
        safe,
    )[i]).time_tag_ps <= safe by {
        assert(all_from(channels, 0));
        lemma_until_bounds(channels, safe, 0, i);
    }
}

pub proof fn lemma_some_lag(channels: Seq<ChannelView>)
    requires
        channels.len() > 0,
    ensures
        exists|i: int| lags(channels, i),
    decreases channels.len(),
{
    if channels.len() == 1 {
        assert(lags(channels, 0));
    } else {
        let rest = channels.drop_last();
        lemma_some_lag(rest);
        let i = choose|i: int| lags(rest, i);
        let last = channels.len() - 1;
        if channels[last].frontier < rest[i].frontier {
            assert forall|k: int| 0 <= k < channels.len() implies (
            #[trigger] channels[k]).frontier >= channels[last].frontier && (k < last
                ==> channels[k].frontier > channels[last].frontier) by {
                if k < last {
                    assert(rest[k] == channels[k]);
                }
            }
            assert(lags(channels, last));
        } else {
            assert forall|k: int| 0 <= k < channels.len() implies (
            #[trigger] channels[k]).frontier >= channels[i].frontier && (k < i
                ==> channels[k].frontier > channels[i].frontier) by {
                if k < last {
                    assert(rest[k] == channels[k]);
                }
            }
            assert(lags(channels, i));
        }
    }
}

/// A batch that keeps the promise of its channel's frontier brings nothing from before.
pub proof fn absorbing_brings_nothing_earlier(
    channels: Seq<ChannelView>,
    c: int,
    tags: Seq<Time>,
    end_time: Time,
    time: Time,
)
    requires
        all_from(channels, time),
        0 <= c < channels.len(),
        channels[c].is_kept_by(tags, end_time),
    ensures
        all_from(channels.update(c, channels[c].with_batch(tags, end_time)), time),
{
    let channel = channels[c].with_batch(tags, end_time);
    let now = channels.update(c, channel);
    assert forall|d: int| 0 <= d < now.len() implies (#[trigger] now[d]).frontier >= time
        && forall|i: int|
        0 <= i < now[d].pending.len() ==> #[trigger] now[d].pending[i] >= time by {
        assert(channels[d].frontier >= time);
        if d == c {
            assert forall|i: int| 0 <= i < channel.pending.len() implies #[trigger] channel.pending[i]
                >= time by {
                if i < channels[c].pending.len() {
                    assert(channel.pending[i] == channels[c].pending[i]);
                } else {
                    assert(channel.pending[i] == tags[i - channels[c].pending.len()]);
                }
            }
        }
    }
}

/// Where nothing that waits is from before `time`, nothing that is emitted is, and the tags
/// come sorted.
pub proof fn a_round_stays_in_order(
    channels: Seq<ChannelView>,
    time: Time,
    tags: Seq<NormalizedTimeTag>,
    i: int,
)
    requires
        channels.len() > 0,
        all_from(channels, time),
        is_sorting_of(tags, all_until(channels, safe_time(channels))),
        0 <= i < tags.len(),
    ensures
        time <= tags[i].time_tag_ps <= safe_time(channels),
        is_sorted(tags),
{
    broadcast use vstd::seq_lib::group_to_multiset_ensures;

    let all = all_until(channels, safe_time(channels));
    assert(tags.contains(tags[i]));
    assert(tags.to_multiset().count(tags[i]) > 0);
    assert(all.to_multiset().count(tags[i]) > 0);
    assert(all.contains(tags[i]));
    lemma_until_bounds(channels, safe_time(channels), time, all.index_of(tags[i]));
}

/// How often a channel holds that tag.
pub open spec fn times_pending(channels: Seq<ChannelView>, tag: NormalizedTimeTag) -> nat
    decreases channels.len(),
{
    if channels.len() == 0 {
        0
    } else {
        times_pending(channels.drop_last(), tag) + if channels.last().channel_id
            == tag.channel_id {
            channels.last().pending.to_multiset().count(tag.time_tag_ps)
        } else {
            0
        }
    }
}

/// No tag is lost and none is made up: each is emitted as often as it no longer waits.
pub proof fn every_tag_is_emitted_or_waits(
    channels: Seq<ChannelView>,
    safe: Time,
    tag: NormalizedTimeTag,
)
    ensures
        times_pending(channels, tag) == all_until(channels, safe).to_multiset().count(tag)
            + times_pending(all_after(channels, safe), tag),
    decreases channels.len(),
{
    broadcast use vstd::seq_lib::group_to_multiset_ensures;

    if channels.len() > 0 {
        let rest = channels.drop_last();
        let channel = channels.last();
        every_tag_is_emitted_or_waits(rest, safe, tag);
        assert(all_after(channels, safe).drop_last() =~= all_after(rest, safe));
        assert(all_after(channels, safe).last() == channel.after(safe));
        vstd::seq_lib::lemma_multiset_commutative(
            all_until(rest, safe),
            channel.tags_until(safe),
        );
        lemma_channel_splits(channel, channel.pending, safe, tag);
    }
}

proof fn lemma_channel_splits(
    channel: ChannelView,
    pending: Seq<Time>,
    safe: Time,
    tag: NormalizedTimeTag,
)
    ensures
        ({
            let id = channel.channel_id;
            let emitted = pending.filter(|t: Time| t <= safe).map_values(
                |t: Time| NormalizedTimeTag { channel_id: id, time_tag_ps: t },
            );
            let kept = pending.filter(|t: Time| t > safe);
            &&& id == tag.channel_id ==> pending.to_multiset().count(tag.time_tag_ps)
                == emitted.to_multiset().count(tag) + kept.to_multiset().count(tag.time_tag_ps)
            &&& id != tag.channel_id ==> emitted.to_multiset().count(tag) == 0
        }),
    decreases pending.len(),
{
    broadcast use vstd::seq_lib::group_to_multiset_ensures;

    reveal(Seq::filter);
    let id = channel.channel_id;
    let early = |t: Time| t <= safe;
    let late = |t: Time| t > safe;
    let named = |t: Time| NormalizedTimeTag { channel_id: id, time_tag_ps: t };
    if pending.len() == 0 {
        assert(pending.filter(early).map_values(named) =~= seq![]);
    } else {
        let rest = pending.drop_last();
        let t = pending.last();
        lemma_channel_splits(channel, rest, safe, tag);
        assert(pending =~= rest.push(t));
        if t <= safe {
            assert(pending.filter(early) == rest.filter(early).push(t));
            assert(rest.filter(early).push(t).map_values(named) =~= rest.filter(early).map_values(
                named,
            ).push(named(t)));
        } else {
            assert(pending.filter(late) == rest.filter(late).push(t));
        }
    }
}

/// Every tag that is taken out carries the name of the channel that it came on and its own
/// time, and what is not taken out stays: of each channel, just the tags go that are not past
/// the time, in their order.
pub proof fn tags_carry_the_name_of_their_channel(channel: ChannelView, safe: Time)
    ensures
        ({
            let out = channel.tags_until(safe);
            let gone = channel.pending.filter(|t: Time| t <= safe);
            &&& out.len() == gone.len()
            &&& forall|i: int|
                0 <= i < out.len() ==> (#[trigger] out[i]).channel_id == channel.channel_id
                    && out[i].time_tag_ps == gone[i] && out[i].time_tag_ps <= safe
        }),
        channel.after(safe).pending == channel.pending.filter(|t: Time| t > safe),
        channel.after(safe).channel_id == channel.channel_id,
        channel.after(safe).frontier == channel.frontier,
{
    let early = |t: Time| t <= safe;
    let out = channel.tags_until(safe);
    assert forall|i: int| 0 <= i < out.len() implies (#[trigger] out[i]).time_tag_ps <= safe by {
        channel.pending.lemma_filter_pred(early, i);
    }
}

/// A tag among those of all channels is that of one of them, and the tags of each are all
/// there.
pub proof fn all_tags_come_from_their_channels(channels: Seq<ChannelView>, safe: Time)
    ensures
        forall|tag: NormalizedTimeTag| #[trigger]
            all_until(channels, safe).contains(tag) <==> is_tag_of(channels, safe, tag),
    decreases channels.len(),
{
    if channels.len() > 0 {
        let rest = channels.drop_last();
        let last = channels.last();
        all_tags_come_from_their_channels(rest, safe);
        let before = all_until(rest, safe);
        let more = last.tags_until(safe);
        let early = |t: Time| t <= safe;
        assert forall|tag: NormalizedTimeTag| #[trigger]
            all_until(channels, safe).contains(tag) <==> is_tag_of(channels, safe, tag) by {
            let all = all_until(channels, safe);
            if all.contains(tag) {
                let i = all.index_of(tag);
                if i < before.len() {
                    assert(before[i] == tag);
                    assert(before.contains(tag));
                    let c = choose|c: int|
                        0 <= c < rest.len() && waits_in(#[trigger] rest[c], safe, tag);
                    assert(waits_in(channels[c], safe, tag));
                } else {
                    let k = i - before.len();
                    assert(more[k] == tag);
                    last.pending.lemma_filter_pred(early, k);
                    last.pending.lemma_filter_contains_rev(early, tag.time_tag_ps);
                    assert(waits_in(channels[channels.len() - 1], safe, tag));
                }
            }
            if is_tag_of(channels, safe, tag) {
                let c = choose|c: int|
                    0 <= c < channels.len() && waits_in(#[trigger] channels[c], safe, tag);
                if c < rest.len() {
                    assert(waits_in(rest[c], safe, tag));
                    assert(before.contains(tag));
                    let i = before.index_of(tag);
                    assert(all[i] == tag);
                } else {
                    let p = last.pending.index_of(tag.time_tag_ps);
                    last.pending.lemma_filter_contains(early, p);
                    let k = last.pending.filter(early).index_of(tag.time_tag_ps);
                    assert(more[k] == tag);
                    assert(all[before.len() + k] == tag);
                }
            }
        }
    } else {
        assert forall|tag: NormalizedTimeTag| !(#[trigger] all_until(channels, safe).contains(
            tag,
        )) && !is_tag_of(channels, safe, tag) by {}
    }
}

/// The tag waits in the channel that it names, and is not past the time.
pub open spec fn waits_in(channel: ChannelView, safe: Time, tag: NormalizedTimeTag) -> bool {
    &&& channel.channel_id == tag.channel_id
    &&& channel.pending.contains(tag.time_tag_ps)
    &&& tag.time_tag_ps <= safe
}

/// The tag waits in one of the channels.
pub open spec fn is_tag_of(
    channels: Seq<ChannelView>,
    safe: Time,
    tag: NormalizedTimeTag,
) -> bool {
    exists|c: int| 0 <= c < channels.len() && waits_in(#[trigger] channels[c], safe, tag)
}

/// A channel that takes in a batch keeps its name and what waits, and has the tags of the batch
/// after that, in their order; its frontier is the end of the batch.
pub proof fn a_batch_waits_behind_what_is_there(
    channel: ChannelView,
    tags: Seq<Time>,
    end_time: Time,
)
    ensures
        ({
            let after = channel.with_batch(tags, end_time);
            let n = channel.pending.len();
            &&& after.channel_id == channel.channel_id
            &&& after.frontier == end_time
            &&& after.pending.len() == n + tags.len()
            &&& forall|i: int| 0 <= i < n ==> #[trigger] after.pending[i] == channel.pending[i]
            &&& forall|i: int| 0 <= i < tags.len() ==> after.pending[n + i] == #[trigger] tags[i]
        }),
{
}

/// Tags are final up to the oldest frontier: no channel's is older, and one has it.
pub proof fn tags_are_final_up_to_the_oldest_frontier(channels: Seq<ChannelView>)
    requires
        channels.len() > 0,
    ensures
        forall|c: int|
            0 <= c < channels.len() ==> safe_time(channels) <= (#[trigger] channels[c]).frontier,
        exists|c: int|
            0 <= c < channels.len() && safe_time(channels) == (#[trigger] channels[c]).frontier,
{
    let i = lemma_one_lags(channels, channels.len() as int);
    assert(lags(channels, i));
    lemma_lags(channels, i);
    assert(channels[i].frontier == safe_time(channels));
}

proof fn lemma_one_lags(channels: Seq<ChannelView>, n: int) -> (i: int)
    requires
        0 < n <= channels.len(),
    ensures
        0 <= i < n,
        forall|k: int|
            0 <= k < n ==> (#[trigger] channels[k]).frontier >= channels[i].frontier && (k < i
                ==> channels[k].frontier > channels[i].frontier),
    decreases n,
{
    if n == 1 {
        0
    } else {
        let i = lemma_one_lags(channels, n - 1);
        if channels[n - 1].frontier < channels[i].frontier {
            n - 1
        } else {
            i
        }
    }
}

} // verus!
