//! Time tags in the order of time.

use vstd::prelude::*;

use crate::types::{NormalizedTimeTag, Time};

verus! {

/// No tag is earlier than one before it.
pub open spec fn is_sorted(tags: Seq<NormalizedTimeTag>) -> bool {
    forall|i: int, j: int|
        0 <= i <= j < tags.len() ==> (#[trigger] tags[i]).time_tag_ps <= (
        #[trigger] tags[j]).time_tag_ps
}

/// The tags of that time, in order.
pub open spec fn tags_at(tags: Seq<NormalizedTimeTag>, time: Time) -> Seq<NormalizedTimeTag> {
    tags.filter(|tag: NormalizedTimeTag| tag.time_tag_ps == time)
}

/// The same tags in the order of time; tags of one time keep their order.
pub open spec fn is_sorting_of(
    sorted: Seq<NormalizedTimeTag>,
    tags: Seq<NormalizedTimeTag>,
) -> bool {
    &&& is_sorted(sorted)
    &&& sorted.to_multiset() == tags.to_multiset()
    &&& forall|time: Time| #[trigger] tags_at(sorted, time) == tags_at(tags, time)
}

/// Two sequences as one, always with the earlier of the two next tags; the first comes
/// before the second where times agree.
spec fn woven(a: Seq<NormalizedTimeTag>, b: Seq<NormalizedTimeTag>) -> Seq<NormalizedTimeTag>
    decreases a.len() + b.len(),
{
    if a.len() == 0 {
        b
    } else if b.len() == 0 {
        a
    } else if a.last().time_tag_ps > b.last().time_tag_ps {
        woven(a.drop_last(), b).push(a.last())
    } else {
        woven(a, b.drop_last()).push(b.last())
    }
}

proof fn lemma_filter_push(tags: Seq<NormalizedTimeTag>, tag: NormalizedTimeTag, time: Time)
    ensures
        tags_at(tags.push(tag), time) == (if tag.time_tag_ps == time {
            tags_at(tags, time).push(tag)
        } else {
            tags_at(tags, time)
        }),
{
    reveal(Seq::filter);
    assert(tags.push(tag).drop_last() =~= tags);
}

/// A sorted sequence has no tags after its last one.
proof fn lemma_none_later(tags: Seq<NormalizedTimeTag>, time: Time)
    requires
        is_sorted(tags),
        tags.len() > 0 ==> tags.last().time_tag_ps < time,
    ensures
        tags_at(tags, time) == Seq::<NormalizedTimeTag>::empty(),
    decreases tags.len(),
{
    reveal(Seq::filter);
    if tags.len() > 0 {
        let rest = tags.drop_last();
        if rest.len() > 0 {
            assert(tags[rest.len() - 1].time_tag_ps <= tags[rest.len() as int].time_tag_ps);
        }
        lemma_none_later(rest, time);
    }
}

proof fn lemma_woven(a: Seq<NormalizedTimeTag>, b: Seq<NormalizedTimeTag>)
    requires
        is_sorted(a),
        is_sorted(b),
    ensures
        is_sorted(woven(a, b)),
        woven(a, b).len() == a.len() + b.len(),
        woven(a, b).to_multiset() == a.to_multiset().add(b.to_multiset()),
        forall|time: Time| #[trigger]
            tags_at(woven(a, b), time) == tags_at(a, time) + tags_at(b, time),
        a.len() + b.len() > 0 ==> woven(a, b).last().time_tag_ps == if a.len() == 0 {
            b.last().time_tag_ps
        } else if b.len() == 0 || a.last().time_tag_ps > b.last().time_tag_ps {
            a.last().time_tag_ps
        } else {
            b.last().time_tag_ps
        },
    decreases a.len() + b.len(),
{
    broadcast use vstd::seq_lib::group_to_multiset_ensures;

    reveal(Seq::filter);
    let all = woven(a, b);
    if a.len() == 0 {
        assert(all.to_multiset() =~= a.to_multiset().add(b.to_multiset()));
        assert forall|time: Time| #[trigger]
            tags_at(all, time) == tags_at(a, time) + tags_at(b, time) by {
            assert(tags_at(a, time) + tags_at(b, time) =~= tags_at(b, time));
        }
    } else if b.len() == 0 {
        assert(all.to_multiset() =~= a.to_multiset().add(b.to_multiset()));
        assert forall|time: Time| #[trigger]
            tags_at(all, time) == tags_at(a, time) + tags_at(b, time) by {
            assert(tags_at(a, time) + tags_at(b, time) =~= tags_at(a, time));
        }
    } else if a.last().time_tag_ps > b.last().time_tag_ps {
        let rest = a.drop_last();
        lemma_woven(rest, b);
        assert(rest.push(a.last()) =~= a);
        let before = woven(rest, b);
        assert(a.to_multiset() =~= rest.to_multiset().insert(a.last()));
        assert(all.to_multiset() =~= a.to_multiset().add(b.to_multiset()));
        if rest.len() > 0 {
            assert(a[rest.len() - 1].time_tag_ps <= a[rest.len() as int].time_tag_ps);
        }
        assert forall|time: Time| #[trigger]
            tags_at(all, time) == tags_at(a, time) + tags_at(b, time) by {
            lemma_filter_push(before, a.last(), time);
            lemma_filter_push(rest, a.last(), time);
            assert(tags_at(before, time) == tags_at(rest, time) + tags_at(b, time));
            if a.last().time_tag_ps == time {
                lemma_none_later(b, time);
                assert(tags_at(rest, time) + tags_at(b, time) =~= tags_at(rest, time));
                assert(tags_at(a, time) + tags_at(b, time) =~= tags_at(a, time));
            }
        }
        assert(is_sorted(all));
    } else {
        let rest = b.drop_last();
        lemma_woven(a, rest);
        assert(rest.push(b.last()) =~= b);
        let before = woven(a, rest);
        assert(b.to_multiset() =~= rest.to_multiset().insert(b.last()));
        assert(all.to_multiset() =~= a.to_multiset().add(b.to_multiset()));
        if rest.len() > 0 {
            assert(b[rest.len() - 1].time_tag_ps <= b[rest.len() as int].time_tag_ps);
        }
        assert forall|time: Time| #[trigger]
            tags_at(all, time) == tags_at(a, time) + tags_at(b, time) by {
            lemma_filter_push(before, b.last(), time);
            lemma_filter_push(rest, b.last(), time);
            assert(tags_at(before, time) == tags_at(a, time) + tags_at(rest, time));
            if b.last().time_tag_ps == time {
                assert((tags_at(a, time) + tags_at(rest, time)).push(b.last()) =~= tags_at(a, time)
                    + tags_at(rest, time).push(b.last()));
            }
        }
        assert(is_sorted(all));
    }
}

fn weave(a: &Vec<NormalizedTimeTag>, b: &Vec<NormalizedTimeTag>) -> (tags: Vec<
    NormalizedTimeTag,
>)
    requires
        is_sorted(a@),
        is_sorted(b@),
    ensures
        tags@ == woven(a@, b@),
{
    let mut tags: Vec<NormalizedTimeTag> = Vec::new();
    let mut i: usize = 0;
    let mut j: usize = 0;
    while i < a.len() || j < b.len()
        invariant
            is_sorted(a@),
            is_sorted(b@),
            i <= a@.len(),
            j <= b@.len(),
            i > 0 && j < b@.len() ==> a@[i - 1].time_tag_ps <= b@[j as int].time_tag_ps,
            j > 0 && i < a@.len() ==> b@[j - 1].time_tag_ps < a@[i as int].time_tag_ps,
            tags@ == woven(a@.take(i as int), b@.take(j as int)),
        decreases a@.len() - i + b@.len() - j,
    {
        let ghost done_a = a@.take(i as int);
        let ghost done_b = b@.take(j as int);
        if j >= b.len() || (i < a.len() && a[i].time_tag_ps <= b[j].time_tag_ps) {
            tags.push(a[i]);
            proof {
                let next = a@.take(i + 1);
                assert(next.drop_last() =~= done_a);
                assert(next.last() == a@[i as int]);
                if j == 0 {
                    assert(woven(done_a, done_b) =~= done_a);
                    assert(woven(next, done_b) =~= next);
                } else {
                    assert(done_b.last() == b@[j - 1]);
                }
                if i + 1 < a@.len() {
                    assert(a@[i as int].time_tag_ps <= a@[i + 1].time_tag_ps);
                }
            }
            i += 1;
        } else {
            tags.push(b[j]);
            proof {
                let next = b@.take(j + 1);
                assert(next.drop_last() =~= done_b);
                assert(next.last() == b@[j as int]);
                if i == 0 {
                    assert(woven(done_a, done_b) =~= done_b);
                    assert(woven(done_a, next) =~= next);
                } else {
                    assert(done_a.last() == a@[i - 1]);
                    if j == 0 {
                        assert(woven(done_a, done_b) =~= done_a);
                    }
                }
                if j + 1 < b@.len() {
                    assert(b@[j as int].time_tag_ps <= b@[j + 1].time_tag_ps);
                }
            }
            j += 1;
        }
    }
    assert(a@.take(i as int) =~= a@);
    assert(b@.take(j as int) =~= b@);
    tags
}

fn sort_range(tags: &Vec<NormalizedTimeTag>, from: usize, to: usize) -> (sorted: Vec<
    NormalizedTimeTag,
>)
    requires
        from <= to <= tags@.len(),
    ensures
        is_sorting_of(sorted@, tags@.subrange(from as int, to as int)),
    decreases to - from,
{
    let ghost all = tags@.subrange(from as int, to as int);
    if to - from <= 1 {
        let mut sorted: Vec<NormalizedTimeTag> = Vec::new();
        if from < to {
            sorted.push(tags[from]);
        }
        assert(sorted@ =~= all);
        return sorted;
    }
    let middle: usize = from + (to - from) / 2;
    let first = sort_range(tags, from, middle);
    let second = sort_range(tags, middle, to);
    let sorted = weave(&first, &second);
    proof {
        let a = tags@.subrange(from as int, middle as int);
        let b = tags@.subrange(middle as int, to as int);
        lemma_woven(first@, second@);
        assert(a + b =~= all);
        vstd::seq_lib::lemma_multiset_commutative(a, b);
        assert forall|time: Time| #[trigger] tags_at(sorted@, time) == tags_at(all, time) by {
            Seq::filter_distributes_over_add(
                a,
                b,
                |tag: NormalizedTimeTag| tag.time_tag_ps == time,
            );
            assert(tags_at(first@, time) == tags_at(a, time));
            assert(tags_at(second@, time) == tags_at(b, time));
        }
    }
    sorted
}

/// Sorts tags by time. The sort is stable.
pub fn sort_by_time(tags: &Vec<NormalizedTimeTag>) -> (sorted: Vec<NormalizedTimeTag>)
    ensures
        is_sorting_of(sorted@, tags@),
{
    let sorted = sort_range(tags, 0, tags.len());
    assert(tags@.subrange(0, tags@.len() as int) =~= tags@);
    sorted
}

} // verus!
