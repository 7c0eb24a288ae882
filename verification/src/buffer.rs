//! The readings kept for one sensor: ordered by timestamp, oldest first, with
//! equal timestamps in order of arrival.
use crate::readings::Reading;
use std::collections::VecDeque;
use vstd::prelude::*;

verus! {

/// Timestamps never decrease along `buffer`.
pub open spec fn in_order(buffer: Seq<Reading>) -> bool {
    forall|i: int, j: int|
        0 <= i <= j < buffer.len() ==> (#[trigger] buffer[i]).ts.at() <= (
        #[trigger] buffer[j]).ts.at()
}

/// `buffer` with `reading` behind everything that is not newer.
pub open spec fn placed(buffer: Seq<Reading>, reading: Reading) -> Seq<Reading>
    decreases buffer.len(),
{
    if buffer.len() == 0 || buffer.last().ts.at() <= reading.ts.at() {
        buffer.push(reading)
    } else {
        placed(buffer.drop_last(), reading).push(buffer.last())
    }
}

/// The last `n` readings of `buffer`, or all of them.
pub open spec fn newest_of(buffer: Seq<Reading>, n: nat) -> Seq<Reading> {
    if buffer.len() > n {
        buffer.skip(buffer.len() - n)
    } else {
        buffer
    }
}

/// `buffer` after `reading` arrived, when at most `n` readings are kept.
pub open spec fn merged(buffer: Seq<Reading>, reading: Reading, n: nat) -> Seq<Reading> {
    newest_of(placed(buffer, reading), n)
}

/// `buffer` after all of `arrivals`, when at most `n` readings are kept.
pub open spec fn merged_all(buffer: Seq<Reading>, arrivals: Seq<Reading>, n: nat) -> Seq<Reading>
    decreases arrivals.len(),
{
    if arrivals.len() == 0 {
        buffer
    } else {
        merged(merged_all(buffer, arrivals.drop_last(), n), arrivals.last(), n)
    }
}

/// `arrivals` sorted by timestamp, equal timestamps in order of arrival.
pub open spec fn sorted_by_time(arrivals: Seq<Reading>) -> Seq<Reading>
    decreases arrivals.len(),
{
    if arrivals.len() == 0 {
        Seq::empty()
    } else {
        placed(sorted_by_time(arrivals.drop_last()), arrivals.last())
    }
}

/// `p` splits an ordered buffer into what is not newer than `at` and what is.
pub open spec fn splits(buffer: Seq<Reading>, p: int, at: int) -> bool {
    &&& 0 <= p <= buffer.len()
    &&& forall|i: int| 0 <= i < p ==> (#[trigger] buffer[i]).ts.at() <= at
    &&& forall|i: int| p <= i < buffer.len() ==> at < (#[trigger] buffer[i]).ts.at()
}

pub proof fn lemma_placed_at_split(buffer: Seq<Reading>, reading: Reading, p: int)
    requires
        splits(buffer, p, reading.ts.at()),
    ensures
        placed(buffer, reading) == buffer.insert(p, reading),
    decreases buffer.len(),
{
    if p < buffer.len() {
        assert(buffer.last().ts.at() > reading.ts.at());
        lemma_placed_at_split(buffer.drop_last(), reading, p);
        assert(buffer.insert(p, reading) == buffer.drop_last().insert(p, reading).push(
            buffer.last(),
        ));
    } else {
        assert(buffer.len() > 0 ==> buffer[buffer.len() - 1].ts.at() <= reading.ts.at());
        assert(buffer.insert(p, reading) == buffer.push(reading));
    }
}

/// Where `reading` goes in an ordered buffer.
pub open spec fn split_point(buffer: Seq<Reading>, at: int) -> int
    decreases buffer.len(),
{
    if buffer.len() == 0 || buffer.last().ts.at() <= at {
        buffer.len() as int
    } else {
        split_point(buffer.drop_last(), at)
    }
}

pub proof fn lemma_split_point(buffer: Seq<Reading>, at: int)
    requires
        in_order(buffer),
    ensures
        splits(buffer, split_point(buffer, at), at),
    decreases buffer.len(),
{
    if buffer.len() > 0 {
        if buffer.last().ts.at() <= at {
            assert forall|i: int| 0 <= i < buffer.len() implies (#[trigger] buffer[i]).ts.at()
                <= at by {
                assert(buffer[i].ts.at() <= buffer[buffer.len() - 1].ts.at());
            }
        } else {
            let head = buffer.drop_last();
            lemma_split_point(head, at);
            let p = split_point(head, at);
            assert forall|i: int| 0 <= i < p implies (#[trigger] buffer[i]).ts.at() <= at by {
                assert(head[i].ts.at() <= at);
            }
            assert forall|i: int| p <= i < buffer.len() implies at < (
            #[trigger] buffer[i]).ts.at() by {
                if i < head.len() {
                    assert(at < head[i].ts.at());
                }
            }
        }
    }
}

/// Placing a reading keeps the order and adds that reading and nothing else.
pub proof fn law_placing_keeps_order(buffer: Seq<Reading>, reading: Reading)
    requires
        in_order(buffer),
    ensures
        in_order(placed(buffer, reading)),
        placed(buffer, reading).len() == buffer.len() + 1,
        placed(buffer, reading).to_multiset() == buffer.to_multiset().insert(reading),
{
    let p = split_point(buffer, reading.ts.at());
    lemma_split_point(buffer, reading.ts.at());
    lemma_placed_at_split(buffer, reading, p);
    vstd::seq_lib::to_multiset_insert(buffer, p, reading);
}

/// A buffer stays ordered and within its limit.
pub proof fn law_merging_keeps_order_and_limit(buffer: Seq<Reading>, reading: Reading, n: nat)
    requires
        in_order(buffer),
        n > 0,
    ensures
        in_order(merged(buffer, reading, n)),
        0 < merged(buffer, reading, n).len() <= n,
        buffer.len() <= n ==> merged(buffer, reading, n).len() == if buffer.len() < n {
            buffer.len() + 1
        } else {
            n
        },
{
    law_placing_keeps_order(buffer, reading);
}

/// Sorting keeps every arrival, in order of time.
pub proof fn law_sorting_is_a_sorted_permutation(arrivals: Seq<Reading>)
    ensures
        in_order(sorted_by_time(arrivals)),
        sorted_by_time(arrivals).to_multiset() == arrivals.to_multiset(),
        sorted_by_time(arrivals).len() == arrivals.len(),
    decreases arrivals.len(),
{
    if arrivals.len() > 0 {
        let earlier = arrivals.drop_last();
        law_sorting_is_a_sorted_permutation(earlier);
        law_placing_keeps_order(sorted_by_time(earlier), arrivals.last());
        assert(arrivals == earlier.push(arrivals.last()));
        vstd::seq_lib::to_multiset_build(earlier, arrivals.last());
    } else {
        assert(arrivals == Seq::<Reading>::empty());
    }
}

/// The readings of `buffer` at one instant, in the order they stand.
pub open spec fn at_instant(buffer: Seq<Reading>, at: int) -> Seq<Reading> {
    buffer.filter(|r: Reading| r.ts.at() == at)
}

proof fn lemma_placed_at_instant(buffer: Seq<Reading>, reading: Reading, at: int)
    requires
        in_order(buffer),
    ensures
        at_instant(placed(buffer, reading), at) == if reading.ts.at() == at {
            at_instant(buffer, at).push(reading)
        } else {
            at_instant(buffer, at)
        },
    decreases buffer.len(),
{
    reveal(Seq::filter);
    let pred = |r: Reading| r.ts.at() == at;
    if buffer.len() == 0 || buffer.last().ts.at() <= reading.ts.at() {
        assert(buffer.push(reading).drop_last() == buffer);
    } else {
        let head = buffer.drop_last();
        assert(in_order(head)) by {
            assert forall|i: int, j: int| 0 <= i <= j < head.len() implies (
            #[trigger] head[i]).ts.at() <= (#[trigger] head[j]).ts.at() by {
                assert(buffer[i].ts.at() <= buffer[j].ts.at());
            }
        }
        lemma_placed_at_instant(head, reading, at);
        let rest = placed(head, reading);
        assert(placed(buffer, reading) == rest.push(buffer.last()));
        assert(rest.push(buffer.last()).drop_last() == rest);
    }
}

/// Readings at the same instant stay in order of arrival.
pub proof fn law_equal_timestamps_keep_arrival_order(arrivals: Seq<Reading>, at: int)
    ensures
        at_instant(sorted_by_time(arrivals), at) == at_instant(arrivals, at),
    decreases arrivals.len(),
{
    reveal(Seq::filter);
    if arrivals.len() > 0 {
        let earlier = arrivals.drop_last();
        law_equal_timestamps_keep_arrival_order(earlier, at);
        law_sorting_is_a_sorted_permutation(earlier);
        lemma_placed_at_instant(sorted_by_time(earlier), arrivals.last(), at);
    }
}

proof fn lemma_truncation_commutes(buffer: Seq<Reading>, reading: Reading, n: nat)
    requires
        in_order(buffer),
        n > 0,
    ensures
        merged(newest_of(buffer, n), reading, n) == merged(buffer, reading, n),
{
    if buffer.len() > n {
        let cut = buffer.len() - n;
        let tail = newest_of(buffer, n);
        let at = reading.ts.at();
        let p = split_point(buffer, at);
        lemma_split_point(buffer, at);
        lemma_placed_at_split(buffer, reading, p);
        let q = if p < cut {
            0
        } else {
            p - cut
        };
        assert(splits(tail, q, at)) by {
            assert forall|i: int| 0 <= i < q implies (#[trigger] tail[i]).ts.at() <= at by {
                assert(buffer[i + cut].ts.at() <= at);
            }
            assert forall|i: int| q <= i < tail.len() implies at < (#[trigger] tail[i]).ts.at() by {
                assert(at < buffer[i + cut].ts.at());
            }
        }
        lemma_placed_at_split(tail, reading, q);
        assert(merged(tail, reading, n) == merged(buffer, reading, n));
    }
}

/// However readings arrive, a buffer that keeps `n` of them ends up with the
/// `n` newest in order of time, later arrivals preferred at equal timestamps.
pub proof fn law_buffer_holds_the_newest(arrivals: Seq<Reading>, n: nat)
    requires
        n > 0,
    ensures
        merged_all(Seq::empty(), arrivals, n) == newest_of(sorted_by_time(arrivals), n),
    decreases arrivals.len(),
{
    if arrivals.len() > 0 {
        let earlier = arrivals.drop_last();
        law_buffer_holds_the_newest(earlier, n);
        law_sorting_is_a_sorted_permutation(earlier);
        lemma_truncation_commutes(sorted_by_time(earlier), arrivals.last(), n);
    }
}

/// An arrival pushes nothing out that is newer than itself.
pub proof fn law_newer_readings_survive_a_merge(
    buffer: Seq<Reading>,
    reading: Reading,
    n: nat,
    kept: Reading,
)
    requires
        in_order(buffer),
        n > 0,
        buffer.len() <= n,
        buffer.contains(kept),
        kept.ts.at() > reading.ts.at(),
    ensures
        merged(buffer, reading, n).contains(kept),
{
    let at = reading.ts.at();
    let p = split_point(buffer, at);
    lemma_split_point(buffer, at);
    lemma_placed_at_split(buffer, reading, p);
    let i = choose|i: int| 0 <= i < buffer.len() && buffer[i] == kept;
    let all = placed(buffer, reading);
    assert(p <= i);
    assert(all[i + 1] == kept);
    if all.len() > n {
        assert(all.skip(1)[i] == kept);
    }
}

/// A reading older than everything in a full buffer leaves it as it was.
pub proof fn law_history_leaves_a_full_buffer_alone(
    buffer: Seq<Reading>,
    reading: Reading,
    n: nat,
)
    requires
        in_order(buffer),
        n > 0,
        buffer.len() == n,
        reading.ts.at() < buffer[0].ts.at(),
    ensures
        merged(buffer, reading, n) == buffer,
{
    assert forall|i: int| 0 <= i < buffer.len() implies reading.ts.at() < (
    #[trigger] buffer[i]).ts.at() by {
        assert(buffer[0].ts.at() <= buffer[i].ts.at());
    }
    assert(splits(buffer, 0, reading.ts.at()));
    lemma_placed_at_split(buffer, reading, 0);
    assert(buffer.insert(0, reading).skip(1) == buffer);
}

/// The newest reading of a buffer never gets older.
pub proof fn law_newest_never_goes_back(buffer: Seq<Reading>, reading: Reading, n: nat)
    requires
        in_order(buffer),
        n > 0,
    ensures
        merged(buffer, reading, n).last().ts.at() == if buffer.len() > 0
            && buffer.last().ts.at() > reading.ts.at() {
            buffer.last().ts.at()
        } else {
            reading.ts.at()
        },
{
    law_placing_keeps_order(buffer, reading);
    let all = placed(buffer, reading);
    assert(merged(buffer, reading, n).last() == all.last());
}

/// Where a reading taken at `at` goes.
pub fn partition(buffer: &VecDeque<Reading>, at: i128) -> (p: usize)
    requires
        in_order(buffer@),
    ensures
        splits(buffer@, p as int, at as int),
        p <= buffer@.len(),
        forall|i: int| 0 <= i < p ==> (#[trigger] buffer@[i]).ts.at() <= at,
        forall|i: int| p <= i < buffer@.len() ==> at < (#[trigger] buffer@[i]).ts.at(),
{
    let mut low: usize = 0;
    let mut high: usize = buffer.len();
    while low < high
        invariant
            in_order(buffer@),
            low <= high <= buffer@.len(),
            forall|i: int| 0 <= i < low ==> (#[trigger] buffer@[i]).ts.at() <= at,
            forall|i: int| high <= i < buffer@.len() ==> at < (#[trigger] buffer@[i]).ts.at(),
        decreases high - low,
    {
        let mid: usize = low + (high - low) / 2;
        if buffer[mid].ts.instant() <= at {
            proof {
                assert forall|i: int| 0 <= i < mid + 1 implies (#[trigger] buffer@[i]).ts.at()
                    <= at by {
                    assert(buffer@[i].ts.at() <= buffer@[mid as int].ts.at());
                }
            }
            low = mid + 1;
        } else {
            proof {
                assert forall|i: int| mid <= i < buffer@.len() implies at < (
                #[trigger] buffer@[i]).ts.at() by {
                    assert(buffer@[mid as int].ts.at() <= buffer@[i].ts.at());
                }
            }
            high = mid;
        }
    }
    low
}

/// The newest `limit` readings of `buffer`, newest first.
pub open spec fn newest_first(buffer: Seq<Reading>, limit: nat) -> Seq<Reading> {
    newest_of(buffer, limit).reverse()
}

/// What is read back stands newest first, is no more than was asked for, and
/// leaves out nothing newer than what it holds.
pub proof fn law_reads_are_newest_first(buffer: Seq<Reading>, limit: nat)
    requires
        in_order(buffer),
    ensures
        ({
            let out = newest_first(buffer, limit);
            &&& out.len() == if buffer.len() < limit {
                buffer.len()
            } else {
                limit
            }
            &&& forall|i: int, j: int|
                0 <= i <= j < out.len() ==> (#[trigger] out[i]).ts.at() >= (
                #[trigger] out[j]).ts.at()
            &&& forall|i: int, k: int|
                0 <= i < out.len() && 0 <= k < buffer.len() - out.len() ==> (
                #[trigger] out[i]).ts.at() >= (#[trigger] buffer[k]).ts.at()
        }),
{
    let out = newest_first(buffer, limit);
    assert forall|i: int| 0 <= i < out.len() implies #[trigger] out[i] == buffer[buffer.len() - 1
        - i] by {}
}

/// The newest `limit` readings, newest first.
pub fn take_newest(buffer: &VecDeque<Reading>, limit: usize) -> (out: Vec<Reading>)
    ensures
        out@ == newest_first(buffer@, limit as nat),
        out@.len() == if limit < buffer@.len() {
            limit as nat
        } else {
            buffer@.len()
        },
        forall|i: int| 0 <= i < out@.len() ==> #[trigger] out@[i] == buffer@[buffer@.len() - 1 - i],
{
    let mut out: Vec<Reading> = Vec::new();
    let total: usize = buffer.len();
    let wanted: usize = if limit < total {
        limit
    } else {
        total
    };
    let mut i: usize = 0;
    while i < wanted
        invariant
            total == buffer@.len(),
            wanted <= total,
            wanted == if limit < total {
                limit
            } else {
                total
            },
            i <= wanted,
            out@.len() == i,
            forall|k: int| 0 <= k < i ==> #[trigger] out@[k] == buffer@[total - 1 - k],
        decreases wanted - i,
    {
        out.push(buffer[total - 1 - i].clone());
        i = i + 1;
    }
    proof {
        assert(out@ =~= newest_first(buffer@, limit as nat));
    }
    out
}

/// Each reading read back is the one at its place, counted from the newest:
/// none is repeated, skipped or changed.
pub proof fn law_reads_stand_at_their_place(buffer: Seq<Reading>, limit: nat, i: int)
    ensures
        newest_first(buffer, limit).len() == if limit < buffer.len() {
            limit
        } else {
            buffer.len()
        },
        0 <= i < limit && i < buffer.len() ==> newest_first(buffer, limit)[i]
            == buffer[buffer.len() - 1 - i],
{
}

/// Asking for fewer readings gives the first of those that asking for more
/// does.
pub proof fn law_a_smaller_limit_reads_a_prefix(buffer: Seq<Reading>, less: nat, more: nat)
    requires
        less <= more,
    ensures
        newest_first(buffer, less) == newest_first(buffer, more).take(
            newest_first(buffer, less).len() as int,
        ),
        newest_first(buffer, less).len() <= newest_first(buffer, more).len(),
{
}

/// A reading goes behind all that is not newer and before all that is, and
/// nothing else moves or changes.
pub proof fn law_a_reading_goes_behind_what_is_not_newer(
    buffer: Seq<Reading>,
    reading: Reading,
    p: int,
)
    requires
        0 <= p <= buffer.len(),
        forall|i: int| 0 <= i < p ==> (#[trigger] buffer[i]).ts.at() <= reading.ts.at(),
        forall|i: int|
            p <= i < buffer.len() ==> reading.ts.at() < (#[trigger] buffer[i]).ts.at(),
    ensures
        placed(buffer, reading).len() == buffer.len() + 1,
        placed(buffer, reading)[p] == reading,
        forall|i: int| 0 <= i < p ==> #[trigger] placed(buffer, reading)[i] == buffer[i],
        forall|i: int|
            p < i <= buffer.len() ==> #[trigger] placed(buffer, reading)[i] == buffer[i - 1],
{
    lemma_placed_at_split(buffer, reading, p);
}

/// What is kept of a buffer is its end: as many readings as the limit lets
/// stay, unchanged and in order.
pub proof fn law_the_end_of_a_buffer_is_kept(buffer: Seq<Reading>, n: nat, i: int)
    ensures
        newest_of(buffer, n).len() == if n < buffer.len() {
            n
        } else {
            buffer.len()
        },
        0 <= i < newest_of(buffer, n).len() ==> newest_of(buffer, n)[i] == buffer[buffer.len()
            - newest_of(buffer, n).len() + i],
{
}

/// Merging puts a reading behind all that is not newer, and drops the oldest
/// one if there is no room for one more.
pub proof fn law_merging_drops_the_oldest_if_it_must(
    buffer: Seq<Reading>,
    reading: Reading,
    n: nat,
    p: int,
)
    requires
        n > 0,
        buffer.len() <= n,
        0 <= p <= buffer.len(),
        forall|i: int| 0 <= i < p ==> (#[trigger] buffer[i]).ts.at() <= reading.ts.at(),
        forall|i: int|
            p <= i < buffer.len() ==> reading.ts.at() < (#[trigger] buffer[i]).ts.at(),
    ensures
        merged(buffer, reading, n) == if buffer.len() < n {
            buffer.insert(p, reading)
        } else {
            buffer.insert(p, reading).drop_first()
        },
{
    lemma_placed_at_split(buffer, reading, p);
}

/// Arrivals merge one after the other.
pub proof fn law_arrivals_merge_one_by_one(
    buffer: Seq<Reading>,
    arrivals: Seq<Reading>,
    next: Reading,
    n: nat,
)
    ensures
        merged_all(buffer, Seq::empty(), n) == buffer,
        merged_all(buffer, arrivals.push(next), n) == merged(
            merged_all(buffer, arrivals, n),
            next,
            n,
        ),
{
    assert(arrivals.push(next).drop_last() == arrivals);
}

} // verus!
