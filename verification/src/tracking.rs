//! How long requests have been waiting.
//!
//! Times are nanoseconds since a moment before the first update.

use std::collections::HashMap;
use vstd::prelude::*;

verus! {

broadcast use vstd::std_specs::hash::group_hash_axioms;

/// The requests that are waiting, each with its target and the time at which it was first seen.
pub struct PromData {
    /// The time of the last update.
    pub updated: u64,
    pub osd_requests: HashMap<u64, (u32, u64)>,
    pub mds_requests: HashMap<u64, (Option<u32>, u64)>,
}

impl PromData {
    /// No request was first seen after the last update.
    pub open spec fn well_formed(self) -> bool {
        &&& seen_by(self.osd_requests@, self.updated)
        &&& seen_by(self.mds_requests@, self.updated)
    }

    /// Nothing is waiting yet.
    pub fn new(now: u64) -> (data: PromData)
        ensures
            data.updated == now,
            data.osd_requests@ == Map::<u64, (u32, u64)>::empty(),
            data.mds_requests@ == Map::<u64, (Option<u32>, u64)>::empty(),
            data.well_formed(),
    {
        PromData { updated: now, osd_requests: HashMap::new(), mds_requests: HashMap::new() }
    }
}

/// All these requests were first seen by `now`.
pub open spec fn seen_by<T>(waiting: Map<u64, (T, u64)>, now: u64) -> bool {
    forall|tid: u64| #[trigger] waiting.contains_key(tid) ==> waiting[tid].1 <= now
}

/// The time from `since` to `now`, and none where `since` is later.
pub open spec fn wait(now: u64, since: u64) -> u64 {
    if now >= since {
        (now - since) as u64
    } else {
        0
    }
}

/// The time from `since` to `now`, and none where `since` is later.
pub fn duration_since(now: u64, since: u64) -> (duration: u64)
    ensures
        duration == wait(now, since),
        since <= now ==> since + duration == now,
        now <= since ==> duration == 0,
{
    now.saturating_sub(since)
}

/// A wait reaches from its start to now.
pub proof fn law_wait(now: u64, since: u64)
    ensures
        since <= now ==> since + wait(now, since) == now,
        now <= since ==> wait(now, since) == 0,
{
}

/// Some request that was seen has this number.
pub open spec fn was_seen<T>(seen: Seq<(u64, T)>, tid: u64) -> bool {
    exists|i: int| 0 <= i < seen.len() && (#[trigger] seen[i]).0 == tid
}

/// The target of the first request with this number.
pub open spec fn first_target<T>(seen: Seq<(u64, T)>, tid: u64) -> T
    recommends
        was_seen(seen, tid),
    decreases seen.len(),
{
    if seen.len() > 0 && was_seen(seen.drop_last(), tid) {
        first_target(seen.drop_last(), tid)
    } else {
        seen.last().1
    }
}

/// The requests that wait at `now`: those that are `seen`. One that waited before keeps its
/// target and the time at which it was first seen; one that did not was first seen now.
pub open spec fn next_round<T>(
    before: Map<u64, (T, u64)>,
    seen: Seq<(u64, T)>,
    now: u64,
) -> Map<u64, (T, u64)> {
    Map::new(
        |tid: u64| was_seen(seen, tid),
        |tid: u64|
            if before.contains_key(tid) {
                before[tid]
            } else {
                (first_target(seen, tid), now)
            },
    )
}

/// The longest that a request which is `seen` has been waiting.
pub open spec fn longest_wait<T>(
    before: Map<u64, (T, u64)>,
    seen: Seq<(u64, T)>,
    now: u64,
) -> u64
    decreases seen.len(),
{
    if seen.len() == 0 {
        0
    } else {
        let others = longest_wait(before, seen.drop_last(), now);
        let tid = seen.last().0;
        if before.contains_key(tid) && wait(now, before[tid].1) > others {
            wait(now, before[tid].1)
        } else {
            others
        }
    }
}

/// A request was seen if it is the last one or was seen before that.
proof fn lemma_was_seen<T>(seen: Seq<(u64, T)>)
    requires
        seen.len() > 0,
    ensures
        forall|tid: u64| #[trigger]
            was_seen(seen, tid) <==> was_seen(seen.drop_last(), tid) || tid == seen.last().0,
{
    let done = seen.drop_last();
    assert forall|tid: u64| #[trigger] was_seen(seen, tid) <==> was_seen(done, tid) || tid
        == seen.last().0 by {
        if was_seen(done, tid) {
            let i = choose|i: int| 0 <= i < done.len() && (#[trigger] done[i]).0 == tid;
            assert(seen[i].0 == tid);
        }
        if was_seen(seen, tid) && tid != seen.last().0 {
            let i = choose|i: int| 0 <= i < seen.len() && (#[trigger] seen[i]).0 == tid;
            assert(done[i].0 == tid);
        }
        if tid == seen.last().0 {
            assert(seen[seen.len() - 1].0 == tid);
        }
    }
}

/// Goes over the requests that are seen: which wait now, and the longest that one has been
/// waiting.
pub fn track<T: Copy>(
    before: &HashMap<u64, (T, u64)>,
    seen: &Vec<(u64, T)>,
    now: u64,
) -> (round: (HashMap<u64, (T, u64)>, u64))
    ensures
        round.0@ == next_round(before@, seen@, now),
        round.1 == longest_wait(before@, seen@, now),
{
    let mut waiting: HashMap<u64, (T, u64)> = HashMap::new();
    let mut longest: u64 = 0;
    let mut i: usize = 0;
    assert(waiting@ =~= next_round(before@, seen@.take(0), now));
    while i < seen.len()
        invariant
            i <= seen@.len(),
            waiting@ == next_round(before@, seen@.take(i as int), now),
            longest == longest_wait(before@, seen@.take(i as int), now),
        decreases seen@.len() - i,
    {
        let (tid, target) = seen[i];
        let ghost done = seen@.take(i as int);
        let ghost more = seen@.take(i + 1);
        proof {
            assert(more.drop_last() =~= done);
            assert(more.last() == (tid, target));
            lemma_was_seen(more);
        }
        match before.get(&tid) {
            Some(known) => {
                let (first, since) = *known;
                let waited: u64 = duration_since(now, since);
                if waited > longest {
                    longest = waited;
                }
                waiting.insert(tid, (first, since));
            },
            None => {
                if !waiting.contains_key(&tid) {
                    waiting.insert(tid, (target, now));
                }
            },
        }
        i = i + 1;
        assert(waiting@ =~= next_round(before@, more, now));
    }
    assert(seen@.take(i as int) =~= seen@);
    (waiting, longest)
}

/// Exactly the requests that are seen wait after a round. One that waited before is not changed.
pub proof fn law_next_round<T>(
    before: Map<u64, (T, u64)>,
    seen: Seq<(u64, T)>,
    now: u64,
    tid: u64,
)
    ensures
        next_round(before, seen, now).contains_key(tid) <==> exists|target: T| #[trigger]
            seen.contains((tid, target)),
        next_round(before, seen, now).contains_key(tid) && before.contains_key(tid)
            ==> next_round(before, seen, now)[tid] == before[tid],
{
    if was_seen(seen, tid) {
        let i = choose|i: int| 0 <= i < seen.len() && (#[trigger] seen[i]).0 == tid;
        assert(seen.contains((tid, seen[i].1)));
    }
    if exists|target: T| #[trigger] seen.contains((tid, target)) {
        let target = choose|target: T| #[trigger] seen.contains((tid, target));
        let i = choose|i: int| 0 <= i < seen.len() && seen[i] == (tid, target);
        assert(seen[i].0 == tid);
    }
}

/// A request that did not wait before is known, after the round, by the target that it was first
/// seen with, and has been waiting since the round.
pub proof fn law_newcomer<T>(
    before: Map<u64, (T, u64)>,
    seen: Seq<(u64, T)>,
    now: u64,
    first: int,
)
    requires
        0 <= first < seen.len(),
        !before.contains_key(seen[first].0),
        forall|i: int| 0 <= i < first ==> (#[trigger] seen[i]).0 != seen[first].0,
    ensures
        next_round(before, seen, now).contains_key(seen[first].0),
        next_round(before, seen, now)[seen[first].0] == (seen[first].1, now),
{
    let tid = seen[first].0;
    assert(was_seen(seen, tid));
    law_first_target(seen, tid, first);
}

/// The requests that wait after some rounds, each with what is seen in it and its time.
pub open spec fn after_rounds<T>(
    start: Map<u64, (T, u64)>,
    rounds: Seq<(Seq<(u64, T)>, u64)>,
) -> Map<u64, (T, u64)>
    decreases rounds.len(),
{
    if rounds.len() == 0 {
        start
    } else {
        let (seen, now) = rounds.last();
        next_round(after_rounds(start, rounds.drop_last()), seen, now)
    }
}

/// A request that is seen in every round from one on, and was not waiting before that, is known
/// by the target that it had in that round and has been waiting since that round.
pub proof fn law_waiting_since<T>(
    start: Map<u64, (T, u64)>,
    rounds: Seq<(Seq<(u64, T)>, u64)>,
    from: int,
    tid: u64,
)
    requires
        0 <= from < rounds.len(),
        forall|i: int| from <= i < rounds.len() ==> was_seen((#[trigger] rounds[i]).0, tid),
        from == 0 ==> !start.contains_key(tid),
        from > 0 ==> !was_seen(rounds[from - 1].0, tid),
    ensures
        after_rounds(start, rounds).contains_key(tid),
        after_rounds(start, rounds)[tid] == (
            first_target(rounds[from].0, tid),
            rounds[from].1,
        ),
    decreases rounds.len(),
{
    let earlier = rounds.drop_last();
    if from == rounds.len() - 1 {
        if from > 0 {
            assert(earlier.last() == rounds[from - 1]);
        }
        assert(!after_rounds(start, earlier).contains_key(tid));
    } else {
        assert forall|i: int| from <= i < earlier.len() implies was_seen(
            (#[trigger] earlier[i]).0,
            tid,
        ) by {
            assert(earlier[i] == rounds[i]);
        }
        law_waiting_since(start, earlier, from, tid);
    }
    assert(was_seen(rounds[rounds.len() - 1].0, tid));
}

/// A request that is not seen in a round is forgotten: when it is seen again it has been waiting
/// since then.
pub proof fn law_forgotten<T>(
    before: Map<u64, (T, u64)>,
    seen: Seq<(u64, T)>,
    now: u64,
    seen_later: Seq<(u64, T)>,
    later: u64,
    tid: u64,
)
    requires
        !was_seen(seen, tid),
        was_seen(seen_later, tid),
    ensures
        !next_round(before, seen, now).contains_key(tid),
        next_round(next_round(before, seen, now), seen_later, later)[tid] == (
            first_target(seen_later, tid),
            later,
        ),
{
}

/// A request that waits and is seen in every round keeps its target and the time at which it was
/// first seen.
pub proof fn law_kept<T>(
    start: Map<u64, (T, u64)>,
    rounds: Seq<(Seq<(u64, T)>, u64)>,
    tid: u64,
)
    requires
        start.contains_key(tid),
        forall|i: int| 0 <= i < rounds.len() ==> was_seen((#[trigger] rounds[i]).0, tid),
    ensures
        after_rounds(start, rounds).contains_key(tid),
        after_rounds(start, rounds)[tid] == start[tid],
    decreases rounds.len(),
{
    if rounds.len() > 0 {
        let earlier = rounds.drop_last();
        assert forall|i: int| 0 <= i < earlier.len() implies was_seen(
            (#[trigger] earlier[i]).0,
            tid,
        ) by {
            assert(earlier[i] == rounds[i]);
        }
        law_kept(start, earlier, tid);
        assert(was_seen(rounds[rounds.len() - 1].0, tid));
    }
}

/// Rounds whose times do not go back keep every request first seen by the last of them.
pub proof fn law_seen_by<T>(
    before: Map<u64, (T, u64)>,
    seen: Seq<(u64, T)>,
    earlier: u64,
    now: u64,
)
    requires
        seen_by(before, earlier),
        earlier <= now,
    ensures
        seen_by(next_round(before, seen, now), now),
{
}

/// The longest wait bounds what has been waited so far.
proof fn lemma_longest_bounds<T>(
    before: Map<u64, (T, u64)>,
    seen: Seq<(u64, T)>,
    now: u64,
    tid: u64,
)
    requires
        was_seen(seen, tid),
        before.contains_key(tid),
    ensures
        wait(now, before[tid].1) <= longest_wait(before, seen, now),
    decreases seen.len(),
{
    lemma_was_seen(seen);
    if was_seen(seen.drop_last(), tid) {
        lemma_longest_bounds(before, seen.drop_last(), now, tid);
    }
}

/// The longest wait is what some request has been waiting, unless it is nothing.
proof fn lemma_longest_reached<T>(
    before: Map<u64, (T, u64)>,
    seen: Seq<(u64, T)>,
    now: u64,
) -> (tid: u64)
    requires
        longest_wait(before, seen, now) > 0,
    ensures
        was_seen(seen, tid),
        before.contains_key(tid),
        wait(now, before[tid].1) == longest_wait(before, seen, now),
    decreases seen.len(),
{
    lemma_was_seen(seen);
    let last = seen.last().0;
    if before.contains_key(last) && wait(now, before[last].1) == longest_wait(before, seen, now) {
        last
    } else {
        lemma_longest_reached(before, seen.drop_last(), now)
    }
}

/// The longest wait is the greatest wait of the requests that wait after the round.
pub proof fn law_longest_wait<T>(before: Map<u64, (T, u64)>, seen: Seq<(u64, T)>, now: u64)
    ensures
        forall|tid: u64| #[trigger]
            next_round(before, seen, now).contains_key(tid) ==> wait(
                now,
                next_round(before, seen, now)[tid].1,
            ) <= longest_wait(before, seen, now),
        seen.len() > 0 ==> exists|tid: u64| #[trigger]
            next_round(before, seen, now).contains_key(tid) && wait(
                now,
                next_round(before, seen, now)[tid].1,
            ) == longest_wait(before, seen, now),
        seen.len() == 0 ==> longest_wait(before, seen, now) == 0,
{
    let next = next_round(before, seen, now);
    assert forall|tid: u64| #[trigger] next.contains_key(tid) implies wait(now, next[tid].1)
        <= longest_wait(before, seen, now) by {
        if before.contains_key(tid) {
            lemma_longest_bounds(before, seen, now, tid);
        }
    }
    if seen.len() > 0 {
        if longest_wait(before, seen, now) > 0 {
            let tid = lemma_longest_reached(before, seen, now);
            assert(next.contains_key(tid));
        } else {
            let tid = seen[0].0;
            assert(was_seen(seen, tid));
            assert(next.contains_key(tid));
        }
    }
}

/// The longest wait is the greatest of the times that have gone by since requests which are seen,
/// and waited before, were first seen; it is nothing where no time has gone by for any.
pub proof fn law_longest_time<T>(before: Map<u64, (T, u64)>, seen: Seq<(u64, T)>, now: u64)
    ensures
        forall|i: int|
            0 <= i < seen.len() && before.contains_key((#[trigger] seen[i]).0) ==> now
                - before[seen[i].0].1 <= longest_wait(before, seen, now),
        longest_wait(before, seen, now) > 0 ==> exists|i: int|
            0 <= i < seen.len() && before.contains_key((#[trigger] seen[i]).0)
                && before[seen[i].0].1 + longest_wait(before, seen, now) == now,
{
    assert forall|i: int|
        0 <= i < seen.len() && before.contains_key((#[trigger] seen[i]).0) implies now
        - before[seen[i].0].1 <= longest_wait(before, seen, now) by {
        assert(was_seen(seen, seen[i].0));
        law_wait(now, before[seen[i].0].1);
        lemma_longest_bounds(before, seen, now, seen[i].0);
    }
    if longest_wait(before, seen, now) > 0 {
        let tid = lemma_longest_reached(before, seen, now);
        let i = choose|i: int| 0 <= i < seen.len() && (#[trigger] seen[i]).0 == tid;
        law_wait(now, before[seen[i].0].1);
    }
}

/// What the last round reports is no less than the time that has gone by since the round from
/// which on a request was seen in every round.
pub proof fn law_reported_time<T>(
    start: Map<u64, (T, u64)>,
    rounds: Seq<(Seq<(u64, T)>, u64)>,
    from: int,
    tid: u64,
)
    requires
        0 <= from < rounds.len() - 1,
        forall|i: int| from <= i < rounds.len() ==> was_seen((#[trigger] rounds[i]).0, tid),
        from == 0 ==> !start.contains_key(tid),
        from > 0 ==> !was_seen(rounds[from - 1].0, tid),
    ensures
        longest_wait(
            after_rounds(start, rounds.drop_last()),
            rounds.last().0,
            rounds.last().1,
        ) >= rounds.last().1 - rounds[from].1,
{
    let earlier = rounds.drop_last();
    assert forall|i: int| from <= i < earlier.len() implies was_seen(
        (#[trigger] earlier[i]).0,
        tid,
    ) by {
        assert(earlier[i] == rounds[i]);
    }
    law_waiting_since(start, earlier, from, tid);
    assert(was_seen(rounds[rounds.len() - 1].0, tid));
    let seen = rounds.last().0;
    let i = choose|i: int| 0 <= i < seen.len() && (#[trigger] seen[i]).0 == tid;
    law_longest_time(after_rounds(start, earlier), seen, rounds.last().1);
}

/// Where all is in order, every request that waits was first seen by the last update, so that no
/// wait is cut short.
pub proof fn law_well_formed(data: PromData)
    requires
        data.well_formed(),
    ensures
        forall|tid: u64| #[trigger]
            data.osd_requests@.contains_key(tid) ==> data.osd_requests@[tid].1 + wait(
                data.updated,
                data.osd_requests@[tid].1,
            ) == data.updated,
        forall|tid: u64| #[trigger]
            data.mds_requests@.contains_key(tid) ==> data.mds_requests@[tid].1 + wait(
                data.updated,
                data.mds_requests@[tid].1,
            ) == data.updated,
{
}

/// The first target of a request is one that was seen with it.
proof fn lemma_first_target<T>(seen: Seq<(u64, T)>, tid: u64)
    requires
        was_seen(seen, tid),
    ensures
        seen.contains((tid, first_target(seen, tid))),
    decreases seen.len(),
{
    lemma_was_seen(seen);
    let done = seen.drop_last();
    if was_seen(done, tid) {
        lemma_first_target(done, tid);
        let i = choose|i: int| 0 <= i < done.len() && done[i] == (tid, first_target(done, tid));
        assert(seen[i] == (tid, first_target(seen, tid)));
    } else {
        assert(seen[seen.len() - 1] == (tid, first_target(seen, tid)));
    }
}

/// The first target is the one that stands first.
pub proof fn law_first_target<T>(seen: Seq<(u64, T)>, tid: u64, first: int)
    requires
        0 <= first < seen.len(),
        seen[first].0 == tid,
        forall|i: int| 0 <= i < first ==> (#[trigger] seen[i]).0 != tid,
    ensures
        first_target(seen, tid) == seen[first].1,
    decreases seen.len(),
{
    let done = seen.drop_last();
    if first == seen.len() - 1 {
        assert(!was_seen(done, tid));
    } else {
        assert(done[first].0 == tid);
        assert forall|i: int| 0 <= i < first implies (#[trigger] done[i]).0 != tid by {
            assert(done[i] == seen[i]);
        }
        law_first_target(done, tid, first);
    }
}

/// Each request that was not waiting is seen with one target only.
pub open spec fn newcomers_have_one_target<T>(
    before: Map<u64, (T, u64)>,
    seen: Seq<(u64, T)>,
) -> bool {
    forall|i: int, j: int|
        0 <= i < seen.len() && 0 <= j < seen.len() && (#[trigger] seen[i]).0 == (
        #[trigger] seen[j]).0 && !before.contains_key(seen[i].0) ==> seen[i].1 == seen[j].1
}

/// In which order, or how often, requests are seen does not matter for which of them wait, since
/// when, and for the longest wait. It does not matter for their targets either, as long as each
/// request that was not waiting is seen with one target only.
pub proof fn law_order_is_free<T>(
    before: Map<u64, (T, u64)>,
    seen: Seq<(u64, T)>,
    other: Seq<(u64, T)>,
    now: u64,
)
    requires
        forall|request: (u64, T)| #[trigger] seen.contains(request) <==> other.contains(request),
    ensures
        longest_wait(before, seen, now) == longest_wait(before, other, now),
        next_round(before, seen, now).dom() == next_round(before, other, now).dom(),
        forall|tid: u64| #[trigger]
            next_round(before, seen, now).contains_key(tid) ==> next_round(before, seen, now)[tid].1
                == next_round(before, other, now)[tid].1,
        newcomers_have_one_target(before, seen) ==> next_round(before, seen, now) == next_round(
            before,
            other,
            now,
        ),
{
    let next = next_round(before, seen, now);
    let other_next = next_round(before, other, now);
    assert forall|tid: u64| #[trigger] was_seen(seen, tid) == was_seen(other, tid) by {
        if was_seen(seen, tid) {
            lemma_first_target(seen, tid);
            assert(other.contains((tid, first_target(seen, tid))));
        }
        if was_seen(other, tid) {
            lemma_first_target(other, tid);
            assert(seen.contains((tid, first_target(other, tid))));
        }
    }
    assert(next.dom() =~= other_next.dom());
    if newcomers_have_one_target(before, seen) {
        assert forall|tid: u64| #[trigger]
            was_seen(seen, tid) && !before.contains_key(tid) implies first_target(seen, tid)
            == first_target(other, tid) by {
            lemma_first_target(seen, tid);
            lemma_first_target(other, tid);
            assert(seen.contains((tid, first_target(other, tid))));
        }
        assert(next =~= other_next);
    }
    if longest_wait(before, seen, now) > 0 {
        let tid = lemma_longest_reached(before, seen, now);
        lemma_longest_bounds(before, other, now, tid);
    }
    if longest_wait(before, other, now) > 0 {
        let tid = lemma_longest_reached(before, other, now);
        assert(was_seen(seen, tid));
        lemma_longest_bounds(before, seen, now, tid);
    }
}

} // verus!
