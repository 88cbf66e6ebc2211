//! The list of waiting requests that is shown to people.

use crate::tracking::{
    duration_since, law_longest_wait, longest_wait, next_round, wait, was_seen,
};
use std::collections::HashMap;
use vstd::prelude::*;
use vstd::relations::{sorted_by, total_ordering};
use vstd::seq_lib::lemma_sorted_unique;
use vstd::std_specs::iter::IteratorSpec;

verus! {

broadcast use vstd::std_specs::hash::group_hash_axioms;

/// What a request can be addressed to. Targets are listed by rank.
pub trait Target: Copy {
    /// The place of the target among all.
    spec fn rank(self) -> nat;

    /// No two targets share a place.
    proof fn rank_tells_apart(self, other: Self)
        ensures
            self.rank() == other.rank() ==> self == other,
    ;

    /// The place of the target among all.
    fn get_rank(self) -> (rank: u64)
        ensures
            rank == self.rank(),
    ;
}

/// OSDs are listed by their numbers.
impl Target for u32 {
    open spec fn rank(self) -> nat {
        self as nat
    }

    proof fn rank_tells_apart(self, other: Self) {
    }

    fn get_rank(self) -> u64 {
        self as u64
    }
}

/// Requests that no metadata server has yet come before those of the metadata servers, which are
/// listed by their numbers.
impl Target for Option<u32> {
    open spec fn rank(self) -> nat {
        match self {
            None => 0,
            Some(number) => number as nat + 1,
        }
    }

    proof fn rank_tells_apart(self, other: Self) {
    }

    fn get_rank(self) -> u64 {
        match self {
            None => 0,
            Some(number) => number as u64 + 1,
        }
    }
}

/// The row `a`, a target and the time at which a request to it was first seen, is listed before
/// `b` or is the same: the request was first seen later, or at the same time and its target has
/// no higher rank.
pub open spec fn in_order<T: Target>(a: (T, u64), b: (T, u64)) -> bool {
    a.1 > b.1 || (a.1 == b.1 && a.0.rank() <= b.0.rank())
}

/// The rows stand in the order in which they are listed.
pub open spec fn listed_in_order<T: Target>(rows: Seq<(T, u64)>) -> bool {
    sorted_by(rows, |a: (T, u64), b: (T, u64)| in_order(a, b))
}

/// The requests that wait with the target of a row since its time.
pub open spec fn with_row<T>(waiting: Map<u64, (T, u64)>, row: (T, u64)) -> Set<u64> {
    waiting.dom().filter(|tid: u64| waiting[tid] == row)
}

/// Each row stands there as often as a request waits with its target since its time.
pub open spec fn lists_all<T>(rows: Seq<(T, u64)>, waiting: Map<u64, (T, u64)>) -> bool {
    forall|row: (T, u64)| #[trigger]
        rows.to_multiset().count(row) == with_row(waiting, row).len()
}

/// The row of every waiting request, in the order in which they are listed.
pub open spec fn listing<T: Target>(waiting: Map<u64, (T, u64)>) -> Seq<(T, u64)> {
    choose|rows: Seq<(T, u64)>| #[trigger] listed_in_order(rows) && lists_all(rows, waiting)
}

/// Each row stands there as often as one of `tids` waits with its target since its time.
pub open spec fn rows_of<T>(
    rows: Seq<(T, u64)>,
    tids: Seq<u64>,
    waiting: Map<u64, (T, u64)>,
) -> bool {
    forall|row: (T, u64)| #[trigger]
        rows.to_multiset().count(row) == tids.to_set().filter(
            |tid: u64| waiting[tid] == row,
        ).len()
}

/// Where nothing waits there are no rows.
proof fn lemma_no_rows<T>(waiting: Map<u64, (T, u64)>)
    ensures
        rows_of(Seq::<(T, u64)>::empty(), seq![], waiting),
{
    broadcast use vstd::seq_lib::group_to_multiset_ensures;

    let none = Seq::<u64>::empty();
    assert forall|row: (T, u64)| #[trigger]
        Seq::<(T, u64)>::empty().to_multiset().count(row) == none.to_set().filter(
            |tid: u64| waiting[tid] == row,
        ).len() by {
        assert(!Seq::<(T, u64)>::empty().contains(row));
        assert(none.to_set().filter(|tid: u64| waiting[tid] == row) =~= Set::empty());
    }
}

/// Another request adds its row.
proof fn lemma_another_row<T>(
    rows: Seq<(T, u64)>,
    more: Seq<(T, u64)>,
    tids: Seq<u64>,
    tid: u64,
    waiting: Map<u64, (T, u64)>,
)
    requires
        rows_of(rows, tids, waiting),
        !tids.contains(tid),
        more.to_multiset() == rows.to_multiset().insert(waiting[tid]),
    ensures
        rows_of(more, tids.push(tid), waiting),
{
    broadcast use vstd::seq_lib::seq_to_set_is_finite;

    let before = tids.to_set();
    let after = tids.push(tid).to_set();
    assert(after =~= before.insert(tid)) by {
        assert forall|x: u64| #[trigger] after.contains(x) == before.insert(tid).contains(x) by {
            if before.contains(x) {
                let i = choose|i: int| 0 <= i < tids.len() && tids[i] == x;
                assert(tids.push(tid)[i] == x);
            }
            if x == tid {
                assert(tids.push(tid)[tids.len() as int] == x);
            }
        }
    }
    assert forall|row: (T, u64)| #[trigger]
        more.to_multiset().count(row) == after.filter(|tid: u64| waiting[tid] == row).len() by {
        let matches = |tid: u64| waiting[tid] == row;
        assert(rows.to_multiset().count(row) == before.filter(matches).len());
        if waiting[tid] == row {
            assert(after.filter(matches) =~= before.filter(matches).insert(tid));
        } else {
            assert(after.filter(matches) =~= before.filter(matches));
        }
    }
}

/// Puts a row in its place among rows that are in order.
fn insert_row<T: Target>(rows: &mut Vec<(T, u64)>, row: (T, u64))
    requires
        listed_in_order(old(rows)@),
    ensures
        listed_in_order(final(rows)@),
        final(rows)@.to_multiset() == old(rows)@.to_multiset().insert(row),
{
    let rank: u64 = row.0.get_rank();
    let mut low: usize = 0;
    let mut high: usize = rows.len();
    let ghost before = rows@;
    let ghost order = |a: (T, u64), b: (T, u64)| in_order(a, b);
    assert(sorted_by(before, order));
    while low < high
        invariant
            low <= high <= rows@.len(),
            rows@ == before,
            rank == row.0.rank(),
            order == |a: (T, u64), b: (T, u64)| in_order(a, b),
            sorted_by(before, order),
            forall|i: int| 0 <= i < low ==> in_order(#[trigger] before[i], row),
            forall|i: int| high <= i < before.len() ==> in_order(row, #[trigger] before[i]),
        decreases high - low,
    {
        let middle: usize = low + (high - low) / 2;
        let (target, since) = rows[middle];
        if since > row.1 || (since == row.1 && target.get_rank() <= rank) {
            assert forall|i: int| 0 <= i < middle + 1 implies in_order(
                #[trigger] before[i],
                row,
            ) by {
                if i < middle {
                    assert(order(before[i], before[middle as int]));
                }
            }
            low = middle + 1;
        } else {
            assert forall|i: int| middle <= i < before.len() implies in_order(
                row,
                #[trigger] before[i],
            ) by {
                if middle < i {
                    assert(order(before[middle as int], before[i]));
                }
            }
            high = middle;
        }
    }
    rows.insert(low, row);
    proof {
        let after = rows@;
        assert(after == before.insert(low as int, row));
        assert forall|i: int, j: int| 0 <= i < j < after.len() implies #[trigger] order(
            after[i],
            after[j],
        ) by {
            let from = if i < low { i } else { i - 1 };
            let to = if j < low { j } else { j - 1 };
            if i != low && j != low {
                assert(order(before[from], before[to]));
            } else if i == low {
                assert(after[j] == before[to]);
            } else {
                assert(after[i] == before[from]);
            }
        }
        vstd::seq_lib::to_multiset_insert(before, low as int, row);
    }
}

/// The row of every waiting request, in the order in which they are listed.
pub fn sorted_requests<T: Target>(waiting: &HashMap<u64, (T, u64)>) -> (rows: Vec<(T, u64)>)
    ensures
        listed_in_order(rows@),
        lists_all(rows@, waiting@),
        rows@ == listing(waiting@),
{
    let mut rows: Vec<(T, u64)> = Vec::new();
    let ghost mut tids: Seq<u64> = seq![];
    let ghost all = vstd::std_specs::hash::spec_keys_iter(waiting).remaining().unref();
    proof {
        lemma_no_rows(waiting@);
    }
    for tid in keys: waiting.keys()
        invariant
            keys.seq().unref() == all,
            keys.seq().no_duplicates(),
            all.to_set() == waiting@.dom(),
            listed_in_order(rows@),
            tids.len() == keys.index(),
            tids == all.take(tids.len() as int),
            rows_of(rows@, tids, waiting@),
    {
        let ghost listed = rows@;
        proof {
            assert(all[tids.len() as int] == *tid);
            assert(all.to_set().contains(*tid));
            assert(!tids.contains(*tid));
        }
        if let Some(row) = waiting.get(tid) {
            insert_row(&mut rows, *row);
        }
        proof {
            lemma_another_row(listed, rows@, tids, *tid, waiting@);
            tids = tids.push(*tid);
        }
    }
    proof {
        assert(tids =~= all);
        law_one_listing(rows@, waiting@);
    }
    rows
}

/// The target of every waiting request, in the order in which they are listed, and how long it
/// has been waiting at `now`.
pub fn waits<T: Target>(waiting: &HashMap<u64, (T, u64)>, now: u64) -> (rows: Vec<(T, u64)>)
    ensures
        listed_in_order(listing(waiting@)),
        lists_all(listing(waiting@), waiting@),
        rows@ == listing(waiting@).map_values(|row: (T, u64)| (row.0, wait(now, row.1))),
        rows@.len() == listing(waiting@).len(),
        forall|i: int|
            0 <= i < rows@.len() ==> (#[trigger] rows@[i]).0 == listing(waiting@)[i].0 && (
            listing(waiting@)[i].1 <= now ==> listing(waiting@)[i].1 + rows@[i].1 == now),
{
    let sorted = sorted_requests(waiting);
    let mut rows: Vec<(T, u64)> = Vec::new();
    let mut i: usize = 0;
    while i < sorted.len()
        invariant
            i <= sorted@.len(),
            rows@ == sorted@.take(i as int).map_values(
                |row: (T, u64)| (row.0, wait(now, row.1)),
            ),
        decreases sorted@.len() - i,
    {
        let (target, since) = sorted[i];
        rows.push((target, duration_since(now, since)));
        i = i + 1;
    }
    assert(sorted@.take(i as int) =~= sorted@);
    rows
}

/// The order in which rows are listed is a total one.
proof fn lemma_total_order<T: Target>()
    ensures
        total_ordering(|a: (T, u64), b: (T, u64)| in_order(a, b)),
{
    let order = |a: (T, u64), b: (T, u64)| in_order(a, b);
    assert forall|a: (T, u64), b: (T, u64)| #[trigger] order(a, b) && #[trigger] order(
        b,
        a,
    ) implies a == b by {
        a.0.rank_tells_apart(b.0);
    }
}

/// There is one way only to list the waiting requests.
pub proof fn law_one_listing<T: Target>(rows: Seq<(T, u64)>, waiting: Map<u64, (T, u64)>)
    requires
        listed_in_order(rows),
        lists_all(rows, waiting),
    ensures
        rows == listing(waiting),
{
    let other = listing(waiting);
    assert(listed_in_order(other) && lists_all(other, waiting));
    assert forall|row: (T, u64)| #[trigger]
        rows.to_multiset().count(row) == other.to_multiset().count(row) by {
        assert(other.to_multiset().count(row) == with_row(waiting, row).len());
    }
    assert(rows.to_multiset() =~= other.to_multiset());
    lemma_total_order::<T>();
    lemma_sorted_unique(rows, other, |a: (T, u64), b: (T, u64)| in_order(a, b));
}

/// Requests with different numbers have rows.
proof fn lemma_rows_exist<T>(tids: Seq<u64>, waiting: Map<u64, (T, u64)>) -> (rows: Seq<
    (T, u64),
>)
    requires
        tids.no_duplicates(),
    ensures
        rows_of(rows, tids, waiting),
        rows == tids.map_values(|tid: u64| waiting[tid]),
    decreases tids.len(),
{
    if tids.len() == 0 {
        lemma_no_rows(waiting);
        assert(tids =~= seq![]);
        Seq::empty()
    } else {
        let others = tids.drop_last();
        let tid = tids.last();
        let listed = lemma_rows_exist(others, waiting);
        let rows = listed.push(waiting[tid]);
        vstd::seq_lib::to_multiset_build(listed, waiting[tid]);
        lemma_another_row(listed, rows, others, tid, waiting);
        assert(others.push(tid) =~= tids);
        assert(rows =~= tids.map_values(|tid: u64| waiting[tid]));
        rows
    }
}

/// The numbers of a set, each once.
proof fn lemma_numbers(set: Set<u64>) -> (tids: Seq<u64>)
    requires
        set.finite(),
    ensures
        tids.no_duplicates(),
        tids.to_set() == set,
    decreases set.len(),
{
    if set.len() == 0 {
        let tids = Seq::<u64>::empty();
        assert(set =~= Set::empty());
        assert(tids.to_set() =~= set);
        tids
    } else {
        let tid = set.choose();
        let others = lemma_numbers(set.remove(tid));
        let tids = others.push(tid);
        assert(!others.contains(tid)) by {
            assert(!others.to_set().contains(tid));
        }
        assert forall|x: u64| #[trigger] tids.to_set().contains(x) == set.contains(x) by {
            if set.contains(x) && x != tid {
                assert(others.to_set().contains(x));
                let i = choose|i: int| 0 <= i < others.len() && others[i] == x;
                assert(tids[i] == x);
            }
            if x == tid {
                assert(tids[others.len() as int] == x);
            }
            if tids.contains(x) && x != tid {
                let i = choose|i: int| 0 <= i < tids.len() && tids[i] == x;
                assert(others[i] == x);
                assert(others.to_set().contains(x));
            }
        }
        assert(tids.to_set() =~= set);
        tids
    }
}

/// There is a way to list the waiting requests: the listing has the row of every one of them, and
/// has the rows in order.
pub proof fn law_listing<T: Target>(waiting: Map<u64, (T, u64)>)
    requires
        waiting.dom().finite(),
    ensures
        listed_in_order(listing(waiting)),
        lists_all(listing(waiting), waiting),
{
    let order = |a: (T, u64), b: (T, u64)| in_order(a, b);
    let tids = lemma_numbers(waiting.dom());
    let rows = lemma_rows_exist(tids, waiting);
    let sorted = rows.sort_by(order);
    lemma_total_order::<T>();
    rows.lemma_sort_by_ensures(order);
    assert forall|row: (T, u64)| #[trigger]
        sorted.to_multiset().count(row) == with_row(waiting, row).len() by {
        assert(rows.to_multiset().count(row) == with_row(waiting, row).len());
    }
    assert(listed_in_order(sorted) && lists_all(sorted, waiting));
}

/// Where two lists have the same rows as often, and one has the rows of requests in some order, the
/// other has them in some order too.
proof fn lemma_reordered<T>(
    rows: Seq<(T, u64)>,
    tids: Seq<u64>,
    waiting: Map<u64, (T, u64)>,
) -> (reordered: Seq<u64>)
    requires
        tids.no_duplicates(),
        rows.to_multiset() == tids.map_values(|tid: u64| waiting[tid]).to_multiset(),
    ensures
        reordered.no_duplicates(),
        forall|tid: u64| #[trigger] reordered.contains(tid) <==> tids.contains(tid),
        rows == reordered.map_values(|tid: u64| waiting[tid]),
    decreases rows.len(),
{
    broadcast use vstd::seq_lib::group_to_multiset_ensures;

    let all = tids.map_values(|tid: u64| waiting[tid]);
    assert(rows.len() == rows.to_multiset().len());
    assert(all.len() == all.to_multiset().len());
    if rows.len() == 0 {
        assert(rows =~= tids.map_values(|tid: u64| waiting[tid]));
        tids
    } else {
        let row = rows.last();
        assert(rows.contains(row)) by {
            assert(rows[rows.len() - 1] == row);
        }
        assert(rows.to_multiset().count(row) > 0);
        assert(all.contains(row));
        let k = choose|k: int| 0 <= k < all.len() && all[k] == row;
        let fewer = tids.remove(k);
        assert(fewer.map_values(|tid: u64| waiting[tid]) =~= all.remove(k));
        assert(rows.drop_last() =~= rows.remove(rows.len() - 1));
        vstd::seq_lib::to_multiset_remove(rows, rows.len() - 1);
        vstd::seq_lib::to_multiset_remove(all, k);
        let others = lemma_reordered(rows.drop_last(), fewer, waiting);
        let reordered = others.push(tids[k]);
        assert(!fewer.contains(tids[k]));
        assert(!others.contains(tids[k]));
        assert forall|tid: u64| #[trigger] reordered.contains(tid) <==> tids.contains(tid) by {
            if tids.contains(tid) {
                let i = choose|i: int| 0 <= i < tids.len() && tids[i] == tid;
                if i == k {
                    assert(reordered[others.len() as int] == tid);
                } else {
                    assert(fewer[if i < k { i } else { i - 1 }] == tid);
                    assert(others.contains(tid));
                    let j = choose|j: int| 0 <= j < others.len() && others[j] == tid;
                    assert(reordered[j] == tid);
                }
            }
            if reordered.contains(tid) {
                let j = choose|j: int| 0 <= j < reordered.len() && reordered[j] == tid;
                if j < others.len() {
                    assert(others[j] == tid);
                    assert(others.contains(tid));
                    assert(fewer.contains(tid));
                    let i = choose|i: int| 0 <= i < fewer.len() && fewer[i] == tid;
                    assert(tids[if i < k { i } else { i + 1 }] == tid);
                }
            }
        }
        let relisted = reordered.map_values(|tid: u64| waiting[tid]);
        assert(rows.drop_last().len() == others.len());
        assert forall|i: int| 0 <= i < rows.len() implies rows[i] == relisted[i] by {
            if i < others.len() {
                assert(rows.drop_last()[i] == others.map_values(|tid: u64| waiting[tid])[i]);
            }
        }
        assert(rows =~= relisted);
        reordered
    }
}

/// The listing is made of the waiting requests, each once: of the target and the time of each.
pub proof fn law_each_once<T: Target>(waiting: Map<u64, (T, u64)>)
    requires
        waiting.dom().finite(),
    ensures
        listing(waiting).len() == waiting.dom().len(),
        exists|tids: Seq<u64>|
            {
                &&& #[trigger] tids.no_duplicates()
                &&& forall|tid: u64| tids.contains(tid) <==> waiting.contains_key(tid)
                &&& listing(waiting) == tids.map_values(|tid: u64| waiting[tid])
            },
{
    let tids = lemma_numbers(waiting.dom());
    let all = lemma_rows_exist(tids, waiting);
    let rows = listing(waiting);
    law_listing(waiting);
    assert forall|row: (T, u64)| #[trigger]
        rows.to_multiset().count(row) == all.to_multiset().count(row) by {
        assert(rows.to_multiset().count(row) == with_row(waiting, row).len());
        assert(all.to_multiset().count(row) == tids.to_set().filter(
            |tid: u64| waiting[tid] == row,
        ).len());
    }
    assert(rows.to_multiset() =~= all.to_multiset());
    let reordered = lemma_reordered(rows, tids, waiting);
    assert forall|tid: u64| reordered.contains(tid) <==> waiting.contains_key(tid) by {
        assert(tids.to_set().contains(tid) <==> waiting.dom().contains(tid));
    }
    assert(reordered.to_set() =~= waiting.dom());
    reordered.unique_seq_to_set();
}

/// Requests to OSDs are listed by the time since which they wait, latest first, and those of one
/// time by the numbers of the OSDs.
pub proof fn law_osd_order(waiting: Map<u64, (u32, u64)>, i: int, j: int)
    requires
        waiting.dom().finite(),
        0 <= i < j < listing(waiting).len(),
    ensures
        listing(waiting)[i].1 >= listing(waiting)[j].1,
        listing(waiting)[i].1 == listing(waiting)[j].1 ==> listing(waiting)[i].0 <= listing(
            waiting,
        )[j].0,
{
    let order = |a: (u32, u64), b: (u32, u64)| in_order(a, b);
    law_listing(waiting);
    assert(order(listing(waiting)[i], listing(waiting)[j]));
}

/// Requests to metadata servers are listed by the time since which they wait, latest first, and
/// those of one time by the numbers of the servers, behind those that no server has.
pub proof fn law_mds_order(waiting: Map<u64, (Option<u32>, u64)>, i: int, j: int)
    requires
        waiting.dom().finite(),
        0 <= i < j < listing(waiting).len(),
    ensures
        listing(waiting)[i].1 >= listing(waiting)[j].1,
        listing(waiting)[i].1 == listing(waiting)[j].1 && listing(waiting)[i].0 is Some ==> listing(
            waiting,
        )[j].0 is Some && listing(waiting)[i].0->0 <= listing(waiting)[j].0->0,
{
    let order = |a: (Option<u32>, u64), b: (Option<u32>, u64)| in_order(a, b);
    law_listing(waiting);
    assert(order(listing(waiting)[i], listing(waiting)[j]));
}

/// A row is listed exactly if a request waits with its target since its time.
proof fn lemma_listed<T: Target>(
    rows: Seq<(T, u64)>,
    waiting: Map<u64, (T, u64)>,
    row: (T, u64),
)
    requires
        lists_all(rows, waiting),
        waiting.dom().finite(),
    ensures
        rows.contains(row) <==> exists|tid: u64| #[trigger]
            waiting.contains_key(tid) && waiting[tid] == row,
{
    broadcast use vstd::seq_lib::group_to_multiset_ensures;

    let tids = with_row(waiting, row);
    assert(rows.to_multiset().count(row) == tids.len());
    if rows.contains(row) {
        let tid = tids.choose();
        assert(tids.contains(tid));
        assert(waiting.contains_key(tid));
    }
    if exists|tid: u64| #[trigger] waiting.contains_key(tid) && waiting[tid] == row {
        let tid = choose|tid: u64| #[trigger] waiting.contains_key(tid) && waiting[tid] == row;
        assert(tids.contains(tid));
        if tids.len() == 0 {
            assert(tids =~= Set::empty());
        }
    }
}

/// Only so many requests wait as were seen.
proof fn lemma_finite_round<T>(before: Map<u64, (T, u64)>, seen: Seq<(u64, T)>, now: u64)
    ensures
        next_round(before, seen, now).dom().finite(),
{
    broadcast use vstd::seq_lib::seq_to_set_is_finite;

    let tids = seen.map_values(|request: (u64, T)| request.0);
    let dom = next_round(before, seen, now).dom();
    assert forall|tid: u64| #[trigger] dom.contains(tid) == tids.to_set().contains(tid) by {
        if dom.contains(tid) {
            let i = choose|i: int| 0 <= i < seen.len() && (#[trigger] seen[i]).0 == tid;
            assert(tids[i] == tid);
        }
        if tids.to_set().contains(tid) {
            let i = choose|i: int| 0 <= i < tids.len() && tids[i] == tid;
            assert(seen[i].0 == tid);
        }
    }
    assert(dom =~= tids.to_set());
}

/// After a round, the request that is listed last has been waiting longest: as long as the round
/// reported. Where nothing was seen, nothing is listed.
pub proof fn law_longest_is_last<T: Target>(
    rows: Seq<(T, u64)>,
    before: Map<u64, (T, u64)>,
    seen: Seq<(u64, T)>,
    now: u64,
)
    requires
        listed_in_order(rows),
        lists_all(rows, next_round(before, seen, now)),
    ensures
        rows.len() == 0 <==> seen.len() == 0,
        rows.len() > 0 ==> wait(now, rows.last().1) == longest_wait(before, seen, now),
{
    let next = next_round(before, seen, now);
    let order = |a: (T, u64), b: (T, u64)| in_order(a, b);
    lemma_finite_round(before, seen, now);
    law_longest_wait(before, seen, now);
    if seen.len() > 0 {
        let tid = choose|tid: u64| #[trigger]
            next.contains_key(tid) && wait(now, next[tid].1) == longest_wait(before, seen, now);
        lemma_listed(rows, next, next[tid]);
        let i = choose|i: int| 0 <= i < rows.len() && rows[i] == next[tid];
        if i < rows.len() - 1 {
            assert(order(rows[i], rows[rows.len() - 1]));
        }
    }
    if rows.len() > 0 {
        lemma_listed(rows, next, rows.last());
        assert(rows.contains(rows[rows.len() - 1]));
        let tid = choose|tid: u64| #[trigger]
            next.contains_key(tid) && next[tid] == rows.last();
        assert(was_seen(seen, tid));
    }
}

} // verus!
