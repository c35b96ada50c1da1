//! Newest-first order for listings: by timestamp, descending, records with
//! the same timestamp in the order in which they came.

use vstd::prelude::*;
use crate::transaction::{ids, views, Transaction, TxView};

verus! {

/// Whether no record comes before a newer one.
pub open spec fn is_newest_first(records: Seq<TxView>) -> bool {
    forall|i: int, j: int|
        0 <= i < j < records.len() ==> (#[trigger] records[i]).timestamp >= (#[trigger] records[j]).timestamp
}

/// Where a record with this timestamp goes in a newest-first sequence: behind
/// every record that is at least as new, which is before the first that is
/// older.
pub open spec fn slot(sorted: Seq<TxView>, timestamp: u64) -> int
    decreases sorted.len(),
{
    if sorted.len() == 0 {
        0
    } else if sorted.first().timestamp < timestamp {
        0
    } else {
        1 + slot(sorted.drop_first(), timestamp)
    }
}

/// The records in newest-first order.
pub open spec fn newest_first(records: Seq<TxView>) -> Seq<TxView>
    decreases records.len(),
{
    if records.len() == 0 {
        Seq::empty()
    } else {
        let sorted = newest_first(records.drop_last());
        sorted.insert(slot(sorted, records.last().timestamp), records.last())
    }
}

/// The slot is the one position with nothing older before it and nothing as
/// new at it.
pub proof fn lemma_slot_is(sorted: Seq<TxView>, timestamp: u64, at: int)
    requires
        0 <= at <= sorted.len(),
        forall|k: int| 0 <= k < at ==> (#[trigger] sorted[k]).timestamp >= timestamp,
        at < sorted.len() ==> sorted[at].timestamp < timestamp,
    ensures
        slot(sorted, timestamp) == at,
    decreases sorted.len(),
{
    if sorted.len() > 0 && at > 0 {
        let rest = sorted.drop_first();
        assert(sorted[0].timestamp >= timestamp);
        assert forall|k: int| 0 <= k < at - 1 implies (#[trigger] rest[k]).timestamp >= timestamp by {
            assert(rest[k] == sorted[k + 1]);
        }
        if at - 1 < rest.len() {
            assert(rest[at - 1] == sorted[at]);
        }
        lemma_slot_is(rest, timestamp, at - 1);
    }
}

/// What holds at the slot.
pub proof fn lemma_slot_bounds(sorted: Seq<TxView>, timestamp: u64)
    ensures
        0 <= slot(sorted, timestamp) <= sorted.len(),
        forall|k: int| 0 <= k < slot(sorted, timestamp) ==> (#[trigger] sorted[k]).timestamp >= timestamp,
        slot(sorted, timestamp) < sorted.len() ==> sorted[slot(sorted, timestamp)].timestamp
            < timestamp,
    decreases sorted.len(),
{
    if sorted.len() > 0 && sorted.first().timestamp >= timestamp {
        let rest = sorted.drop_first();
        lemma_slot_bounds(rest, timestamp);
        let inner = slot(rest, timestamp);
        assert forall|k: int| 0 <= k < inner + 1 implies (#[trigger] sorted[k]).timestamp >= timestamp by {
            if k > 0 {
                assert(rest[k - 1] == sorted[k]);
            }
        }
        if inner < rest.len() {
            assert(rest[inner] == sorted[inner + 1]);
        }
    }
}

/// `newest_first` keeps every record and puts none before a newer one.
pub proof fn lemma_newest_first_sorted(records: Seq<TxView>)
    ensures
        newest_first(records).len() == records.len(),
        is_newest_first(newest_first(records)),
    decreases records.len(),
{
    if records.len() > 0 {
        let front = records.drop_last();
        let last = records.last();
        lemma_newest_first_sorted(front);
        let sorted = newest_first(front);
        let at = slot(sorted, last.timestamp);
        lemma_slot_bounds(sorted, last.timestamp);
        let placed = sorted.insert(at, last);
        assert forall|i: int, j: int| 0 <= i < j < placed.len() implies (#[trigger] placed[i]).timestamp
            >= (#[trigger] placed[j]).timestamp by {
            let a = if i < at { sorted[i] } else if i == at { last } else { sorted[i - 1] };
            let b = if j < at { sorted[j] } else if j == at { last } else { sorted[j - 1] };
            assert(placed[i] == a);
            assert(placed[j] == b);
            if i < at && j > at {
                assert(sorted[i].timestamp >= sorted[j - 1].timestamp);
            }
            if i == at {
                assert(sorted[at].timestamp >= sorted[j - 1].timestamp || j - 1 == at);
            }
            if i > at {
                assert(sorted[i - 1].timestamp >= sorted[j - 1].timestamp);
            }
        }
    }
}

/// `newest_first` is stable: the records of any one timestamp come out in
/// the order in which they went in. With the order by timestamp this fixes
/// the whole result.
pub proof fn lemma_newest_first_stable(records: Seq<TxView>, timestamp: u64)
    ensures
        newest_first(records).filter(|t: TxView| t.timestamp == timestamp) == records.filter(
            |t: TxView| t.timestamp == timestamp,
        ),
    decreases records.len(),
{
    let same = |t: TxView| t.timestamp == timestamp;
    reveal(Seq::filter);
    if records.len() > 0 {
        let front = records.drop_last();
        let last = records.last();
        lemma_newest_first_stable(front, timestamp);
        lemma_newest_first_sorted(front);
        let sorted = newest_first(front);
        let at = slot(sorted, last.timestamp);
        lemma_slot_bounds(sorted, last.timestamp);
        let head = sorted.subrange(0, at);
        let tail = sorted.subrange(at, sorted.len() as int);
        assert(sorted =~= head + tail);
        assert(sorted.insert(at, last) =~= head.push(last) + tail);
        Seq::filter_distributes_over_add(head, tail, same);
        Seq::filter_distributes_over_add(head.push(last), tail, same);
        head.lemma_filter_push(last, same);
        if last.timestamp == timestamp {
            assert(tail.all(|x: TxView| !same(x))) by {
                assert forall|k: int| 0 <= k < tail.len() implies !same(#[trigger] tail[k]) by {
                    assert(tail[k] == sorted[at + k]);
                    assert(sorted[at].timestamp >= sorted[at + k].timestamp || k == 0);
                }
            }
            tail.lemma_all_neg_filter_empty(same);
            assert(tail.filter(same) =~= Seq::empty());
            assert(head.filter(same).push(last) + tail.filter(same) =~= (head.filter(same)
                + tail.filter(same)).push(last));
        }
    }
}

/// `newest_first` rearranges: every record comes out as often as it went in.
pub proof fn lemma_newest_first_permutes(records: Seq<TxView>)
    ensures
        newest_first(records).to_multiset() == records.to_multiset(),
    decreases records.len(),
{
    if records.len() > 0 {
        let front = records.drop_last();
        let last = records.last();
        lemma_newest_first_permutes(front);
        let sorted = newest_first(front);
        lemma_slot_bounds(sorted, last.timestamp);
        vstd::seq_lib::to_multiset_insert(sorted, slot(sorted, last.timestamp), last);
        vstd::seq_lib::to_multiset_build(front, last);
        assert(front.push(last) =~= records);
    } else {
        assert(newest_first(records) =~= records);
    }
}

/// `newest_first` of records with distinct identifiers has distinct
/// identifiers.
pub proof fn lemma_newest_first_distinct_ids(records: Seq<TxView>)
    requires
        ids(records).no_duplicates(),
    ensures
        ids(newest_first(records)).no_duplicates(),
    decreases records.len(),
{
    if records.len() > 0 {
        let front = records.drop_last();
        let last = records.last();
        assert forall|i: int, j: int| 0 <= i < front.len() && 0 <= j < front.len() && i != j implies ids(
            front,
        )[i] != ids(front)[j] by {
            assert(ids(records)[i] != ids(records)[j]);
        }
        lemma_newest_first_distinct_ids(front);
        lemma_newest_first_permutes(front);
        let sorted = newest_first(front);
        let at = slot(sorted, last.timestamp);
        lemma_slot_bounds(sorted, last.timestamp);
        let placed = sorted.insert(at, last);
        assert forall|k: int| 0 <= k < sorted.len() implies (#[trigger] sorted[k]).id != last.id by {
            assert(sorted.contains(sorted[k]));
            vstd::seq_lib::to_multiset_contains(sorted, sorted[k]);
            vstd::seq_lib::to_multiset_contains(front, sorted[k]);
            let m = choose|m: int| 0 <= m < front.len() && front[m] == sorted[k];
            assert(ids(records)[m] != ids(records)[records.len() - 1]);
        }
        assert forall|i: int, j: int| 0 <= i < placed.len() && 0 <= j < placed.len() && i != j implies ids(
            placed,
        )[i] != ids(placed)[j] by {
            let a = if i < at { i } else { i - 1 };
            let b = if j < at { j } else { j - 1 };
            if i != at && j != at {
                assert(placed[i] == sorted[a]);
                assert(placed[j] == sorted[b]);
                assert(ids(sorted)[a] != ids(sorted)[b]);
            } else if i == at {
                assert(placed[j] == sorted[b]);
            } else {
                assert(placed[i] == sorted[a]);
            }
        }
    }
}

/// Puts the records in newest-first order, in place.
pub fn sort_newest_first(items: &mut Vec<Transaction>)
    ensures
        views(final(items)@) == newest_first(views(old(items)@)),
{
    let ghost given = views(items@);
    let mut i: usize = 0;
    proof {
        assert(views(items@).take(0) =~= newest_first(given.take(0)));
    }
    while i < items.len()
        invariant
            i <= items.len(),
            items.len() == given.len(),
            views(items@).take(i as int) == newest_first(given.take(i as int)),
            views(items@).skip(i as int) == given.skip(i as int),
        decreases items.len() - i,
    {
        let ghost before = views(items@);
        let ghost sorted = before.take(i as int);
        proof {
            assert(before[i as int] == before.skip(i as int)[0]);
            assert(given[i as int] == given.skip(i as int)[0]);
        }
        let item = items.remove(i);
        proof {
            assert(views(items@) =~= before.remove(i as int));
            assert(views(items@).take(i as int) =~= sorted);
        }
        let mut at: usize = 0;
        while at < i && items[at].timestamp >= item.timestamp
            invariant
                at <= i,
                i <= items.len(),
                views(items@).take(i as int) == sorted,
                forall|k: int| 0 <= k < at ==> (#[trigger] sorted[k]).timestamp >= item.timestamp,
            decreases i - at,
        {
            proof {
                assert(sorted[at as int] == views(items@)[at as int]);
            }
            at = at + 1;
        }
        proof {
            if at < i {
                assert(sorted[at as int] == views(items@)[at as int]);
            }
            lemma_slot_is(sorted, item.timestamp, at as int);
        }
        let ghost removed = views(items@);
        items.insert(at, item);
        proof {
            let placed = views(items@);
            assert(placed =~= removed.insert(at as int, item@));
            assert(placed.take(i + 1) =~= sorted.insert(at as int, item@));
            assert(placed.skip(i + 1) =~= given.skip(i + 1)) by {
                let shown = placed.skip(i + 1);
                let wanted = given.skip(i + 1);
                assert forall|k: int| 0 <= k < given.len() - i - 1 implies #[trigger] shown[k]
                    == wanted[k] by {
                    assert(placed[i + 1 + k] == removed[i + k]);
                    assert(removed[i + k] == before[i + k + 1]);
                    assert(before.skip(i as int)[k + 1] == given.skip(i as int)[k + 1]);
                }
            }
            assert(given.take(i + 1).drop_last() =~= given.take(i as int));
            assert(given.take(i + 1).last() == item@);
        }
        i = i + 1;
    }
    proof {
        assert(views(items@).take(items.len() as int) =~= views(items@));
        assert(given.take(items.len() as int) =~= given);
    }
}

} // verus!
