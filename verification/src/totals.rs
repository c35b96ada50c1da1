//! The figures of all endpoints together: what they add up to.
//!
//! Every record has one sender and one receiver, so over all endpoints the
//! sent totals, and likewise the received totals, add up to the volume, the
//! counts of sent records to the number of records, and the balance changes
//! to zero.

use vstd::prelude::*;
use crate::stats::{
    figures_of,
    lemma_participants_complete,
    lemma_participants_distinct,
    mentions,
    participants,
    received_by,
    sends_of,
    sent_by,
    tally,
    volume,
    EndpointStats,
};
use crate::transaction::TxView;

verus! {

/// The sum over all names of a per-name figure.
pub open spec fn sum_names(names: Seq<Seq<char>>, figure: spec_fn(Seq<char>) -> int) -> int
    decreases names.len(),
{
    if names.len() == 0 {
        0
    } else {
        sum_names(names.drop_last(), figure) + figure(names.last())
    }
}

/// The sum over all entries of a per-entry figure.
pub open spec fn sum_entries(entries: Seq<EndpointStats>, figure: spec_fn(EndpointStats) -> int) -> int
    decreases entries.len(),
{
    if entries.len() == 0 {
        0
    } else {
        sum_entries(entries.drop_last(), figure) + figure(entries.last())
    }
}

/// Figures that agree on every name have the same sum.
proof fn lemma_sum_names_same(names: Seq<Seq<char>>, f: spec_fn(Seq<char>) -> int, g: spec_fn(Seq<char>) -> int)
    requires
        forall|i: int| 0 <= i < names.len() ==> f(#[trigger] names[i]) == g(names[i]),
    ensures
        sum_names(names, f) == sum_names(names, g),
    decreases names.len(),
{
    if names.len() > 0 {
        let front = names.drop_last();
        assert forall|i: int| 0 <= i < front.len() implies f(#[trigger] front[i]) == g(front[i]) by {
            assert(front[i] == names[i]);
        }
        lemma_sum_names_same(front, f, g);
        assert(names.last() == names[names.len() - 1]);
    }
}

/// The sum of a figure that is the sum of two others.
proof fn lemma_sum_names_split(
    names: Seq<Seq<char>>,
    f: spec_fn(Seq<char>) -> int,
    a: spec_fn(Seq<char>) -> int,
    b: spec_fn(Seq<char>) -> int,
)
    requires
        forall|i: int| 0 <= i < names.len() ==> f(#[trigger] names[i]) == a(names[i]) + b(names[i]),
    ensures
        sum_names(names, f) == sum_names(names, a) + sum_names(names, b),
    decreases names.len(),
{
    if names.len() > 0 {
        let front = names.drop_last();
        assert forall|i: int| 0 <= i < front.len() implies f(#[trigger] front[i]) == a(front[i]) + b(
            front[i],
        ) by {
            assert(front[i] == names[i]);
        }
        lemma_sum_names_split(front, f, a, b);
        assert(names.last() == names[names.len() - 1]);
    }
}

/// The sum of a figure that is `value` at one name and zero elsewhere, over
/// names without repetition.
proof fn lemma_sum_names_single(names: Seq<Seq<char>>, f: spec_fn(Seq<char>) -> int, at: Seq<char>, value: int)
    requires
        names.no_duplicates(),
        forall|i: int|
            0 <= i < names.len() ==> f(#[trigger] names[i]) == if names[i] == at {
                value
            } else {
                0
            },
    ensures
        sum_names(names, f) == if names.contains(at) {
            value
        } else {
            0
        },
    decreases names.len(),
{
    if names.len() > 0 {
        let front = names.drop_last();
        let last = names[names.len() - 1];
        assert forall|i: int| 0 <= i < front.len() implies f(#[trigger] front[i]) == if front[i]
            == at {
            value
        } else {
            0
        } by {
            assert(front[i] == names[i]);
        }
        assert forall|i: int, j: int| 0 <= i < front.len() && 0 <= j < front.len() && i != j implies front[i]
            != front[j] by {
            assert(names[i] != names[j]);
        }
        lemma_sum_names_single(front, f, at, value);
        if front.contains(at) {
            let i = choose|i: int| 0 <= i < front.len() && front[i] == at;
            assert(names[i] == at);
            assert(names[i] != last);
        } else if last != at {
            if names.contains(at) {
                let i = choose|i: int| 0 <= i < names.len() && names[i] == at;
                assert(front[i] == at);
            }
        }
    }
}

/// What falls to `who` of the total weight of the records, each record's
/// weight going to the name that `key` gives it.
pub open spec fn share(
    records: Seq<TxView>,
    key: spec_fn(TxView) -> Seq<char>,
    weight: spec_fn(TxView) -> nat,
    who: Seq<char>,
) -> int {
    tally(records, |t: TxView| if key(t) == who { weight(t) } else { 0 }) as int
}

/// Over names without repetition that hold every record's key, the shares
/// add up to the total weight.
proof fn lemma_shares_add_up(
    records: Seq<TxView>,
    names: Seq<Seq<char>>,
    key: spec_fn(TxView) -> Seq<char>,
    weight: spec_fn(TxView) -> nat,
)
    requires
        names.no_duplicates(),
        forall|i: int| 0 <= i < records.len() ==> names.contains(key(#[trigger] records[i])),
    ensures
        sum_names(names, |w: Seq<char>| share(records, key, weight, w)) == tally(records, weight),
    decreases records.len(),
{
    let whole = |w: Seq<char>| share(records, key, weight, w);
    if records.len() == 0 {
        lemma_sum_names_single(names, whole, Seq::empty(), 0);
    } else {
        let front = records.drop_last();
        let last = records[records.len() - 1];
        let before = |w: Seq<char>| share(front, key, weight, w);
        let added = |w: Seq<char>| if w == key(last) { weight(last) as int } else { 0 };
        assert forall|i: int| 0 <= i < front.len() implies names.contains(key(#[trigger] front[i])) by {
            assert(front[i] == records[i]);
        }
        lemma_shares_add_up(front, names, key, weight);
        lemma_sum_names_split(names, whole, before, added);
        lemma_sum_names_single(names, added, key(last), weight(last) as int);
    }
}

/// A record's sender.
pub open spec fn sender_of() -> spec_fn(TxView) -> Seq<char> {
    |t: TxView| t.from
}

/// A record's receiver.
pub open spec fn receiver_of() -> spec_fn(TxView) -> Seq<char> {
    |t: TxView| t.to
}

/// A record's amount.
pub open spec fn amount_of() -> spec_fn(TxView) -> nat {
    |t: TxView| t.amount as nat
}

/// One for each record.
pub open spec fn one_each() -> spec_fn(TxView) -> nat {
    |t: TxView| 1nat
}

/// The shares by sender and by receiver are the totals and the count that
/// the figures of an endpoint hold.
proof fn lemma_shares_are_figures(records: Seq<TxView>, who: Seq<char>)
    ensures
        share(records, sender_of(), amount_of(), who) == sent_by(records, who),
        share(records, receiver_of(), amount_of(), who) == received_by(records, who),
        share(records, sender_of(), one_each(), who) == sends_of(records, who),
        tally(records, amount_of()) == volume(records),
        tally(records, one_each()) == records.len(),
    decreases records.len(),
{
    if records.len() > 0 {
        lemma_shares_are_figures(records.drop_last(), who);
    }
}

/// The sum over entries is the sum over their names of a figure that agrees
/// with the entries' figure, entry by entry.
proof fn lemma_sum_entries_by_name(
    entries: Seq<EndpointStats>,
    names: Seq<Seq<char>>,
    of_entry: spec_fn(EndpointStats) -> int,
    of_name: spec_fn(Seq<char>) -> int,
)
    requires
        entries.len() == names.len(),
        forall|j: int| 0 <= j < entries.len() ==> of_entry(#[trigger] entries[j]) == of_name(names[j]),
    ensures
        sum_entries(entries, of_entry) == sum_names(names, of_name),
    decreases entries.len(),
{
    if entries.len() > 0 {
        let front = entries.drop_last();
        assert forall|j: int| 0 <= j < front.len() implies of_entry(#[trigger] front[j]) == of_name(
            names.drop_last()[j],
        ) by {
            assert(front[j] == entries[j]);
        }
        lemma_sum_entries_by_name(front, names.drop_last(), of_entry, of_name);
        assert(entries.last() == entries[entries.len() - 1]);
    }
}

/// Over all endpoints that the records mention, the amounts sent add up to
/// the volume, and so do the amounts received; the numbers of records sent
/// add up to the number of records.
pub proof fn lemma_endpoint_totals(records: Seq<TxView>)
    ensures
        sum_names(participants(records), |w: Seq<char>| sent_by(records, w) as int) == volume(records),
        sum_names(participants(records), |w: Seq<char>| received_by(records, w) as int) == volume(
            records,
        ),
        sum_names(participants(records), |w: Seq<char>| sends_of(records, w) as int)
            == records.len(),
{
    let names = participants(records);
    lemma_participants_distinct(records);
    assert forall|i: int| 0 <= i < records.len() implies names.contains(
        sender_of()(#[trigger] records[i]),
    ) && names.contains(receiver_of()(records[i])) by {
        assert(mentions(records[i], records[i].from));
        assert(mentions(records[i], records[i].to));
        lemma_participants_complete(records, records[i].from);
        lemma_participants_complete(records, records[i].to);
    }
    lemma_shares_add_up(records, names, sender_of(), amount_of());
    lemma_shares_add_up(records, names, receiver_of(), amount_of());
    lemma_shares_add_up(records, names, sender_of(), one_each());
    assert forall|i: int| 0 <= i < names.len() implies share(
        records,
        sender_of(),
        amount_of(),
        #[trigger] names[i],
    ) == sent_by(records, names[i]) && share(records, receiver_of(), amount_of(), names[i])
        == received_by(records, names[i]) && share(records, sender_of(), one_each(), names[i])
        == sends_of(records, names[i]) by {
        lemma_shares_are_figures(records, names[i]);
    }
    lemma_shares_are_figures(records, Seq::empty());
    lemma_sum_names_same(
        names,
        |w: Seq<char>| share(records, sender_of(), amount_of(), w),
        |w: Seq<char>| sent_by(records, w) as int,
    );
    lemma_sum_names_same(
        names,
        |w: Seq<char>| share(records, receiver_of(), amount_of(), w),
        |w: Seq<char>| received_by(records, w) as int,
    );
    lemma_sum_names_same(
        names,
        |w: Seq<char>| share(records, sender_of(), one_each(), w),
        |w: Seq<char>| sends_of(records, w) as int,
    );
}

/// The figures of all endpoints of a log add up: sent totals and received
/// totals each to the volume, counts to the number of records, and balance
/// changes to zero.
pub proof fn lemma_figures_add_up(entries: Seq<EndpointStats>, records: Seq<TxView>)
    requires
        figures_of(entries, records),
    ensures
        sum_entries(entries, |e: EndpointStats| e.total_sent as int) == volume(records),
        sum_entries(entries, |e: EndpointStats| e.total_received as int) == volume(records),
        sum_entries(entries, |e: EndpointStats| e.transaction_count as int) == records.len(),
        sum_entries(entries, |e: EndpointStats| e.balance_change.value()) == 0,
{
    let names = participants(records);
    let sent = |w: Seq<char>| sent_by(records, w) as int;
    let received = |w: Seq<char>| received_by(records, w) as int;
    let sends = |w: Seq<char>| sends_of(records, w) as int;
    let change = |w: Seq<char>| received_by(records, w) - sent_by(records, w);
    lemma_endpoint_totals(records);
    assert(entries.len() == names.len()) by {
        assert(crate::stats::ids_of(entries).len() == names.len());
    }
    lemma_sum_entries_by_name(entries, names, |e: EndpointStats| e.total_sent as int, sent);
    lemma_sum_entries_by_name(entries, names, |e: EndpointStats| e.total_received as int, received);
    lemma_sum_entries_by_name(entries, names, |e: EndpointStats| e.transaction_count as int, sends);
    lemma_sum_entries_by_name(entries, names, |e: EndpointStats| e.balance_change.value(), change);
    lemma_sum_names_split(names, received, change, sent);
}

} // verus!
