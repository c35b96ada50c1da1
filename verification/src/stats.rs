//! Statistics derived from a sequence of transfers. Nothing here is stored:
//! every figure is a projection of the records it is computed from.

use vstd::prelude::*;
use crate::text::noted;
use crate::transaction::{Transaction, TxView, views};

verus! {

/// Whether `who` is the sender or the receiver of a record.
pub open spec fn mentions(record: TxView, who: Seq<char>) -> bool {
    record.from == who || record.to == who
}

/// The sum over all records of a per-record weight.
pub open spec fn tally(records: Seq<TxView>, weigh: spec_fn(TxView) -> nat) -> nat
    decreases records.len(),
{
    if records.len() == 0 {
        0
    } else {
        tally(records.drop_last(), weigh) + weigh(records.last())
    }
}

/// Total amount of all records.
pub open spec fn volume(records: Seq<TxView>) -> nat {
    tally(records, |t: TxView| t.amount as nat)
}

/// Total amount that `who` sent.
pub open spec fn sent_by(records: Seq<TxView>, who: Seq<char>) -> nat {
    tally(records, |t: TxView| if t.from == who { t.amount as nat } else { 0 })
}

/// Total amount that `who` received.
pub open spec fn received_by(records: Seq<TxView>, who: Seq<char>) -> nat {
    tally(records, |t: TxView| if t.to == who { t.amount as nat } else { 0 })
}

/// Number of records that `who` sent.
pub open spec fn sends_of(records: Seq<TxView>, who: Seq<char>) -> nat {
    tally(records, |t: TxView| if t.from == who { 1nat } else { 0 })
}

/// Number of records in which `who` is sender or receiver. A transfer to
/// oneself is one record and counts once.
pub open spec fn records_touching(records: Seq<TxView>, who: Seq<char>) -> nat {
    tally(records, |t: TxView| if mentions(t, who) { 1nat } else { 0 })
}

/// Appending a record adds its weight.
pub proof fn lemma_tally_push(records: Seq<TxView>, last: TxView, weigh: spec_fn(TxView) -> nat)
    ensures
        tally(records.push(last), weigh) == tally(records, weigh) + weigh(last),
{
    assert(records.push(last).drop_last() =~= records);
}

/// A tally is at most the number of records times the largest weight.
pub proof fn lemma_tally_bound(records: Seq<TxView>, weigh: spec_fn(TxView) -> nat, cap: nat)
    requires
        forall|t: TxView| records.contains(t) ==> #[trigger] weigh(t) <= cap,
    ensures
        tally(records, weigh) <= records.len() * cap,
    decreases records.len(),
{
    if records.len() > 0 {
        let front = records.drop_last();
        assert forall|t: TxView| front.contains(t) implies #[trigger] weigh(t) <= cap by {
            let i = choose|i: int| 0 <= i < front.len() && front[i] == t;
            assert(records[i] == t);
        }
        lemma_tally_bound(front, weigh, cap);
        assert(records.contains(records.last())) by {
            assert(records[records.len() - 1] == records.last());
        }
        assert(front.len() * cap + cap == records.len() * cap) by (nonlinear_arith)
            requires
                front.len() + 1 == records.len(),
        ;
    }
}

/// A signed quantity of minor units, held as sign and magnitude so that the
/// difference of any two totals fits.
#[derive(Clone, Copy, Debug, PartialEq, Eq, Structural)]
pub struct SignedAmount {
    /// Set where the value is below zero; never set on zero.
    pub negative: bool,
    /// Absolute value.
    pub magnitude: u128,
}

impl SignedAmount {
    /// The integer this stands for.
    pub open spec fn value(&self) -> int {
        if self.negative {
            -(self.magnitude as int)
        } else {
            self.magnitude as int
        }
    }

    /// `gained - lost`.
    pub fn difference(gained: u128, lost: u128) -> (d: SignedAmount)
        ensures
            d.value() == gained - lost,
            d.negative == (gained < lost),
    {
        if gained >= lost {
            SignedAmount { negative: false, magnitude: gained - lost }
        } else {
            SignedAmount { negative: true, magnitude: lost - gained }
        }
    }
}

/// Figures for one endpoint.
#[derive(Debug, PartialEq, Eq)]
pub struct EndpointStats {
    pub endpoint_id: String,
    /// Records counted for the endpoint; which ones depends on the query.
    pub transaction_count: u64,
    /// Total amount sent, in minor units.
    pub total_sent: u128,
    /// Total amount received, in minor units.
    pub total_received: u128,
    /// `total_received - total_sent`.
    pub balance_change: SignedAmount,
}

impl EndpointStats {
    /// Whether these are the figures of endpoint `who` with the given count
    /// and totals.
    pub open spec fn describes(&self, who: Seq<char>, count: nat, sent: nat, received: nat) -> bool {
        &&& self.endpoint_id@ == who
        &&& self.transaction_count == count
        &&& self.total_sent == sent
        &&& self.total_received == received
        &&& self.balance_change.value() == received - sent
        &&& self.balance_change.negative == (received < sent)
    }

    /// Figures of an endpoint that no record mentions.
    pub fn empty(endpoint_id: String) -> (stats: EndpointStats)
        ensures
            stats.describes(endpoint_id@, 0, 0, 0),
    {
        EndpointStats {
            endpoint_id,
            transaction_count: 0,
            total_sent: 0,
            total_received: 0,
            balance_change: SignedAmount { negative: false, magnitude: 0 },
        }
    }
}

impl Clone for EndpointStats {
    fn clone(&self) -> (copy: Self)
        ensures
            copy == *self,
    {
        EndpointStats {
            endpoint_id: self.endpoint_id.clone(),
            transaction_count: self.transaction_count,
            total_sent: self.total_sent,
            total_received: self.total_received,
            balance_change: self.balance_change,
        }
    }
}

/// The square of the largest 64-bit value still fits in 128 bits.
proof fn lemma_product_fits(count: nat, total: nat)
    requires
        count <= u64::MAX,
        total <= count * (u64::MAX as nat),
    ensures
        total <= u128::MAX,
        total + u64::MAX <= u128::MAX,
{
    assert(count * (u64::MAX as nat) <= (u64::MAX as nat) * (u64::MAX as nat)) by (nonlinear_arith)
        requires
            count <= u64::MAX,
    ;
    assert(0xffff_ffff_ffff_ffffnat * 0xffff_ffff_ffff_ffffnat + 0xffff_ffff_ffff_ffffnat
        <= 0xffff_ffff_ffff_ffff_ffff_ffff_ffff_ffffnat) by (nonlinear_arith);
}

/// Figures for one endpoint over the records that touch it: every record in
/// which it is sender or receiver counts once, whichever side it is on.
pub fn endpoint_stats(records: &Vec<Transaction>, endpoint_id: &String) -> (stats: EndpointStats)
    ensures
        stats.describes(
            endpoint_id@,
            records_touching(views(records@), endpoint_id@),
            sent_by(views(records@), endpoint_id@),
            received_by(views(records@), endpoint_id@),
        ),
{
    let ghost who = endpoint_id@;
    let ghost all = views(records@);
    let mut count: u64 = 0;
    let mut sent: u128 = 0;
    let mut received: u128 = 0;
    let mut i: usize = 0;
    while i < records.len()
        invariant
            i <= records.len(),
            who == endpoint_id@,
            all == views(records@),
            count == records_touching(all.take(i as int), who),
            sent == sent_by(all.take(i as int), who),
            received == received_by(all.take(i as int), who),
        decreases records.len() - i,
    {
        let record = &records[i];
        proof {
            let seen = all.take(i as int);
            assert(all.take(i + 1) =~= seen.push(record@));
            lemma_tally_push(seen, record@, |t: TxView| if mentions(t, who) { 1nat } else { 0 });
            lemma_tally_push(seen, record@, |t: TxView| if t.from == who { t.amount as nat } else { 0 });
            lemma_tally_push(seen, record@, |t: TxView| if t.to == who { t.amount as nat } else { 0 });
            lemma_tally_bound(seen, |t: TxView| if mentions(t, who) { 1nat } else { 0 }, 1);
            lemma_tally_bound(seen, |t: TxView| if t.from == who { t.amount as nat } else { 0 }, u64::MAX as nat);
            lemma_tally_bound(seen, |t: TxView| if t.to == who { t.amount as nat } else { 0 }, u64::MAX as nat);
            lemma_product_fits(seen.len(), sent as nat);
            lemma_product_fits(seen.len(), received as nat);
        }
        let is_sender = record.from == *endpoint_id;
        let is_receiver = record.to == *endpoint_id;
        if is_sender || is_receiver {
            count = count + 1;
        }
        if is_sender {
            sent = sent + record.amount as u128;
        }
        if is_receiver {
            received = received + record.amount as u128;
        }
        i = i + 1;
    }
    proof {
        assert(all.take(records.len() as int) =~= all);
    }
    EndpointStats {
        endpoint_id: endpoint_id.clone(),
        transaction_count: count,
        total_sent: sent,
        total_received: received,
        balance_change: SignedAmount::difference(received, sent),
    }
}

/// The endpoints that the records mention, each once, in the order in which
/// they are first mentioned; within one record the sender comes first.
pub open spec fn participants(records: Seq<TxView>) -> Seq<Seq<char>>
    decreases records.len(),
{
    if records.len() == 0 {
        Seq::empty()
    } else {
        noted(noted(participants(records.drop_last()), records.last().from), records.last().to)
    }
}

/// The endpoint names of a list of figures.
pub open spec fn ids_of(entries: Seq<EndpointStats>) -> Seq<Seq<char>> {
    entries.map_values(|e: EndpointStats| e.endpoint_id@)
}

/// `participants` names nobody twice.
pub proof fn lemma_participants_distinct(records: Seq<TxView>)
    ensures
        participants(records).no_duplicates(),
    decreases records.len(),
{
    if records.len() > 0 {
        lemma_participants_distinct(records.drop_last());
    }
}

/// `participants` names exactly the senders and receivers of the records.
pub proof fn lemma_participants_complete(records: Seq<TxView>, who: Seq<char>)
    ensures
        participants(records).contains(who) <==> exists|i: int|
            0 <= i < records.len() && mentions(#[trigger] records[i], who),
    decreases records.len(),
{
    if records.len() > 0 {
        let front = records.drop_last();
        let last = records.last();
        lemma_participants_complete(front, who);
        let a = participants(front);
        let b = noted(a, last.from);
        let c = noted(b, last.to);
        assert(b.contains(who) <==> a.contains(who) || last.from == who) by {
            if a.contains(who) {
                let j = choose|j: int| 0 <= j < a.len() && a[j] == who;
                assert(b[j] == who);
            }
            if last.from == who && !a.contains(who) {
                assert(b[a.len() as int] == who);
            }
        }
        assert(c.contains(who) <==> b.contains(who) || last.to == who) by {
            if b.contains(who) {
                let j = choose|j: int| 0 <= j < b.len() && b[j] == who;
                assert(c[j] == who);
            }
            if last.to == who && !b.contains(who) {
                assert(c[b.len() as int] == who);
            }
        }
        if participants(records).contains(who) {
            if mentions(last, who) {
                assert(mentions(records[records.len() - 1], who));
            } else {
                let i = choose|i: int| 0 <= i < front.len() && mentions(#[trigger] front[i], who);
                assert(mentions(records[i], who));
            }
        }
        if exists|i: int| 0 <= i < records.len() && mentions(#[trigger] records[i], who) {
            let i = choose|i: int| 0 <= i < records.len() && mentions(#[trigger] records[i], who);
            if i < front.len() {
                assert(mentions(front[i], who));
            } else {
                assert(records[i] == last);
            }
        }
    }
}

/// An endpoint that `participants` does not name has sent and received
/// nothing.
pub proof fn lemma_absent_is_idle(records: Seq<TxView>, who: Seq<char>)
    requires
        !participants(records).contains(who),
    ensures
        sends_of(records, who) == 0,
        records_touching(records, who) == 0,
        sent_by(records, who) == 0,
        received_by(records, who) == 0,
    decreases records.len(),
{
    if records.len() > 0 {
        let front = records.drop_last();
        let last = records.last();
        lemma_participants_complete(records, who);
        lemma_participants_complete(front, who);
        assert(records[records.len() - 1] == last);
        assert(mentions(last, who) ==> mentions(records[records.len() - 1], who));
        assert(!participants(front).contains(who)) by {
            if participants(front).contains(who) {
                let i = choose|i: int| 0 <= i < front.len() && mentions(#[trigger] front[i], who);
                assert(mentions(records[i], who));
            }
        }
        lemma_absent_is_idle(front, who);
    }
}

/// Figures over a whole log.
#[derive(Debug, PartialEq, Eq)]
pub struct TransactionStats {
    /// Number of records.
    pub total_transactions: u64,
    /// Sum of all amounts, in minor units.
    pub total_volume: u128,
    /// Whole minor units of the average amount; zero for no records.
    pub average_transaction: u128,
    /// What the whole part leaves over: the average is exactly
    /// `average_transaction + average_remainder / total_transactions` minor
    /// units. Below `total_transactions`; zero for no records.
    pub average_remainder: u128,
    /// One entry for each endpoint that the records mention.
    pub endpoints: Vec<EndpointStats>,
}

impl TransactionStats {
    /// Whether these are the figures of `records`. An endpoint's count here is
    /// the number of records it sent; records it only received add to its
    /// totals but not to its count.
    pub open spec fn summarizes(&self, records: Seq<TxView>) -> bool {
        &&& self.total_transactions == records.len()
        &&& self.total_volume == volume(records)
        &&& if records.len() == 0 {
            self.average_transaction == 0 && self.average_remainder == 0
        } else {
            &&& self.average_transaction * records.len() + self.average_remainder == volume(
                records,
            )
            &&& self.average_remainder < records.len()
        }
        &&& figures_of(self.endpoints@, records)
    }
}

/// Position of the figures of `who`, if the list has them.
fn find_entry(entries: &Vec<EndpointStats>, who: &String) -> (at: Option<usize>)
    ensures
        match at {
            Some(j) => j < entries.len() && ids_of(entries@)[j as int] == who@,
            None => !ids_of(entries@).contains(who@),
        },
{
    let mut j: usize = 0;
    while j < entries.len()
        invariant
            j <= entries.len(),
            forall|k: int| 0 <= k < j ==> ids_of(entries@)[k] != who@,
        decreases entries.len() - j,
    {
        if entries[j].endpoint_id == *who {
            return Some(j);
        }
        j = j + 1;
    }
    None
}

/// Whether `entries` holds, for each endpoint that `records` mention and in
/// the order of `participants`, the number of records it sent and its sent and
/// received totals.
pub open spec fn figures_of(entries: Seq<EndpointStats>, records: Seq<TxView>) -> bool {
    &&& ids_of(entries) == participants(records)
    &&& forall|j: int|
        0 <= j < entries.len() ==> (#[trigger] entries[j]).describes(
            participants(records)[j],
            sends_of(records, participants(records)[j]),
            sent_by(records, participants(records)[j]),
            received_by(records, participants(records)[j]),
        )
}

/// What the figures of `who` are once the sending side of `next` has been
/// counted on top of `seen`.
spec fn after_send(entry: EndpointStats, seen: Seq<TxView>, next: TxView, who: Seq<char>) -> bool {
    entry.describes(
        who,
        sends_of(seen, who) + if next.from == who { 1nat } else { 0 },
        sent_by(seen, who) + if next.from == who { next.amount as nat } else { 0 },
        received_by(seen, who),
    )
}

/// The figures between the two halves of counting `next`.
spec fn figures_midway(entries: Seq<EndpointStats>, seen: Seq<TxView>, next: TxView) -> bool {
    &&& ids_of(entries) == noted(participants(seen), next.from)
    &&& forall|j: int|
        0 <= j < entries.len() ==> after_send(
            #[trigger] entries[j],
            seen,
            next,
            noted(participants(seen), next.from)[j],
        )
}

/// Counts the sending side of `record`: one more record and `amount` more
/// sent for its sender.
fn count_sender(endpoints: &mut Vec<EndpointStats>, record: &Transaction, Ghost(seen): Ghost<Seq<TxView>>)
    requires
        figures_of(old(endpoints)@, seen),
        seen.len() < usize::MAX,
    ensures
        figures_midway(final(endpoints)@, seen, record@),
{
    let ghost who = record@.from;
    let ghost known = participants(seen);
    let ghost before = endpoints@;
    let amount: u128 = record.amount as u128;
    let at = find_entry(endpoints, &record.from);
    proof {
        lemma_tally_bound(seen, |t: TxView| if t.from == who { 1nat } else { 0 }, 1);
        lemma_tally_bound(seen, |t: TxView| if t.from == who { t.amount as nat } else { 0 }, u64::MAX as nat);
        lemma_product_fits(seen.len(), sent_by(seen, who));
        if at.is_none() {
            lemma_absent_is_idle(seen, who);
        }
        lemma_participants_distinct(seen);
    }
    match at {
        Some(j) => {
            let entry = &endpoints[j];
            let sent = entry.total_sent + amount;
            let updated = EndpointStats {
                endpoint_id: entry.endpoint_id.clone(),
                transaction_count: entry.transaction_count + 1,
                total_sent: sent,
                total_received: entry.total_received,
                balance_change: SignedAmount::difference(entry.total_received, sent),
            };
            endpoints.set(j, updated);
        },
        None => {
            endpoints.push(
                EndpointStats {
                    endpoint_id: record.from.clone(),
                    transaction_count: 1,
                    total_sent: amount,
                    total_received: 0,
                    balance_change: SignedAmount::difference(0, amount),
                },
            );
        },
    }
    proof {
        let halfway = noted(known, who);
        assert(ids_of(endpoints@) =~= halfway);
        assert forall|j: int| 0 <= j < endpoints@.len() implies after_send(
            #[trigger] endpoints@[j],
            seen,
            record@,
            halfway[j],
        ) by {
            if j < before.len() {
                assert(before[j].describes(
                    known[j],
                    sends_of(seen, known[j]),
                    sent_by(seen, known[j]),
                    received_by(seen, known[j]),
                ));
            }
        }
    }
}

/// Counts the receiving side of `record`: `amount` more received for its
/// receiver, whose count stays as it is.
fn count_receiver(endpoints: &mut Vec<EndpointStats>, record: &Transaction, Ghost(seen): Ghost<Seq<TxView>>)
    requires
        figures_midway(old(endpoints)@, seen, record@),
        seen.len() < usize::MAX,
    ensures
        figures_of(final(endpoints)@, seen.push(record@)),
{
    let ghost next = record@;
    let ghost who = next.to;
    let ghost known = participants(seen);
    let ghost halfway = noted(known, next.from);
    let ghost mid = endpoints@;
    let ghost after = seen.push(next);
    let amount: u128 = record.amount as u128;
    let at = find_entry(endpoints, &record.to);
    proof {
        assert(after.drop_last() =~= seen);
        lemma_tally_bound(seen, |t: TxView| if t.to == who { t.amount as nat } else { 0 }, u64::MAX as nat);
        lemma_product_fits(seen.len(), received_by(seen, who));
        assert(halfway.contains(who) <==> known.contains(who) || next.from == who) by {
            if known.contains(who) {
                let k = choose|k: int| 0 <= k < known.len() && known[k] == who;
                assert(halfway[k] == who);
            }
            if next.from == who && !known.contains(who) {
                assert(halfway[known.len() as int] == who);
            }
        }
        if at.is_none() {
            lemma_absent_is_idle(seen, who);
        }
        lemma_participants_distinct(after);
        match at {
            Some(j) => {
                assert(after_send(mid[j as int], seen, next, halfway[j as int]));
            },
            None => {},
        }
    }
    match at {
        Some(j) => {
            let entry = &endpoints[j];
            let received = entry.total_received + amount;
            let updated = EndpointStats {
                endpoint_id: entry.endpoint_id.clone(),
                transaction_count: entry.transaction_count,
                total_sent: entry.total_sent,
                total_received: received,
                balance_change: SignedAmount::difference(received, entry.total_sent),
            };
            endpoints.set(j, updated);
        },
        None => {
            endpoints.push(
                EndpointStats {
                    endpoint_id: record.to.clone(),
                    transaction_count: 0,
                    total_sent: 0,
                    total_received: amount,
                    balance_change: SignedAmount::difference(amount, 0),
                },
            );
        },
    }
    proof {
        let named = participants(after);
        assert(named == noted(halfway, who));
        assert(ids_of(endpoints@) =~= named);
        assert forall|j: int| 0 <= j < endpoints@.len() implies (#[trigger] endpoints@[j]).describes(
            named[j],
            sends_of(after, named[j]),
            sent_by(after, named[j]),
            received_by(after, named[j]),
        ) by {
            let name = named[j];
            lemma_tally_push(seen, next, |t: TxView| if t.from == name { 1nat } else { 0 });
            lemma_tally_push(seen, next, |t: TxView| if t.from == name { t.amount as nat } else { 0 });
            lemma_tally_push(seen, next, |t: TxView| if t.to == name { t.amount as nat } else { 0 });
            if j < mid.len() {
                assert(halfway[j] == name);
                assert(after_send(mid[j], seen, next, name));
            }
        }
    }
}

/// Figures over all records: count, volume, the exact average as whole part
/// and remainder, and for each endpoint that the records mention its sent and
/// received totals. An endpoint's
/// `transaction_count` is the number of records it sent.
pub fn global_stats(records: &Vec<Transaction>) -> (stats: TransactionStats)
    ensures
        stats.summarizes(views(records@)),
{
    let ghost all = views(records@);
    let mut endpoints: Vec<EndpointStats> = Vec::new();
    let mut total: u128 = 0;
    let mut i: usize = 0;
    proof {
        assert(ids_of(endpoints@) =~= participants(all.take(0)));
    }
    while i < records.len()
        invariant
            i <= records.len(),
            all == views(records@),
            total == volume(all.take(i as int)),
            figures_of(endpoints@, all.take(i as int)),
        decreases records.len() - i,
    {
        let record = &records[i];
        let ghost seen = all.take(i as int);
        proof {
            assert(all.take(i + 1) =~= seen.push(record@));
            lemma_tally_push(seen, record@, |t: TxView| t.amount as nat);
            lemma_tally_bound(seen, |t: TxView| t.amount as nat, u64::MAX as nat);
            lemma_product_fits(seen.len(), total as nat);
        }
        total = total + record.amount as u128;
        count_sender(&mut endpoints, record, Ghost(seen));
        count_receiver(&mut endpoints, record, Ghost(seen));
        i = i + 1;
    }
    proof {
        assert(all.take(records.len() as int) =~= all);
    }
    let count: u64 = records.len() as u64;
    let (average, remainder): (u128, u128) = if count == 0 {
        (0, 0)
    } else {
        proof {
            vstd::arithmetic::div_mod::lemma_fundamental_div_mod(total as int, count as int);
            vstd::arithmetic::div_mod::lemma_mod_bound(total as int, count as int);
            assert((count as int) * (total as int / count as int) == (total as int / count as int)
                * (count as int)) by (nonlinear_arith);
        }
        (total / (count as u128), total % (count as u128))
    };
    TransactionStats {
        total_transactions: count,
        total_volume: total,
        average_transaction: average,
        average_remainder: remainder,
        endpoints,
    }
}

} // verus!
