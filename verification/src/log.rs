//! The transaction log: an append-only record of transfers, one per
//! identifier, with the queries that read it.
//!
//! Identifiers are kept in canonical spelling, so any accepted spelling of an
//! identifier finds the record. Appending under an identifier that is already
//! on record replaces that record where it stands.

use vstd::prelude::*;
use vstd::string::*;
use crate::ident::{canonical_id, hyphenated, parsed_uuid};
use crate::listing::{
    is_newest_first,
    lemma_newest_first_distinct_ids,
    lemma_newest_first_permutes,
    lemma_newest_first_sorted,
    newest_first,
    sort_newest_first,
};
use crate::stats::{
    endpoint_stats,
    global_stats,
    mentions,
    received_by,
    records_touching,
    sent_by,
    EndpointStats,
    TransactionStats,
};
use crate::text::text_of;
use crate::transaction::{ids, remember, remembered, views, Transaction, TxView};

verus! {

/// Why a request to the log failed.
#[derive(Clone, Copy, Debug, PartialEq, Eq, Structural)]
pub enum LogError {
    /// The identifier is not well formed.
    InvalidId,
    /// No record has the identifier.
    NotFound,
    /// The store behind the log could not be reached.
    StoreUnavailable,
}

/// Status of a successful read.
pub const STATUS_OK: u16 = 200;

/// Status of a successful append.
pub const STATUS_CREATED: u16 = 201;

/// The response status that reports an error.
pub open spec fn status_of(error: LogError) -> u16 {
    match error {
        LogError::InvalidId => 400,
        LogError::NotFound => 404,
        LogError::StoreUnavailable => 500,
    }
}

impl LogError {
    /// The response status that reports this error.
    pub fn status_code(&self) -> (status: u16)
        ensures
            status == status_of(*self),
    {
        match self {
            LogError::InvalidId => 400,
            LogError::NotFound => 404,
            LogError::StoreUnavailable => 500,
        }
    }
}

/// Largest listing returned when the request names no limit.
pub const DEFAULT_LIMIT: u32 = 100;

/// Which records a listing shows.
#[derive(Debug, PartialEq, Eq)]
pub struct ListFilter {
    /// Show only records that this endpoint sent or received.
    pub endpoint: Option<String>,
    /// Show at most this many records.
    pub limit: u32,
}

/// The canonical spelling of an identifier text, `None` where the text is no
/// identifier.
pub open spec fn canonical_form(text: Seq<char>) -> Option<Seq<char>> {
    match parsed_uuid(text) {
        Some(key) => Some(hyphenated(key)),
        None => None,
    }
}

/// Whether a listing for `endpoint` shows the record.
pub open spec fn in_scope(record: TxView, endpoint: Option<Seq<char>>) -> bool {
    match endpoint {
        Some(who) => mentions(record, who),
        None => true,
    }
}

/// The records in scope, in log order.
pub open spec fn matching(records: Seq<TxView>, endpoint: Option<Seq<char>>) -> Seq<TxView> {
    records.filter(|t: TxView| in_scope(t, endpoint))
}

/// The first `limit` records in scope, in log order.
pub open spec fn selected(records: Seq<TxView>, endpoint: Option<Seq<char>>, limit: nat) -> Seq<TxView> {
    let all = matching(records, endpoint);
    if all.len() <= limit {
        all
    } else {
        all.take(limit as int)
    }
}

/// A listing: the first `limit` records in scope, newest first.
pub open spec fn listed(records: Seq<TxView>, endpoint: Option<Seq<char>>, limit: nat) -> Seq<TxView> {
    newest_first(selected(records, endpoint, limit))
}

/// A listing shows at most `limit` records, each of them a record of the log
/// that is in scope, and none before a newer one.
pub proof fn lemma_listing(records: Seq<TxView>, endpoint: Option<Seq<char>>, limit: nat)
    ensures
        listed(records, endpoint, limit).len() <= limit,
        listed(records, endpoint, limit).len() <= records.len(),
        is_newest_first(listed(records, endpoint, limit)),
        forall|i: int|
            0 <= i < listed(records, endpoint, limit).len() ==> {
                &&& in_scope(#[trigger] listed(records, endpoint, limit)[i], endpoint)
                &&& records.contains(listed(records, endpoint, limit)[i])
            },
{
    let shown = |t: TxView| in_scope(t, endpoint);
    let all = matching(records, endpoint);
    let picked = selected(records, endpoint, limit);
    let page = listed(records, endpoint, limit);
    records.lemma_filter_len(shown);
    lemma_newest_first_sorted(picked);
    lemma_newest_first_permutes(picked);
    assert forall|i: int| 0 <= i < page.len() implies in_scope(#[trigger] page[i], endpoint)
        && records.contains(page[i]) by {
        let t = page[i];
        assert(page.contains(t));
        vstd::seq_lib::to_multiset_contains(page, t);
        vstd::seq_lib::to_multiset_contains(picked, t);
        let k = choose|k: int| 0 <= k < picked.len() && picked[k] == t;
        assert(all[k] == t);
        records.lemma_filter_pred(shown, k);
        assert(all.contains(t));
        records.lemma_filter_contains_rev(shown, t);
    }
}

/// The records in scope of records with distinct identifiers have distinct
/// identifiers.
pub proof fn lemma_matching_distinct(records: Seq<TxView>, endpoint: Option<Seq<char>>)
    requires
        ids(records).no_duplicates(),
    ensures
        ids(matching(records, endpoint)).no_duplicates(),
    decreases records.len(),
{
    reveal(Seq::filter);
    let shown = |t: TxView| in_scope(t, endpoint);
    if records.len() > 0 {
        let front = records.drop_last();
        let last = records.last();
        assert forall|i: int, j: int| 0 <= i < front.len() && 0 <= j < front.len() && i != j implies ids(
            front,
        )[i] != ids(front)[j] by {
            assert(ids(records)[i] != ids(records)[j]);
        }
        lemma_matching_distinct(front, endpoint);
        let kept = front.filter(shown);
        if shown(last) {
            let all = kept.push(last);
            assert forall|i: int, j: int| 0 <= i < all.len() && 0 <= j < all.len() && i != j implies ids(
                all,
            )[i] != ids(all)[j] by {
                if i < kept.len() && j < kept.len() {
                    assert(ids(kept)[i] != ids(kept)[j]);
                } else {
                    let k = if i < kept.len() { i } else { j };
                    assert(kept.contains(kept[k]));
                    front.lemma_filter_contains_rev(shown, kept[k]);
                    let m = choose|m: int| 0 <= m < front.len() && front[m] == kept[k];
                    assert(ids(records)[m] != ids(records)[records.len() - 1]);
                }
            }
        }
    }
}

/// No identifier occurs twice in a listing of a log that holds none twice.
pub proof fn lemma_listing_distinct(records: Seq<TxView>, endpoint: Option<Seq<char>>, limit: nat)
    requires
        ids(records).no_duplicates(),
    ensures
        ids(listed(records, endpoint, limit)).no_duplicates(),
{
    let all = matching(records, endpoint);
    let picked = selected(records, endpoint, limit);
    lemma_matching_distinct(records, endpoint);
    assert forall|i: int, j: int| 0 <= i < picked.len() && 0 <= j < picked.len() && i != j implies ids(
        picked,
    )[i] != ids(picked)[j] by {
        assert(ids(all)[i] != ids(all)[j]);
    }
    lemma_newest_first_distinct_ids(picked);
}

/// The answer to a lookup by identifier text.
pub open spec fn found(records: Seq<TxView>, id: Seq<char>) -> Result<TxView, LogError> {
    match canonical_form(id) {
        None => Err(LogError::InvalidId),
        Some(canonical) => if ids(records).contains(canonical) {
            Ok(records[ids(records).index_of(canonical)])
        } else {
            Err(LogError::NotFound)
        },
    }
}

/// The record that the log keeps for `tx`: the same transfer under the
/// canonical spelling of its identifier.
pub open spec fn kept(tx: TxView, canonical: Seq<char>) -> TxView {
    TxView { id: canonical, ..tx }
}

/// The log after `tx` was offered to it: unchanged where the identifier is
/// malformed, and otherwise with the kept record in the place of the one
/// with that identifier, or at the end if there was none.
pub open spec fn appended(records: Seq<TxView>, tx: TxView) -> Seq<TxView> {
    match canonical_form(tx.id) {
        Some(canonical) => remembered(records, kept(tx, canonical)),
        None => records,
    }
}

/// The log that holds the rows fetched from a store: each row appended in
/// turn, a row with a malformed identifier passed over.
pub open spec fn loaded(rows: Seq<TxView>) -> Seq<TxView>
    decreases rows.len(),
{
    if rows.len() == 0 {
        Seq::empty()
    } else {
        appended(loaded(rows.drop_last()), rows.last())
    }
}

/// What a store handed back when asked for rows.
#[derive(Debug)]
pub enum Fetched {
    /// The rows, in the order in which the store gave them.
    Rows(Vec<Transaction>),
    /// The store could not be reached.
    Unreachable,
}

/// The record that the log would keep for a transfer: the transfer under the
/// canonical spelling of its identifier, or `InvalidId` where the identifier
/// is malformed.
pub fn prepare(tx: Transaction) -> (outcome: Result<Transaction, LogError>)
    ensures
        match outcome {
            Ok(record) => {
                &&& canonical_form(tx@.id).is_some()
                &&& record@ == kept(tx@, canonical_form(tx@.id).unwrap())
                &&& canonical_form(record@.id) == Some(record@.id)
            },
            Err(error) => canonical_form(tx@.id).is_none() && error == LogError::InvalidId,
        },
{
    match canonical_id(tx.id.as_str()) {
        None => Err(LogError::InvalidId),
        Some(canonical) => Ok(
            Transaction {
                id: canonical,
                from: tx.from,
                to: tx.to,
                amount: tx.amount,
                timestamp: tx.timestamp,
                signature: tx.signature,
                status: tx.status,
            },
        ),
    }
}

/// Copies the first `limit` records in scope.
fn select(records: &Vec<Transaction>, filter: &ListFilter) -> (picked: Vec<Transaction>)
    ensures
        views(picked@) == selected(views(records@), text_of(filter.endpoint), filter.limit as nat),
{
    let ghost all = views(records@);
    let ghost endpoint = text_of(filter.endpoint);
    let ghost shown = |t: TxView| in_scope(t, endpoint);
    let limit = filter.limit as usize;
    let mut picked: Vec<Transaction> = Vec::new();
    let mut i: usize = 0;
    proof {
        reveal(Seq::filter);
        assert(views(picked@) =~= all.take(0).filter(shown));
    }
    while i < records.len() && picked.len() < limit
        invariant
            i <= records.len(),
            all == views(records@),
            endpoint == text_of(filter.endpoint),
            shown == |t: TxView| in_scope(t, endpoint),
            limit == filter.limit,
            picked.len() <= limit,
            views(picked@) == all.take(i as int).filter(shown),
        decreases records.len() - i,
    {
        let record = &records[i];
        let show = match &filter.endpoint {
            Some(who) => record.from == *who || record.to == *who,
            None => true,
        };
        proof {
            assert(all.take(i + 1) =~= all.take(i as int).push(record@));
            all.take(i as int).lemma_filter_push(record@, shown);
            assert(show == shown(record@));
        }
        if show {
            let ghost before = views(picked@);
            picked.push(record.clone());
            assert(views(picked@) =~= before.push(record@));
        }
        i = i + 1;
    }
    proof {
        let head = all.take(i as int);
        let tail = all.skip(i as int);
        assert(all =~= head + tail);
        Seq::filter_distributes_over_add(head, tail, shown);
        if i == records.len() {
            assert(head =~= all);
        } else {
            assert((head.filter(shown) + tail.filter(shown)).take(limit as int) =~= head.filter(
                shown,
            ));
        }
    }
    picked
}

/// An append-only log of transfers, at most one per identifier.
#[derive(Debug)]
pub struct TransactionLog {
    records: Vec<Transaction>,
}

impl View for TransactionLog {
    type V = Seq<TxView>;

    closed spec fn view(&self) -> Seq<TxView> {
        views(self.records@)
    }
}

impl TransactionLog {
    /// The invariant of a log: no identifier twice, each in canonical
    /// spelling.
    pub closed spec fn wf(&self) -> bool {
        &&& ids(views(self.records@)).no_duplicates()
        &&& forall|i: int|
            0 <= i < self.records@.len() ==> canonical_form((#[trigger] self.records@[i])@.id)
                == Some(self.records@[i]@.id)
    }

    /// What `wf` means for the view.
    pub proof fn lemma_wf(&self)
        requires
            self.wf(),
        ensures
            ids(self@).no_duplicates(),
            forall|i: int| 0 <= i < self@.len() ==> canonical_form((#[trigger] self@[i]).id) == Some(self@[i].id),
    {
        assert forall|i: int| 0 <= i < self@.len() implies canonical_form((#[trigger] self@[i]).id)
            == Some(self@[i].id) by {
            assert(self@[i] == self.records@[i]@);
        }
    }

    /// An empty log.
    pub fn new() -> (log: TransactionLog)
        ensures
            log.wf(),
            log@ == Seq::<TxView>::empty(),
    {
        let log = TransactionLog { records: Vec::new() };
        assert(log@ =~= Seq::<TxView>::empty());
        log
    }

    /// Number of records.
    pub fn len(&self) -> (n: usize)
        ensures
            n == self@.len(),
    {
        self.records.len()
    }

    /// The records in the order in which their identifiers were first
    /// appended.
    pub fn records(&self) -> (records: &Vec<Transaction>)
        ensures
            views(records@) == self@,
    {
        &self.records
    }

    /// Appends a transfer. Fails with `InvalidId`, changing nothing, where
    /// the identifier is malformed. Otherwise the transfer is on record under
    /// the canonical spelling of its identifier, in the place of any earlier
    /// record with that identifier.
    pub fn append(&mut self, tx: Transaction) -> (outcome: Result<(), LogError>)
        requires
            old(self).wf(),
        ensures
            final(self).wf(),
            final(self)@ == appended(old(self)@, tx@),
            outcome.is_ok() == canonical_form(tx@.id).is_some(),
            outcome.is_err() ==> outcome == Err::<(), LogError>(LogError::InvalidId),
    {
        match prepare(tx) {
            Err(error) => Err(error),
            Ok(record) => {
                let ghost before = self.records@;
                proof {
                    assert(canonical_form(record@.id) == Some(record@.id));
                }
                remember(&mut self.records, record);
                proof {
                    let known = ids(views(before));
                    assert forall|i: int| 0 <= i < self.records@.len() implies canonical_form(
                        (#[trigger] self.records@[i])@.id,
                    ) == Some(self.records@[i]@.id) by {
                        assert(views(self.records@)[i] == self.records@[i]@);
                        if known.contains(record@.id) {
                            let at = known.index_of(record@.id);
                            if i != at {
                                assert(views(before)[i] == before[i]@);
                            }
                        } else if i < before.len() {
                            assert(views(before)[i] == before[i]@);
                        }
                    }
                }
                Ok(())
            },
        }
    }

    /// The log of what a store handed back: its rows appended in turn, rows
    /// with a malformed identifier passed over; `StoreUnavailable` where the
    /// store could not be reached.
    pub fn load(fetched: Fetched) -> (outcome: Result<TransactionLog, LogError>)
        ensures
            match (fetched, outcome) {
                (Fetched::Rows(rows), Ok(log)) => log.wf() && log@ == loaded(views(rows@)),
                (Fetched::Unreachable, Err(error)) => error == LogError::StoreUnavailable,
                _ => false,
            },
    {
        match fetched {
            Fetched::Unreachable => Err(LogError::StoreUnavailable),
            Fetched::Rows(rows) => {
                let ghost all = views(rows@);
                let mut log = TransactionLog::new();
                let mut i: usize = 0;
                while i < rows.len()
                    invariant
                        i <= rows.len(),
                        all == views(rows@),
                        log.wf(),
                        log@ == loaded(all.take(i as int)),
                    decreases rows.len() - i,
                {
                    proof {
                        assert(all.take(i + 1).drop_last() =~= all.take(i as int));
                    }
                    let _ = log.append(rows[i].clone());
                    i = i + 1;
                }
                proof {
                    assert(all.take(rows.len() as int) =~= all);
                }
                Ok(log)
            },
        }
    }

    /// Looks a record up by identifier, in any accepted spelling. Fails with
    /// `InvalidId` where the text is no identifier and with `NotFound` where
    /// no record has it.
    pub fn get_by_id(&self, id: &str) -> (outcome: Result<Transaction, LogError>)
        requires
            self.wf(),
        ensures
            match outcome {
                Ok(record) => found(self@, id@) == Ok::<TxView, LogError>(record@),
                Err(error) => found(self@, id@) == Err::<TxView, LogError>(error),
            },
    {
        match canonical_id(id) {
            None => Err(LogError::InvalidId),
            Some(canonical) => {
                let ghost known = ids(self@);
                let mut j: usize = 0;
                while j < self.records.len()
                    invariant
                        j <= self.records.len(),
                        known == ids(self@),
                        known.no_duplicates(),
                        canonical_form(id@) == Some(canonical@),
                        forall|k: int| 0 <= k < j ==> known[k] != canonical@,
                    decreases self.records.len() - j,
                {
                    if self.records[j].id == canonical {
                        proof {
                            assert(known[j as int] == canonical@);
                            assert(known.index_of(canonical@) == j);
                            assert(self@[j as int] == self.records@[j as int]@);
                        }
                        return Ok(self.records[j].clone());
                    }
                    j = j + 1;
                }
                Err(LogError::NotFound)
            },
        }
    }

    /// Lists records: those in the filter's scope, at most `limit` of them
    /// taken in log order, shown newest first.
    pub fn list(&self, filter: &ListFilter) -> (page: Vec<Transaction>)
        ensures
            views(page@) == listed(self@, text_of(filter.endpoint), filter.limit as nat),
            page@.len() <= filter.limit,
    {
        proof {
            lemma_listing(self@, text_of(filter.endpoint), filter.limit as nat);
        }
        let mut page = select(&self.records, filter);
        sort_newest_first(&mut page);
        page
    }

    /// Figures over the whole log.
    pub fn global_stats(&self) -> (stats: TransactionStats)
        ensures
            stats.summarizes(self@),
    {
        global_stats(&self.records)
    }

    /// Figures for one endpoint, over the records that it sent or received.
    pub fn endpoint_stats(&self, endpoint_id: &str) -> (stats: EndpointStats)
        ensures
            stats.describes(
                endpoint_id@,
                records_touching(self@, endpoint_id@),
                sent_by(self@, endpoint_id@),
                received_by(self@, endpoint_id@),
            ),
    {
        let who = String::from_str(endpoint_id);
        endpoint_stats(&self.records, &who)
    }
}

} // verus!
