//! The transfer record shared by every component.

use vstd::prelude::*;
use vstd::string::*;

verus! {

/// Minor units in one whole unit of value.
pub const MINOR_PER_UNIT: u64 = 100;

/// Advisory state of a transfer. It never gates whether a ledger applies it.
#[derive(Clone, Copy, Debug, PartialEq, Eq, Structural)]
pub enum Status {
    Pending,
    Confirmed,
    Failed,
}

/// The wire label of a status.
pub open spec fn status_label(status: Status) -> Seq<char> {
    match status {
        Status::Pending => "pending"@,
        Status::Confirmed => "confirmed"@,
        Status::Failed => "failed"@,
    }
}

/// The status that a wire label names, if any.
pub open spec fn status_of_label(label: Seq<char>) -> Option<Status> {
    if label == "pending"@ {
        Some(Status::Pending)
    } else if label == "confirmed"@ {
        Some(Status::Confirmed)
    } else if label == "failed"@ {
        Some(Status::Failed)
    } else {
        None
    }
}

/// Whether an owned string holds exactly the text of `literal`.
pub fn text_is(text: &String, literal: &str) -> (same: bool)
    ensures
        same == (text@ == literal@),
{
    let other = String::from_str(literal);
    *text == other
}

impl Status {
    /// The label under which this status travels.
    pub fn label(&self) -> (text: String)
        ensures
            text@ == status_label(*self),
    {
        match self {
            Status::Pending => String::from_str("pending"),
            Status::Confirmed => String::from_str("confirmed"),
            Status::Failed => String::from_str("failed"),
        }
    }

    /// Reads a label back; `None` for anything but the three known labels.
    pub fn from_label(label: &String) -> (status: Option<Status>)
        ensures
            status == status_of_label(label@),
    {
        if text_is(label, "pending") {
            Some(Status::Pending)
        } else if text_is(label, "confirmed") {
            Some(Status::Confirmed)
        } else if text_is(label, "failed") {
            Some(Status::Failed)
        } else {
            None
        }
    }
}

/// Reading a status's own label gives the status back.
pub proof fn lemma_status_label_round_trip(status: Status)
    ensures
        status_of_label(status_label(status)) == Some(status),
{
    reveal_strlit("pending");
    reveal_strlit("confirmed");
    reveal_strlit("failed");
    assert("pending"@.len() == 7);
    assert("confirmed"@.len() == 9);
    assert("failed"@.len() == 6);
}

/// A value transfer between two endpoints. Once it has an id it is never
/// changed; a correction is a new record.
#[derive(Debug, PartialEq, Eq)]
pub struct Transaction {
    /// Unique identifier, the primary key of the record.
    pub id: String,
    /// Sending endpoint.
    pub from: String,
    /// Receiving endpoint; may equal `from`.
    pub to: String,
    /// Amount in minor units.
    pub amount: u64,
    /// Milliseconds since the epoch, as the producer assigned them.
    pub timestamp: u64,
    /// Carried along, never checked.
    pub signature: String,
    /// Advisory state.
    pub status: Status,
}

/// The mathematical content of a [`Transaction`].
pub struct TxView {
    pub id: Seq<char>,
    pub from: Seq<char>,
    pub to: Seq<char>,
    pub amount: u64,
    pub timestamp: u64,
    pub signature: Seq<char>,
    pub status: Status,
}

impl View for Transaction {
    type V = TxView;

    open spec fn view(&self) -> TxView {
        TxView {
            id: self.id@,
            from: self.from@,
            to: self.to@,
            amount: self.amount,
            timestamp: self.timestamp,
            signature: self.signature@,
            status: self.status,
        }
    }
}

impl Clone for Transaction {
    fn clone(&self) -> (copy: Self)
        ensures
            copy == *self,
    {
        Transaction {
            id: self.id.clone(),
            from: self.from.clone(),
            to: self.to.clone(),
            amount: self.amount,
            timestamp: self.timestamp,
            signature: self.signature.clone(),
            status: self.status,
        }
    }
}

/// The contents of a sequence of transfers.
pub open spec fn views(records: Seq<Transaction>) -> Seq<TxView> {
    records.map_values(|t: Transaction| t@)
}

/// The ids of a sequence of transfers, in order.
pub open spec fn ids(records: Seq<TxView>) -> Seq<Seq<char>> {
    records.map_values(|t: TxView| t.id)
}

/// `history` with `tx` on record: in the place of the entry with the same id
/// if there is one, at the end otherwise.
pub open spec fn remembered(history: Seq<TxView>, tx: TxView) -> Seq<TxView> {
    if ids(history).contains(tx.id) {
        history.update(ids(history).index_of(tx.id), tx)
    } else {
        history.push(tx)
    }
}

/// Puts `tx` on record, replacing the entry with the same id if there is one.
pub(crate) fn remember(history: &mut Vec<Transaction>, tx: Transaction)
    requires
        ids(views(old(history)@)).no_duplicates(),
    ensures
        ids(views(final(history)@)).no_duplicates(),
        views(final(history)@) == remembered(views(old(history)@), tx@),
{
    let ghost before = views(history@);
    let ghost known = ids(before);
    let mut j: usize = 0;
    while j < history.len()
        invariant
            j <= history.len(),
            history@ == old(history)@,
            before == views(history@),
            known == ids(before),
            known.no_duplicates(),
            forall|k: int| 0 <= k < j ==> known[k] != tx@.id,
        decreases history.len() - j,
    {
        if history[j].id == tx.id {
            proof {
                assert(known[j as int] == tx@.id);
                assert(known.contains(tx@.id));
                let at = known.index_of(tx@.id);
                assert(at == j);
            }
            history.set(j, tx);
            proof {
                assert(views(history@) =~= before.update(j as int, tx@));
                assert(ids(views(history@)) =~= known);
            }
            return ;
        }
        j = j + 1;
    }
    history.push(tx);
    proof {
        assert(!known.contains(tx@.id));
        assert(views(history@) =~= before.push(tx@));
        assert(ids(views(history@)) =~= known.push(tx@.id));
    }
}

} // verus!
