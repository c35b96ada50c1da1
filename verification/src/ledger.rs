//! The per-endpoint ledger: one balance, updated by applying transfers, each
//! transfer at most once.

use vstd::prelude::*;
use vstd::string::*;
use crate::ident::{fresh_id, well_formed_id};
use crate::text::{decimal, push_decimal};
use crate::transaction::{Status, Transaction, TxView};

verus! {

/// Balance of a new ledger, in minor units: one thousand whole units.
pub const STARTING_BALANCE: u128 = 100_000;

/// Why a ledger refused a transfer.
#[derive(Clone, Copy, Debug, PartialEq, Eq, Structural)]
pub enum LedgerError {
    /// The ledger's endpoint is the sender and holds less than the amount.
    InsufficientBalance,
}

/// The mathematical content of a ledger.
pub struct LedgerView {
    pub id: Seq<char>,
    pub balance: int,
    pub applied_count: nat,
    pub applied_ids: Set<Seq<char>>,
}

/// A ledger as it is created.
pub open spec fn opened(id: Seq<char>) -> LedgerView {
    LedgerView { id, balance: STARTING_BALANCE as int, applied_count: 0, applied_ids: Set::empty() }
}

/// Whether applying `tx` to `ledger` succeeds: it was applied before, or the
/// ledger's endpoint is not the sender, or it can pay.
pub open spec fn accepts(ledger: LedgerView, tx: TxView) -> bool {
    ledger.applied_ids.contains(tx.id) || tx.from != ledger.id || ledger.balance >= tx.amount
}

/// Whether applying `tx` would change the ledger at all.
pub open spec fn takes_effect(ledger: LedgerView, tx: TxView) -> bool {
    !ledger.applied_ids.contains(tx.id) && accepts(ledger, tx)
}

/// What `tx` takes from the ledger's balance when it takes effect.
pub open spec fn debit_of(ledger: LedgerView, tx: TxView) -> int {
    if tx.from == ledger.id {
        tx.amount as int
    } else {
        0
    }
}

/// What `tx` adds to the ledger's balance when it takes effect.
pub open spec fn credit_of(ledger: LedgerView, tx: TxView) -> int {
    if tx.to == ledger.id {
        tx.amount as int
    } else {
        0
    }
}

/// The ledger after applying `tx`. A replayed or refused transfer leaves it
/// as it is. Otherwise the id is recorded, the sender is debited, the
/// receiver credited, and the count goes up by one if the ledger's endpoint
/// is either of them.
pub open spec fn applied(ledger: LedgerView, tx: TxView) -> LedgerView {
    if !takes_effect(ledger, tx) {
        ledger
    } else {
        LedgerView {
            id: ledger.id,
            balance: ledger.balance - debit_of(ledger, tx) + credit_of(ledger, tx),
            applied_count: if tx.from == ledger.id || tx.to == ledger.id {
                ledger.applied_count + 1
            } else {
                ledger.applied_count
            },
            applied_ids: ledger.applied_ids.insert(tx.id),
        }
    }
}

/// Applying a transfer a second time changes nothing: the second application
/// finds the id on record, or is refused for the same reason as the first.
pub proof fn lemma_apply_idempotent(ledger: LedgerView, tx: TxView)
    ensures
        applied(applied(ledger, tx), tx) == applied(ledger, tx),
{
    if takes_effect(ledger, tx) {
        assert(applied(ledger, tx).applied_ids.contains(tx.id));
    }
}

/// A balance that is not negative stays so. A transfer is refused exactly
/// where it is new and its debit would take the balance below zero, and a
/// refused transfer leaves the whole ledger as it was.
pub proof fn lemma_balance_never_negative(ledger: LedgerView, tx: TxView)
    requires
        ledger.balance >= 0,
    ensures
        applied(ledger, tx).balance >= 0,
        !accepts(ledger, tx) <==> !ledger.applied_ids.contains(tx.id) && ledger.balance - debit_of(
            ledger,
            tx,
        ) < 0,
        !accepts(ledger, tx) ==> applied(ledger, tx) == ledger,
{
}

/// The count of applied transfers never goes down, and no id leaves the
/// record.
pub proof fn lemma_apply_monotone(ledger: LedgerView, tx: TxView)
    ensures
        applied(ledger, tx).id == ledger.id,
        applied(ledger, tx).applied_count >= ledger.applied_count,
        ledger.applied_ids.subset_of(applied(ledger, tx).applied_ids),
        applied(ledger, tx).balance != ledger.balance ==> tx.from == ledger.id || tx.to
            == ledger.id,
{
}

/// The signature text of the `count`-th locally created transfer.
pub open spec fn signature_text(count: nat) -> Seq<char> {
    "sig_"@ + decimal(count)
}

/// The transfer that a ledger's endpoint drafts.
pub open spec fn drafted(ledger: LedgerView, id: Seq<char>, to: Seq<char>, amount: u64, timestamp: u64) -> TxView {
    TxView {
        id,
        from: ledger.id,
        to,
        amount,
        timestamp,
        signature: signature_text(ledger.applied_count),
        status: Status::Pending,
    }
}

/// The set of the texts that a list of strings holds.
pub open spec fn texts(list: Seq<String>) -> Set<Seq<char>> {
    Set::new(|text: Seq<char>| exists|i: int| 0 <= i < list.len() && (#[trigger] list[i])@ == text)
}

/// Whether `list` holds a string with the text of `wanted`.
pub fn holds_text(list: &Vec<String>, wanted: &String) -> (found: bool)
    ensures
        found == texts(list@).contains(wanted@),
{
    let mut i: usize = 0;
    while i < list.len()
        invariant
            i <= list.len(),
            forall|k: int| 0 <= k < i ==> (#[trigger] list@[k])@ != wanted@,
        decreases list.len() - i,
    {
        if list[i] == *wanted {
            return true;
        }
        i = i + 1;
    }
    false
}

/// Appending a string adds its text to the set.
pub proof fn lemma_texts_push(list: Seq<String>, last: String)
    ensures
        texts(list.push(last)) == texts(list).insert(last@),
{
    let longer = list.push(last);
    assert forall|text: Seq<char>| texts(longer).contains(text) <==> texts(list).insert(
        last@,
    ).contains(text) by {
        if texts(longer).contains(text) {
            let i = choose|i: int| 0 <= i < longer.len() && (#[trigger] longer[i])@ == text;
            if i < list.len() {
                assert(list[i]@ == text);
            }
        }
        if texts(list).contains(text) {
            let i = choose|i: int| 0 <= i < list.len() && (#[trigger] list[i])@ == text;
            assert(longer[i]@ == text);
        }
        if text == last@ {
            assert(longer[list.len() as int]@ == text);
        }
    }
    assert(texts(longer) =~= texts(list).insert(last@));
}

/// One endpoint's balance and the transfers already applied to it.
#[derive(Debug)]
pub struct TxEndpoint {
    id: String,
    balance: u128,
    applied_count: u64,
    applied_ids: Vec<String>,
}

impl View for TxEndpoint {
    type V = LedgerView;

    closed spec fn view(&self) -> LedgerView {
        LedgerView {
            id: self.id@,
            balance: self.balance as int,
            applied_count: self.applied_count as nat,
            applied_ids: texts(self.applied_ids@),
        }
    }
}

impl TxEndpoint {
    /// The invariant of a ledger: every counted transfer has its id on
    /// record, and the balance is what that many credits can have made it.
    pub closed spec fn wf(&self) -> bool {
        &&& self.applied_count <= self.applied_ids@.len()
        &&& self.balance <= STARTING_BALANCE + self.applied_count * u64::MAX
    }

    /// A ledger for endpoint `id`, holding the starting balance.
    pub fn new(id: &str) -> (ledger: TxEndpoint)
        ensures
            ledger.wf(),
            ledger@ == opened(id@),
    {
        let ledger = TxEndpoint {
            id: String::from_str(id),
            balance: STARTING_BALANCE,
            applied_count: 0,
            applied_ids: Vec::new(),
        };
        assert(texts(ledger.applied_ids@) =~= Set::empty());
        ledger
    }

    /// The endpoint that owns this ledger.
    pub fn id(&self) -> (id: &String)
        ensures
            id@ == self@.id,
    {
        &self.id
    }

    /// Current balance in minor units.
    pub fn balance(&self) -> (balance: u128)
        ensures
            balance == self@.balance,
    {
        self.balance
    }

    /// Number of applied transfers that debited or credited this ledger.
    pub fn applied_count(&self) -> (count: u64)
        ensures
            count == self@.applied_count,
    {
        self.applied_count
    }

    /// Whether the transfer with this id has been applied.
    pub fn has_applied(&self, id: &String) -> (known: bool)
        ensures
            known == self@.applied_ids.contains(id@),
    {
        holds_text(&self.applied_ids, id)
    }

    /// Applies a transfer. A replay of an applied id succeeds and changes
    /// nothing. A transfer that this endpoint sends without the funds for it
    /// is refused and changes nothing. Any other transfer is recorded, and
    /// debits or credits the balance where this endpoint is its sender or
    /// receiver.
    pub fn process_transaction(&mut self, tx: &Transaction) -> (outcome: Result<(), LedgerError>)
        requires
            old(self).wf(),
        ensures
            final(self).wf(),
            final(self)@ == applied(old(self)@, tx@),
            final(self)@.balance >= 0,
            outcome.is_ok() == accepts(old(self)@, tx@),
            outcome.is_err() ==> outcome == Err::<(), LedgerError>(LedgerError::InsufficientBalance),
    {
        if holds_text(&self.applied_ids, &tx.id) {
            return Ok(());
        }
        let sends = tx.from == self.id;
        let receives = tx.to == self.id;
        if sends && self.balance < tx.amount as u128 {
            return Err(LedgerError::InsufficientBalance);
        }
        proof {
            lemma_texts_push(self.applied_ids@, tx.id);
            assert(self.applied_count * u64::MAX + u64::MAX == (self.applied_count + 1) * u64::MAX)
                by (nonlinear_arith);
            assert(self.applied_count * u64::MAX <= 0xffff_ffff_ffff_ffff * 0xffff_ffff_ffff_ffff)
                by (nonlinear_arith)
                requires
                    self.applied_count <= 0xffff_ffff_ffff_ffff,
            ;
            assert(0xffff_ffff_ffff_ffff * 0xffff_ffff_ffff_ffff + 0xffff_ffff_ffff_ffff + 100_000
                <= 0xffff_ffff_ffff_ffff_ffff_ffff_ffff_ffff) by (nonlinear_arith);
        }
        if sends {
            self.balance = self.balance - tx.amount as u128;
        }
        if receives {
            self.balance = self.balance + tx.amount as u128;
        }
        self.applied_ids.push(tx.id.clone());
        let recorded = self.applied_ids.len();
        assert(self.applied_count < recorded);
        if sends || receives {
            self.applied_count = self.applied_count + 1;
        }
        Ok(())
    }

    /// Drafts a transfer from this endpoint under the given id. The ledger is
    /// not changed: the caller applies the transfer.
    pub fn draft(&self, id: String, to: &str, amount: u64, timestamp: u64) -> (tx: Transaction)
        ensures
            tx@ == drafted(self@, id@, to@, amount, timestamp),
    {
        let mut signature = String::from_str("sig_");
        push_decimal(&mut signature, self.applied_count);
        Transaction {
            id,
            from: self.id.clone(),
            to: String::from_str(to),
            amount,
            timestamp,
            signature,
            status: Status::Pending,
        }
    }

    /// Drafts a transfer from this endpoint under a fresh identifier. Which
    /// identifier is left open; everything else is as in [`TxEndpoint::draft`].
    pub fn create_transaction(&self, to: &str, amount: u64, timestamp: u64) -> (tx: Transaction)
        ensures
            well_formed_id(tx@.id),
            tx@ == drafted(self@, tx@.id, to@, amount, timestamp),
    {
        self.draft(fresh_id(), to, amount, timestamp)
    }
}

} // verus!
