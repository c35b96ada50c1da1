//! Conservation of value in a closed system of ledgers.
//!
//! A system is a sequence of ledgers with pairwise distinct endpoints. A
//! transfer is delivered by applying it to every ledger. Value is conserved
//! by a delivery whenever the transfer takes effect at its sender exactly
//! when it takes effect at its receiver; a transfer that the sender refuses
//! for want of funds while the receiver books it is the case that breaks it.
//!
//! A transfer is exchanged sender first by applying it at its sender's ledger
//! and, only if the sender accepted it, at its receiver's. Starting from new
//! ledgers, any sequence of such exchanges conserves value, replays included,
//! as long as an identifier always names the same sender and receiver.

use vstd::prelude::*;
use crate::ledger::{
    accepts,
    applied,
    credit_of,
    debit_of,
    opened,
    takes_effect,
    LedgerView,
    STARTING_BALANCE,
};
use crate::transaction::TxView;

verus! {

/// Sum of the balances of all ledgers.
pub open spec fn total_balance(ledgers: Seq<LedgerView>) -> int
    decreases ledgers.len(),
{
    if ledgers.len() == 0 {
        0
    } else {
        total_balance(ledgers.drop_last()) + ledgers.last().balance
    }
}

/// The system after `tx` has been applied to every ledger.
pub open spec fn delivered(ledgers: Seq<LedgerView>, tx: TxView) -> Seq<LedgerView> {
    ledgers.map_values(|ledger: LedgerView| applied(ledger, tx))
}

/// The system after every transfer of `txs` has been delivered, in order.
pub open spec fn delivered_all(ledgers: Seq<LedgerView>, txs: Seq<TxView>) -> Seq<LedgerView>
    decreases txs.len(),
{
    if txs.len() == 0 {
        ledgers
    } else {
        delivered_all(delivered(ledgers, txs.first()), txs.drop_first())
    }
}

/// No two ledgers belong to the same endpoint.
pub open spec fn distinct_endpoints(ledgers: Seq<LedgerView>) -> bool {
    forall|i: int, j: int|
        0 <= i < ledgers.len() && 0 <= j < ledgers.len() && i != j ==> (#[trigger] ledgers[i]).id
            != (#[trigger] ledgers[j]).id
}

/// Whether some ledger of the system belongs to `who`.
pub open spec fn is_member(ledgers: Seq<LedgerView>, who: Seq<char>) -> bool {
    exists|i: int| 0 <= i < ledgers.len() && (#[trigger] ledgers[i]).id == who
}

/// Whether `tx` stays inside the system.
pub open spec fn is_internal(ledgers: Seq<LedgerView>, tx: TxView) -> bool {
    is_member(ledgers, tx.from) && is_member(ledgers, tx.to)
}

/// Whether `tx` takes effect at its sender's ledger exactly when it does at
/// its receiver's.
pub open spec fn settles(ledgers: Seq<LedgerView>, tx: TxView) -> bool {
    forall|i: int, j: int|
        0 <= i < ledgers.len() && 0 <= j < ledgers.len() && (#[trigger] ledgers[i]).id == tx.from
            && (#[trigger] ledgers[j]).id == tx.to ==> (takes_effect(ledgers[i], tx)
            <==> takes_effect(ledgers[j], tx))
}

/// Whether every transfer of `txs` is internal and settles in the system as
/// it stands when the transfer is delivered.
pub open spec fn settles_throughout(ledgers: Seq<LedgerView>, txs: Seq<TxView>) -> bool
    decreases txs.len(),
{
    if txs.len() == 0 {
        true
    } else {
        &&& is_internal(ledgers, txs.first())
        &&& settles(ledgers, txs.first())
        &&& settles_throughout(delivered(ledgers, txs.first()), txs.drop_first())
    }
}

/// Whether all ledgers have the same ids on record.
pub open spec fn in_step(ledgers: Seq<LedgerView>) -> bool {
    forall|i: int, j: int|
        0 <= i < ledgers.len() && 0 <= j < ledgers.len() ==> (#[trigger] ledgers[i]).applied_ids
            == (#[trigger] ledgers[j]).applied_ids
}

/// What a delivery of `tx` takes from all balances together.
pub open spec fn total_debit(ledgers: Seq<LedgerView>, tx: TxView) -> int
    decreases ledgers.len(),
{
    if ledgers.len() == 0 {
        0
    } else {
        total_debit(ledgers.drop_last(), tx) + if takes_effect(ledgers.last(), tx) {
            debit_of(ledgers.last(), tx)
        } else {
            0
        }
    }
}

/// What a delivery of `tx` adds to all balances together.
pub open spec fn total_credit(ledgers: Seq<LedgerView>, tx: TxView) -> int
    decreases ledgers.len(),
{
    if ledgers.len() == 0 {
        0
    } else {
        total_credit(ledgers.drop_last(), tx) + if takes_effect(ledgers.last(), tx) {
            credit_of(ledgers.last(), tx)
        } else {
            0
        }
    }
}

/// A delivery changes the total by its credits less its debits.
pub proof fn lemma_delivery_balance(ledgers: Seq<LedgerView>, tx: TxView)
    ensures
        total_balance(delivered(ledgers, tx)) == total_balance(ledgers) - total_debit(ledgers, tx)
            + total_credit(ledgers, tx),
    decreases ledgers.len(),
{
    if ledgers.len() > 0 {
        lemma_delivery_balance(ledgers.drop_last(), tx);
        assert(delivered(ledgers, tx).drop_last() =~= delivered(ledgers.drop_last(), tx));
    }
}

/// Where no ledger belongs to the sender, nothing is debited.
proof fn lemma_no_sender_no_debit(ledgers: Seq<LedgerView>, tx: TxView)
    requires
        !is_member(ledgers, tx.from),
    ensures
        total_debit(ledgers, tx) == 0,
    decreases ledgers.len(),
{
    if ledgers.len() > 0 {
        let front = ledgers.drop_last();
        assert(ledgers[ledgers.len() - 1].id != tx.from);
        assert(!is_member(front, tx.from)) by {
            if is_member(front, tx.from) {
                let i = choose|i: int| 0 <= i < front.len() && (#[trigger] front[i]).id == tx.from;
                assert(ledgers[i].id == tx.from);
            }
        }
        lemma_no_sender_no_debit(front, tx);
    }
}

/// Where no ledger belongs to the receiver, nothing is credited.
proof fn lemma_no_receiver_no_credit(ledgers: Seq<LedgerView>, tx: TxView)
    requires
        !is_member(ledgers, tx.to),
    ensures
        total_credit(ledgers, tx) == 0,
    decreases ledgers.len(),
{
    if ledgers.len() > 0 {
        let front = ledgers.drop_last();
        assert(ledgers[ledgers.len() - 1].id != tx.to);
        assert(!is_member(front, tx.to)) by {
            if is_member(front, tx.to) {
                let i = choose|i: int| 0 <= i < front.len() && (#[trigger] front[i]).id == tx.to;
                assert(ledgers[i].id == tx.to);
            }
        }
        lemma_no_receiver_no_credit(front, tx);
    }
}

/// With distinct endpoints, only the sender's ledger is debited.
proof fn lemma_debit_is_senders(ledgers: Seq<LedgerView>, tx: TxView, at: int)
    requires
        distinct_endpoints(ledgers),
        0 <= at < ledgers.len(),
        ledgers[at].id == tx.from,
    ensures
        total_debit(ledgers, tx) == if takes_effect(ledgers[at], tx) {
            tx.amount as int
        } else {
            0
        },
    decreases ledgers.len(),
{
    let front = ledgers.drop_last();
    if at == ledgers.len() - 1 {
        assert(!is_member(front, tx.from)) by {
            if is_member(front, tx.from) {
                let i = choose|i: int| 0 <= i < front.len() && (#[trigger] front[i]).id == tx.from;
                assert(ledgers[i].id == ledgers[at].id);
            }
        }
        lemma_no_sender_no_debit(front, tx);
    } else {
        assert(ledgers[ledgers.len() - 1].id != ledgers[at].id);
        assert(distinct_endpoints(front)) by {
            assert forall|i: int, j: int|
                0 <= i < front.len() && 0 <= j < front.len() && i != j implies (#[trigger] front[i]).id
                != (#[trigger] front[j]).id by {
                assert(ledgers[i].id != ledgers[j].id);
            }
        }
        assert(front[at] == ledgers[at]);
        lemma_debit_is_senders(front, tx, at);
    }
}

/// With distinct endpoints, only the receiver's ledger is credited.
proof fn lemma_credit_is_receivers(ledgers: Seq<LedgerView>, tx: TxView, at: int)
    requires
        distinct_endpoints(ledgers),
        0 <= at < ledgers.len(),
        ledgers[at].id == tx.to,
    ensures
        total_credit(ledgers, tx) == if takes_effect(ledgers[at], tx) {
            tx.amount as int
        } else {
            0
        },
    decreases ledgers.len(),
{
    let front = ledgers.drop_last();
    if at == ledgers.len() - 1 {
        assert(!is_member(front, tx.to)) by {
            if is_member(front, tx.to) {
                let i = choose|i: int| 0 <= i < front.len() && (#[trigger] front[i]).id == tx.to;
                assert(ledgers[i].id == ledgers[at].id);
            }
        }
        lemma_no_receiver_no_credit(front, tx);
    } else {
        assert(ledgers[ledgers.len() - 1].id != ledgers[at].id);
        assert(distinct_endpoints(front)) by {
            assert forall|i: int, j: int|
                0 <= i < front.len() && 0 <= j < front.len() && i != j implies (#[trigger] front[i]).id
                != (#[trigger] front[j]).id by {
                assert(ledgers[i].id != ledgers[j].id);
            }
        }
        assert(front[at] == ledgers[at]);
        lemma_credit_is_receivers(front, tx, at);
    }
}

/// Delivering an internal transfer that settles leaves the sum of all
/// balances as it was.
pub proof fn lemma_delivery_conserves(ledgers: Seq<LedgerView>, tx: TxView)
    requires
        distinct_endpoints(ledgers),
        is_internal(ledgers, tx),
        settles(ledgers, tx),
    ensures
        total_balance(delivered(ledgers, tx)) == total_balance(ledgers),
{
    let i = choose|i: int| 0 <= i < ledgers.len() && (#[trigger] ledgers[i]).id == tx.from;
    let j = choose|j: int| 0 <= j < ledgers.len() && (#[trigger] ledgers[j]).id == tx.to;
    lemma_delivery_balance(ledgers, tx);
    lemma_debit_is_senders(ledgers, tx, i);
    lemma_credit_is_receivers(ledgers, tx, j);
}

/// A delivery changes no ledger's endpoint.
pub proof fn lemma_delivery_keeps_endpoints(ledgers: Seq<LedgerView>, tx: TxView)
    ensures
        delivered(ledgers, tx).len() == ledgers.len(),
        forall|i: int| 0 <= i < ledgers.len() ==> (#[trigger] delivered(ledgers, tx)[i]).id == ledgers[i].id,
        distinct_endpoints(ledgers) ==> distinct_endpoints(delivered(ledgers, tx)),
{
}

/// In a closed system, whatever sequence of internal transfers is delivered,
/// each settling when its turn comes, the sum of all balances at the end is
/// the sum at the start.
pub proof fn lemma_balance_conservation(ledgers: Seq<LedgerView>, txs: Seq<TxView>)
    requires
        distinct_endpoints(ledgers),
        settles_throughout(ledgers, txs),
    ensures
        total_balance(delivered_all(ledgers, txs)) == total_balance(ledgers),
    decreases txs.len(),
{
    if txs.len() > 0 {
        lemma_delivery_conserves(ledgers, txs.first());
        lemma_delivery_keeps_endpoints(ledgers, txs.first());
        lemma_balance_conservation(delivered(ledgers, txs.first()), txs.drop_first());
    }
}

/// Where all ledgers have the same ids on record and the sender can pay, the
/// transfer settles, and the ledgers are still in step after its delivery.
pub proof fn lemma_funded_transfer_settles(ledgers: Seq<LedgerView>, tx: TxView)
    requires
        in_step(ledgers),
        forall|i: int| 0 <= i < ledgers.len() ==> accepts(#[trigger] ledgers[i], tx),
    ensures
        settles(ledgers, tx),
        in_step(delivered(ledgers, tx)),
{
    assert forall|i: int, j: int|
        0 <= i < ledgers.len() && 0 <= j < ledgers.len() implies (#[trigger] delivered(
        ledgers,
        tx,
    )[i]).applied_ids == (#[trigger] delivered(ledgers, tx)[j]).applied_ids by {
        assert(ledgers[i].applied_ids == ledgers[j].applied_ids);
        assert(applied(ledgers[i], tx).applied_ids =~= applied(ledgers[j], tx).applied_ids);
    }
}

/// Whether every transfer of `txs` is internal and accepted by every ledger
/// of the system as it stands when the transfer is delivered.
pub open spec fn funded_throughout(ledgers: Seq<LedgerView>, txs: Seq<TxView>) -> bool
    decreases txs.len(),
{
    if txs.len() == 0 {
        true
    } else {
        &&& is_internal(ledgers, txs.first())
        &&& forall|i: int| 0 <= i < ledgers.len() ==> accepts(#[trigger] ledgers[i], txs.first())
        &&& funded_throughout(delivered(ledgers, txs.first()), txs.drop_first())
    }
}

/// Ledgers that start in step, and to which only internal transfers are
/// delivered that their senders can pay, hold the same total at the end as
/// at the start.
pub proof fn lemma_funded_transfers_conserve(ledgers: Seq<LedgerView>, txs: Seq<TxView>)
    requires
        distinct_endpoints(ledgers),
        in_step(ledgers),
        funded_throughout(ledgers, txs),
    ensures
        settles_throughout(ledgers, txs),
        total_balance(delivered_all(ledgers, txs)) == total_balance(ledgers),
    decreases txs.len(),
{
    if txs.len() > 0 {
        let next = delivered(ledgers, txs.first());
        lemma_funded_transfer_settles(ledgers, txs.first());
        lemma_delivery_keeps_endpoints(ledgers, txs.first());
        lemma_funded_transfers_conserve(next, txs.drop_first());
        lemma_balance_conservation(ledgers, txs);
    }
}

/// Position of the ledger of `who`, in a system that has one.
pub open spec fn ledger_of(ledgers: Seq<LedgerView>, who: Seq<char>) -> int {
    choose|i: int| 0 <= i < ledgers.len() && (#[trigger] ledgers[i]).id == who
}

/// The system after `tx` was applied to the ledger at position `at` alone.
pub open spec fn applied_at(ledgers: Seq<LedgerView>, at: int, tx: TxView) -> Seq<LedgerView> {
    ledgers.update(at, applied(ledgers[at], tx))
}

/// The system after `tx` was exchanged sender first: applied at its sender's
/// ledger and, only if the sender accepted it, at its receiver's.
pub open spec fn exchanged(ledgers: Seq<LedgerView>, tx: TxView) -> Seq<LedgerView> {
    let sender = ledger_of(ledgers, tx.from);
    let sent = applied_at(ledgers, sender, tx);
    if accepts(ledgers[sender], tx) {
        applied_at(sent, ledger_of(sent, tx.to), tx)
    } else {
        sent
    }
}

/// The system after every transfer of `txs` was exchanged sender first, in
/// order.
pub open spec fn exchanged_all(ledgers: Seq<LedgerView>, txs: Seq<TxView>) -> Seq<LedgerView>
    decreases txs.len(),
{
    if txs.len() == 0 {
        ledgers
    } else {
        exchanged_all(exchanged(ledgers, txs.first()), txs.drop_first())
    }
}

/// Whether every ledger is as it was created.
pub open spec fn newly_opened(ledgers: Seq<LedgerView>) -> bool {
    forall|i: int| 0 <= i < ledgers.len() ==> #[trigger] ledgers[i] == opened(ledgers[i].id)
}

/// Whether every transfer of `txs` stays inside the system.
pub open spec fn all_internal(ledgers: Seq<LedgerView>, txs: Seq<TxView>) -> bool {
    forall|k: int| 0 <= k < txs.len() ==> is_internal(ledgers, #[trigger] txs[k])
}

/// Whether an identifier always names the same sender and receiver: two
/// transfers with one identifier are a transfer and its replay.
pub open spec fn one_transfer_per_id(txs: Seq<TxView>) -> bool {
    forall|a: int, b: int|
        0 <= a < txs.len() && 0 <= b < txs.len() && (#[trigger] txs[a]).id == (#[trigger] txs[b]).id
            ==> txs[a].from == txs[b].from && txs[a].to == txs[b].to
}

/// Whether each transfer of `txs` is on record at its sender's ledger exactly
/// when it is on record at its receiver's.
pub open spec fn paired(ledgers: Seq<LedgerView>, txs: Seq<TxView>) -> bool {
    forall|k: int, i: int, j: int|
        0 <= k < txs.len() && 0 <= i < ledgers.len() && 0 <= j < ledgers.len() && (
        #[trigger] ledgers[i]).id == (#[trigger] txs[k]).from && (#[trigger] ledgers[j]).id
            == txs[k].to ==> (ledgers[i].applied_ids.contains(txs[k].id)
            <==> ledgers[j].applied_ids.contains(txs[k].id))
}

/// Replacing one ledger changes the total by the difference of the two
/// balances.
pub proof fn lemma_total_update(ledgers: Seq<LedgerView>, at: int, ledger: LedgerView)
    requires
        0 <= at < ledgers.len(),
    ensures
        total_balance(ledgers.update(at, ledger)) == total_balance(ledgers) - ledgers[at].balance
            + ledger.balance,
    decreases ledgers.len(),
{
    let after = ledgers.update(at, ledger);
    if at == ledgers.len() - 1 {
        assert(after.drop_last() =~= ledgers.drop_last());
    } else {
        assert(after.drop_last() =~= ledgers.drop_last().update(at, ledger));
        lemma_total_update(ledgers.drop_last(), at, ledger);
    }
}

/// The total of new ledgers is the starting balance times their number.
pub proof fn lemma_total_of_new(ledgers: Seq<LedgerView>)
    requires
        newly_opened(ledgers),
    ensures
        total_balance(ledgers) == ledgers.len() * STARTING_BALANCE,
    decreases ledgers.len(),
{
    if ledgers.len() > 0 {
        let front = ledgers.drop_last();
        assert forall|i: int| 0 <= i < front.len() implies #[trigger] front[i] == opened(
            front[i].id,
        ) by {
            assert(front[i] == ledgers[i]);
        }
        lemma_total_of_new(front);
        assert(ledgers.last() == ledgers[ledgers.len() - 1]);
        assert(front.len() * STARTING_BALANCE + STARTING_BALANCE == ledgers.len()
            * STARTING_BALANCE) by (nonlinear_arith)
            requires
                front.len() + 1 == ledgers.len(),
        ;
    }
}

/// One sender-first exchange of an internal transfer keeps the total, the
/// endpoints, and the pairing of every transfer of `universe`.
pub proof fn lemma_exchange_conserves(ledgers: Seq<LedgerView>, tx: TxView, universe: Seq<TxView>)
    requires
        distinct_endpoints(ledgers),
        is_internal(ledgers, tx),
        universe.contains(tx),
        one_transfer_per_id(universe),
        paired(ledgers, universe),
    ensures
        exchanged(ledgers, tx).len() == ledgers.len(),
        forall|i: int| 0 <= i < ledgers.len() ==> (#[trigger] exchanged(ledgers, tx)[i]).id == ledgers[i].id,
        distinct_endpoints(exchanged(ledgers, tx)),
        paired(exchanged(ledgers, tx), universe),
        total_balance(exchanged(ledgers, tx)) == total_balance(ledgers),
{
    let s = ledger_of(ledgers, tx.from);
    let sent = applied_at(ledgers, s, tx);
    let r0 = ledger_of(ledgers, tx.to);
    assert(sent[r0].id == tx.to);
    let r = ledger_of(sent, tx.to);
    assert(ledgers[r].id == tx.to);
    let after = exchanged(ledgers, tx);
    let at = choose|k: int| 0 <= k < universe.len() && universe[k] == tx;
    assert(ledgers[s].applied_ids.contains(universe[at].id) <==> ledgers[r].applied_ids.contains(
        universe[at].id,
    ));
    let effect = takes_effect(ledgers[s], tx);
    lemma_total_update(ledgers, s, applied(ledgers[s], tx));
    if accepts(ledgers[s], tx) {
        lemma_total_update(sent, r, applied(sent[r], tx));
    }
    if r != s {
        assert(ledgers[r].id != ledgers[s].id);
        assert(sent[r] == ledgers[r]);
    }
    assert forall|i: int| 0 <= i < ledgers.len() implies (#[trigger] after[i]).id == ledgers[i].id
        && after[i].applied_ids == if effect && (i == s || i == r) {
        ledgers[i].applied_ids.insert(tx.id)
    } else {
        ledgers[i].applied_ids
    } by {
        if effect && i == s && i == r {
            assert(after[i].applied_ids =~= ledgers[i].applied_ids.insert(tx.id));
        }
    }
    assert forall|k: int, i: int, j: int|
        0 <= k < universe.len() && 0 <= i < after.len() && 0 <= j < after.len() && (
        #[trigger] after[i]).id == (#[trigger] universe[k]).from && (#[trigger] after[j]).id
            == universe[k].to implies (after[i].applied_ids.contains(universe[k].id)
        <==> after[j].applied_ids.contains(universe[k].id)) by {
        assert(ledgers[i].id == universe[k].from);
        assert(ledgers[j].id == universe[k].to);
        assert(ledgers[i].applied_ids.contains(universe[k].id) <==> ledgers[j].applied_ids.contains(
            universe[k].id,
        ));
        if universe[k].id == tx.id {
            assert(universe[k].from == universe[at].from && universe[k].to == universe[at].to);
            assert(ledgers[i].id == ledgers[s].id);
            assert(ledgers[j].id == ledgers[r].id);
            assert(i == s && j == r);
        }
    }
    assert forall|i: int, j: int|
        0 <= i < after.len() && 0 <= j < after.len() && i != j implies (#[trigger] after[i]).id
        != (#[trigger] after[j]).id by {
        assert(ledgers[i].id != ledgers[j].id);
    }
}

/// Sender-first exchanges of transfers out of `universe` keep the total, as
/// long as every transfer of `universe` is internal, an identifier names one
/// sender and receiver, and the ledgers start out paired.
pub proof fn lemma_exchanges_conserve(ledgers: Seq<LedgerView>, txs: Seq<TxView>, universe: Seq<TxView>)
    requires
        distinct_endpoints(ledgers),
        all_internal(ledgers, universe),
        one_transfer_per_id(universe),
        paired(ledgers, universe),
        forall|k: int| 0 <= k < txs.len() ==> universe.contains(#[trigger] txs[k]),
    ensures
        total_balance(exchanged_all(ledgers, txs)) == total_balance(ledgers),
    decreases txs.len(),
{
    if txs.len() > 0 {
        let tx = txs.first();
        let rest = txs.drop_first();
        let next = exchanged(ledgers, tx);
        assert(universe.contains(txs[0]));
        let at = choose|k: int| 0 <= k < universe.len() && universe[k] == tx;
        assert(is_internal(ledgers, universe[at]));
        lemma_exchange_conserves(ledgers, tx, universe);
        assert forall|k: int| 0 <= k < universe.len() implies is_internal(
            next,
            #[trigger] universe[k],
        ) by {
            let u = universe[k];
            assert(is_internal(ledgers, u));
            let i = choose|i: int| 0 <= i < ledgers.len() && (#[trigger] ledgers[i]).id == u.from;
            let j = choose|j: int| 0 <= j < ledgers.len() && (#[trigger] ledgers[j]).id == u.to;
            assert(next[i].id == u.from);
            assert(next[j].id == u.to);
        }
        assert forall|k: int| 0 <= k < rest.len() implies universe.contains(#[trigger] rest[k]) by {
            assert(rest[k] == txs[k + 1]);
        }
        lemma_exchanges_conserve(next, rest, universe);
    }
}

/// New ledgers of distinct endpoints, among which transfers are exchanged
/// sender first, hold the same total after any sequence of internal
/// transfers as at the start: the starting balance times their number.
/// Refused transfers and replays are among the sequences; what is asked is
/// that an identifier always names the same sender and receiver.
pub proof fn lemma_sender_first_conserves(ledgers: Seq<LedgerView>, txs: Seq<TxView>)
    requires
        distinct_endpoints(ledgers),
        newly_opened(ledgers),
        all_internal(ledgers, txs),
        one_transfer_per_id(txs),
    ensures
        total_balance(exchanged_all(ledgers, txs)) == total_balance(ledgers),
        total_balance(exchanged_all(ledgers, txs)) == ledgers.len() * STARTING_BALANCE,
{
    assert forall|k: int, i: int, j: int|
        0 <= k < txs.len() && 0 <= i < ledgers.len() && 0 <= j < ledgers.len() && (
        #[trigger] ledgers[i]).id == (#[trigger] txs[k]).from && (#[trigger] ledgers[j]).id
            == txs[k].to implies (ledgers[i].applied_ids.contains(txs[k].id)
        <==> ledgers[j].applied_ids.contains(txs[k].id)) by {
        assert(ledgers[i] == opened(ledgers[i].id));
        assert(ledgers[j] == opened(ledgers[j].id));
    }
    lemma_exchanges_conserve(ledgers, txs, txs);
    lemma_total_of_new(ledgers);
}

} // verus!
