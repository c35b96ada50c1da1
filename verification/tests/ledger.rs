use tx_ledger::ledger::{LedgerError, TxEndpoint, STARTING_BALANCE};
use tx_ledger::transaction::{Status, Transaction};

fn transfer(id: &str, from: &str, to: &str, amount: u64) -> Transaction {
    Transaction {
        id: id.to_string(),
        from: from.to_string(),
        to: to.to_string(),
        amount,
        timestamp: 1_700_000_000_000,
        signature: "sig_0".to_string(),
        status: Status::Pending,
    }
}

#[test]
fn new_ledger_holds_the_starting_balance() {
    let ledger = TxEndpoint::new("A");
    assert_eq!(ledger.id(), "A");
    assert_eq!(ledger.balance(), 100_000);
    assert_eq!(ledger.balance(), STARTING_BALANCE);
    assert_eq!(ledger.applied_count(), 0);
}

#[test]
fn sender_is_debited_and_receiver_credited() {
    let mut a = TxEndpoint::new("A");
    let mut b = TxEndpoint::new("B");
    let tx = a.create_transaction("B", 15_000, 1_700_000_000_000);
    assert_eq!(a.balance(), 100_000);
    assert_eq!(a.process_transaction(&tx), Ok(()));
    assert_eq!(a.balance(), 85_000);
    assert_eq!(a.applied_count(), 1);
    assert_eq!(b.process_transaction(&tx), Ok(()));
    assert_eq!(b.balance(), 115_000);
    assert_eq!(b.applied_count(), 1);
}

#[test]
fn overdraft_is_refused_and_changes_nothing() {
    let mut a = TxEndpoint::new("A");
    assert_eq!(a.process_transaction(&transfer("t0", "A", "C", 95_000)), Ok(()));
    assert_eq!(a.balance(), 5_000);
    let tx = a.create_transaction("B", 10_000, 1);
    assert_eq!(a.process_transaction(&tx), Err(LedgerError::InsufficientBalance));
    assert_eq!(a.balance(), 5_000);
    assert_eq!(a.applied_count(), 1);
    assert!(!a.has_applied(&tx.id));
}

#[test]
fn refused_transfer_can_be_applied_once_funded() {
    let mut a = TxEndpoint::new("A");
    let big = transfer("big", "A", "B", 150_000);
    assert_eq!(a.process_transaction(&big), Err(LedgerError::InsufficientBalance));
    assert_eq!(a.process_transaction(&transfer("in", "C", "A", 60_000)), Ok(()));
    assert_eq!(a.process_transaction(&big), Ok(()));
    assert_eq!(a.balance(), 10_000);
    assert_eq!(a.applied_count(), 2);
}

#[test]
fn replay_of_an_applied_id_changes_nothing() {
    let mut a = TxEndpoint::new("A");
    let tx = transfer("t1", "A", "B", 30_000);
    assert_eq!(a.process_transaction(&tx), Ok(()));
    assert_eq!(a.process_transaction(&tx), Ok(()));
    assert_eq!(a.process_transaction(&tx), Ok(()));
    assert_eq!(a.balance(), 70_000);
    assert_eq!(a.applied_count(), 1);
    assert!(a.has_applied(&"t1".to_string()));
}

#[test]
fn replay_is_recognised_by_id_even_when_it_would_overdraw() {
    let mut a = TxEndpoint::new("A");
    assert_eq!(a.process_transaction(&transfer("t1", "A", "B", 100_000)), Ok(()));
    assert_eq!(a.balance(), 0);
    assert_eq!(a.process_transaction(&transfer("t1", "A", "B", 100_000)), Ok(()));
    assert_eq!(a.balance(), 0);
}

#[test]
fn foreign_transfer_is_recorded_but_not_counted() {
    let mut a = TxEndpoint::new("A");
    let tx = transfer("t2", "B", "C", 500);
    assert_eq!(a.process_transaction(&tx), Ok(()));
    assert_eq!(a.balance(), 100_000);
    assert_eq!(a.applied_count(), 0);
    assert!(a.has_applied(&tx.id));
}

#[test]
fn transfer_to_oneself_nets_to_zero() {
    let mut a = TxEndpoint::new("A");
    assert_eq!(a.process_transaction(&transfer("t3", "A", "A", 40_000)), Ok(()));
    assert_eq!(a.balance(), 100_000);
    assert_eq!(a.applied_count(), 1);
    assert_eq!(
        a.process_transaction(&transfer("t4", "A", "A", 100_001)),
        Err(LedgerError::InsufficientBalance)
    );
    assert_eq!(a.balance(), 100_000);
}

#[test]
fn zero_amount_is_applied_and_counted() {
    let mut a = TxEndpoint::new("A");
    assert_eq!(a.process_transaction(&transfer("t5", "A", "B", 0)), Ok(()));
    assert_eq!(a.balance(), 100_000);
    assert_eq!(a.applied_count(), 1);
}

#[test]
fn whole_balance_can_be_sent() {
    let mut a = TxEndpoint::new("A");
    assert_eq!(a.process_transaction(&transfer("t6", "A", "B", 100_000)), Ok(()));
    assert_eq!(a.balance(), 0);
    assert_eq!(
        a.process_transaction(&transfer("t7", "A", "B", 1)),
        Err(LedgerError::InsufficientBalance)
    );
}

#[test]
fn largest_amount_is_credited_without_wrapping() {
    let mut a = TxEndpoint::new("A");
    assert_eq!(a.process_transaction(&transfer("t8", "B", "A", u64::MAX)), Ok(()));
    assert_eq!(a.process_transaction(&transfer("t9", "B", "A", u64::MAX)), Ok(()));
    assert_eq!(a.balance(), 100_000 + 2 * (u64::MAX as u128));
}

#[test]
fn closed_system_keeps_its_total() {
    let names = ["A", "B", "C"];
    let mut ledgers = vec![TxEndpoint::new("A"), TxEndpoint::new("B"), TxEndpoint::new("C")];
    let txs = vec![
        transfer("c1", "A", "B", 10_000),
        transfer("c2", "B", "C", 4_000),
        transfer("c3", "C", "C", 700),
        transfer("c1", "A", "B", 10_000),
        transfer("c4", "C", "A", 104_000),
    ];
    for tx in &txs {
        for ledger in ledgers.iter_mut() {
            assert_eq!(ledger.process_transaction(tx), Ok(()));
        }
    }
    let total: u128 = ledgers.iter().map(|l| l.balance()).sum();
    assert_eq!(total, 3 * STARTING_BALANCE);
    assert_eq!(ledgers[0].id(), names[0]);
    assert_eq!(ledgers[0].balance(), 194_000);
    assert_eq!(ledgers[1].balance(), 106_000);
    assert_eq!(ledgers[2].balance(), 0);
}

#[test]
fn drafted_transfer_carries_the_given_fields() {
    let mut a = TxEndpoint::new("A");
    let first = a.draft("id-1".to_string(), "B", 250, 42);
    assert_eq!(
        first,
        Transaction {
            id: "id-1".to_string(),
            from: "A".to_string(),
            to: "B".to_string(),
            amount: 250,
            timestamp: 42,
            signature: "sig_0".to_string(),
            status: Status::Pending,
        }
    );
    assert_eq!(a.balance(), 100_000);
    assert_eq!(a.process_transaction(&first), Ok(()));
    let second = a.draft("id-2".to_string(), "C", 1, 43);
    assert_eq!(second.signature, "sig_1");
}

#[test]
fn signature_counts_in_decimal() {
    let mut a = TxEndpoint::new("A");
    for n in 0..12u64 {
        let tx = transfer(&format!("s{}", n), "B", "A", 1);
        assert_eq!(a.process_transaction(&tx), Ok(()));
    }
    assert_eq!(a.draft("x".to_string(), "B", 1, 1).signature, "sig_12");
}

#[test]
fn created_transfers_have_fresh_well_formed_ids() {
    let a = TxEndpoint::new("A");
    let one = a.create_transaction("B", 5, 7);
    let two = a.create_transaction("B", 5, 7);
    assert_eq!(one.id.len(), 36);
    assert!(tx_ledger::ident::is_well_formed_id(&one.id));
    assert!(tx_ledger::ident::is_well_formed_id(&two.id));
    assert_ne!(one.id, two.id);
    assert_eq!(one.from, "A");
    assert_eq!(one.to, "B");
    assert_eq!(one.amount, 5);
    assert_eq!(one.timestamp, 7);
    assert_eq!(one.status, Status::Pending);
    assert_eq!(one.signature, "sig_0");
}

fn exchange(ledgers: &mut [TxEndpoint], tx: &Transaction) {
    let sender = ledgers.iter().position(|l| *l.id() == tx.from).unwrap();
    if ledgers[sender].process_transaction(tx).is_ok() {
        let receiver = ledgers.iter().position(|l| *l.id() == tx.to).unwrap();
        assert_eq!(ledgers[receiver].process_transaction(tx), Ok(()));
    }
}

#[test]
fn sender_first_exchange_keeps_the_total() {
    let mut ledgers = vec![TxEndpoint::new("A"), TxEndpoint::new("B"), TxEndpoint::new("C")];
    let txs = vec![
        transfer("e1", "A", "B", 60_000),
        transfer("e2", "A", "C", 50_000),
        transfer("e1", "A", "B", 60_000),
        transfer("e3", "B", "B", 1_000),
        transfer("e4", "C", "A", 100_000),
        transfer("e2", "A", "C", 50_000),
        transfer("e5", "B", "A", 160_000),
        transfer("e6", "B", "C", 0),
    ];
    for tx in &txs {
        exchange(&mut ledgers, tx);
        let total: u128 = ledgers.iter().map(|l| l.balance()).sum();
        assert_eq!(total, 3 * STARTING_BALANCE);
    }
    assert_eq!(ledgers[0].balance(), 250_000);
    assert_eq!(ledgers[1].balance(), 0);
    assert_eq!(ledgers[2].balance(), 50_000);
}

#[test]
fn reused_id_for_another_receiver_creates_value() {
    let mut ledgers = vec![TxEndpoint::new("A"), TxEndpoint::new("B"), TxEndpoint::new("C")];
    exchange(&mut ledgers, &transfer("x", "A", "B", 100));
    exchange(&mut ledgers, &transfer("x", "A", "C", 10));
    let total: u128 = ledgers.iter().map(|l| l.balance()).sum();
    assert_eq!(total, 3 * STARTING_BALANCE + 10);
}
