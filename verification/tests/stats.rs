use tx_ledger::stats::{endpoint_stats, global_stats, EndpointStats, SignedAmount, TransactionStats};
use tx_ledger::transaction::{Status, Transaction};

fn record(from: &str, to: &str, amount: u64) -> Transaction {
    Transaction {
        id: format!("{}-{}-{}", from, to, amount),
        from: from.to_string(),
        to: to.to_string(),
        amount,
        timestamp: 0,
        signature: String::new(),
        status: Status::Confirmed,
    }
}

fn figures(id: &str, count: u64, sent: u128, received: u128) -> EndpointStats {
    EndpointStats {
        endpoint_id: id.to_string(),
        transaction_count: count,
        total_sent: sent,
        total_received: received,
        balance_change: SignedAmount::difference(received, sent),
    }
}

#[test]
fn two_record_log_is_summarised() {
    let log = vec![record("A", "B", 10_000), record("B", "C", 4_000)];
    let stats = global_stats(&log);
    assert_eq!(stats.total_transactions, 2);
    assert_eq!(stats.total_volume, 14_000);
    assert_eq!(stats.average_transaction, 7_000);
    let b = endpoint_stats(&log, &"B".to_string());
    assert_eq!(b.endpoint_id, "B");
    assert_eq!(b.transaction_count, 2);
    assert_eq!(b.total_sent, 4_000);
    assert_eq!(b.total_received, 10_000);
    assert_eq!(b.balance_change, SignedAmount { negative: false, magnitude: 6_000 });
}

#[test]
fn empty_log_has_zero_average() {
    let stats = global_stats(&Vec::new());
    assert_eq!(
        stats,
        TransactionStats {
            total_transactions: 0,
            total_volume: 0,
            average_transaction: 0,
            average_remainder: 0,
            endpoints: vec![],
        }
    );
}

#[test]
fn global_figures_count_only_sent_records() {
    let log = vec![record("A", "B", 10_000), record("B", "C", 4_000), record("A", "C", 1)];
    let stats = global_stats(&log);
    assert_eq!(
        stats.endpoints,
        vec![figures("A", 2, 10_001, 0), figures("B", 1, 4_000, 10_000), figures("C", 0, 0, 4_001)]
    );
    assert_eq!(stats.endpoints[0].balance_change, SignedAmount { negative: true, magnitude: 10_001 });
    assert_eq!(stats.endpoints[2].balance_change, SignedAmount { negative: false, magnitude: 4_001 });
}

#[test]
fn endpoint_figures_count_both_sides() {
    let log = vec![record("A", "B", 10_000), record("B", "C", 4_000), record("A", "C", 1)];
    assert_eq!(endpoint_stats(&log, &"A".to_string()), figures("A", 2, 10_001, 0));
    assert_eq!(endpoint_stats(&log, &"C".to_string()), figures("C", 2, 0, 4_001));
    assert_eq!(endpoint_stats(&log, &"Z".to_string()), figures("Z", 0, 0, 0));
}

#[test]
fn transfer_to_oneself_is_one_record() {
    let log = vec![record("A", "A", 300)];
    assert_eq!(endpoint_stats(&log, &"A".to_string()), figures("A", 1, 300, 300));
    let stats = global_stats(&log);
    assert_eq!(stats.endpoints, vec![figures("A", 1, 300, 300)]);
    assert_eq!(stats.endpoints[0].balance_change, SignedAmount { negative: false, magnitude: 0 });
}

#[test]
fn average_is_exact() {
    let log = vec![record("A", "B", 1), record("A", "B", 2)];
    let stats = global_stats(&log);
    assert_eq!(stats.total_volume, 3);
    assert_eq!(stats.average_transaction, 1);
    assert_eq!(stats.average_remainder, 1);
    let log = vec![record("A", "B", 1), record("A", "B", 2), record("A", "B", 2)];
    let stats = global_stats(&log);
    assert_eq!(stats.total_volume, 5);
    assert_eq!(stats.average_transaction, 1);
    assert_eq!(stats.average_remainder, 2);
    assert_eq!(
        stats.average_transaction * stats.total_transactions as u128 + stats.average_remainder,
        stats.total_volume
    );
}

#[test]
fn even_average_leaves_no_remainder() {
    let log = vec![record("A", "B", 10_000), record("B", "C", 4_000)];
    let stats = global_stats(&log);
    assert_eq!(stats.average_transaction, 7_000);
    assert_eq!(stats.average_remainder, 0);
}

#[test]
fn totals_do_not_wrap() {
    let log = vec![record("A", "B", u64::MAX), record("A", "B", u64::MAX), record("B", "A", 5)];
    let stats = global_stats(&log);
    assert_eq!(stats.total_volume, 2 * (u64::MAX as u128) + 5);
    assert_eq!(stats.endpoints[0].total_sent, 2 * (u64::MAX as u128));
    assert_eq!(
        stats.endpoints[0].balance_change,
        SignedAmount { negative: true, magnitude: 2 * (u64::MAX as u128) - 5 }
    );
}

#[test]
fn endpoints_come_in_order_of_first_mention() {
    let log = vec![record("C", "A", 1), record("B", "C", 1), record("D", "B", 1)];
    let names: Vec<String> = global_stats(&log).endpoints.iter().map(|e| e.endpoint_id.clone()).collect();
    assert_eq!(names, vec!["C", "A", "B", "D"]);
}

#[test]
fn signed_difference() {
    assert_eq!(SignedAmount::difference(5, 3), SignedAmount { negative: false, magnitude: 2 });
    assert_eq!(SignedAmount::difference(3, 5), SignedAmount { negative: true, magnitude: 2 });
    assert_eq!(SignedAmount::difference(4, 4), SignedAmount { negative: false, magnitude: 0 });
    assert_eq!(
        SignedAmount::difference(0, u128::MAX),
        SignedAmount { negative: true, magnitude: u128::MAX }
    );
}

#[test]
fn empty_figures() {
    assert_eq!(EndpointStats::empty("A".to_string()), figures("A", 0, 0, 0));
}

#[test]
fn figures_of_all_endpoints_add_up() {
    let log = vec![
        record("A", "B", 10_000),
        record("B", "C", 4_000),
        record("A", "C", 1),
        record("C", "C", 250),
        record("D", "A", 77),
    ];
    let stats = global_stats(&log);
    let sent: u128 = stats.endpoints.iter().map(|e| e.total_sent).sum();
    let received: u128 = stats.endpoints.iter().map(|e| e.total_received).sum();
    let count: u64 = stats.endpoints.iter().map(|e| e.transaction_count).sum();
    let gained: u128 =
        stats.endpoints.iter().filter(|e| !e.balance_change.negative).map(|e| e.balance_change.magnitude).sum();
    let lost: u128 =
        stats.endpoints.iter().filter(|e| e.balance_change.negative).map(|e| e.balance_change.magnitude).sum();
    assert_eq!(sent, stats.total_volume);
    assert_eq!(received, stats.total_volume);
    assert_eq!(count, stats.total_transactions);
    assert_eq!(gained, lost);
    assert_eq!(stats.total_volume, 14_328);
}
