use tx_ledger::client::{Reaction, SyncClient};
use tx_ledger::ident::is_well_formed_id;
use tx_ledger::ledger::LedgerError;
use tx_ledger::signaling::{IceCandidate, SignalingMessage};
use tx_ledger::transaction::{Status, Transaction};

fn transfer(id: &str, from: &str, to: &str, amount: u64) -> Transaction {
    Transaction {
        id: id.to_string(),
        from: from.to_string(),
        to: to.to_string(),
        amount,
        timestamp: 5,
        signature: "sig_0".to_string(),
        status: Status::Pending,
    }
}

fn notice(kind: &str, peer: &str) -> SignalingMessage {
    let mut message = SignalingMessage::bare(kind);
    message.peer_id = Some(peer.to_string());
    message
}

fn carrying(kind: &str, tx: Transaction) -> SignalingMessage {
    let mut message = SignalingMessage::bare(kind);
    message.transaction = Some(tx);
    message
}

fn peers_of(client: &SyncClient) -> Vec<String> {
    client.peers().members().clone()
}

#[test]
fn new_client_is_idle() {
    let client = SyncClient::new("A");
    assert!(!client.is_connected());
    assert_eq!(client.ledger().id(), "A");
    assert_eq!(client.ledger().balance(), 100_000);
    assert_eq!(client.peers().len(), 0);
    assert!(client.history().is_empty());
}

#[test]
fn welcome_connects() {
    let mut client = SyncClient::new("A");
    assert_eq!(client.handle_signaling_message(SignalingMessage::bare("welcome")), Reaction::Connected);
    assert!(client.is_connected());
    assert_eq!(client.peers().len(), 0);
}

#[test]
fn room_joined_takes_the_snapshot() {
    let mut client = SyncClient::new("A");
    client.handle_signaling_message(notice("peer-joined", "X"));
    let mut message = SignalingMessage::bare("room-joined");
    message.peers = Some(vec!["B".to_string(), "C".to_string(), "B".to_string()]);
    assert_eq!(client.handle_signaling_message(message), Reaction::Connected);
    assert!(client.is_connected());
    assert_eq!(peers_of(&client), vec!["B", "C"]);
}

#[test]
fn room_joined_without_a_snapshot_keeps_the_peers() {
    let mut client = SyncClient::new("A");
    client.handle_signaling_message(notice("peer-joined", "X"));
    assert_eq!(client.handle_signaling_message(SignalingMessage::bare("room-joined")), Reaction::Connected);
    assert!(client.is_connected());
    assert_eq!(peers_of(&client), vec!["X"]);
}

#[test]
fn membership_notices_update_the_peers() {
    let mut client = SyncClient::new("A");
    assert_eq!(client.handle_signaling_message(notice("peer-joined", "B")), Reaction::Membership);
    assert_eq!(client.handle_signaling_message(notice("peer-joined", "B")), Reaction::Membership);
    assert_eq!(client.handle_signaling_message(notice("webrtc-connected", "C")), Reaction::Membership);
    assert_eq!(peers_of(&client), vec!["B", "C"]);
    assert_eq!(client.handle_signaling_message(notice("peer-left", "Z")), Reaction::Membership);
    assert_eq!(peers_of(&client), vec!["B", "C"]);
    assert_eq!(client.handle_signaling_message(notice("peer-left", "B")), Reaction::Membership);
    assert_eq!(client.handle_signaling_message(notice("webrtc-disconnected", "C")), Reaction::Membership);
    assert_eq!(client.peers().len(), 0);
    assert!(!client.is_connected());
}

#[test]
fn notice_without_a_peer_is_ignored() {
    let mut client = SyncClient::new("A");
    client.handle_signaling_message(notice("peer-joined", "B"));
    assert_eq!(client.handle_signaling_message(SignalingMessage::bare("peer-joined")), Reaction::Ignored);
    assert_eq!(client.handle_signaling_message(SignalingMessage::bare("peer-left")), Reaction::Ignored);
    assert_eq!(peers_of(&client), vec!["B"]);
}

#[test]
fn broadcast_goes_through_the_ledger() {
    let mut client = SyncClient::new("B");
    let tx = transfer("t1", "A", "B", 15_000);
    assert_eq!(
        client.handle_signaling_message(carrying("transaction-broadcast", tx.clone())),
        Reaction::Applied
    );
    assert_eq!(client.ledger().balance(), 115_000);
    assert_eq!(client.ledger().applied_count(), 1);
    assert_eq!(client.history(), &vec![tx.clone()]);
    assert_eq!(client.handle_signaling_message(carrying("transaction-p2p", tx.clone())), Reaction::Applied);
    assert_eq!(client.ledger().balance(), 115_000);
    assert_eq!(client.history(), &vec![tx]);
}

#[test]
fn direct_channel_transfer_is_applied_too() {
    let mut client = SyncClient::new("B");
    let tx = transfer("t1", "A", "B", 1);
    assert_eq!(client.handle_signaling_message(carrying("transaction-p2p", tx)), Reaction::Applied);
    assert_eq!(client.ledger().balance(), 100_001);
}

#[test]
fn overdrawing_broadcast_is_rejected() {
    let mut client = SyncClient::new("A");
    client.handle_signaling_message(notice("peer-joined", "B"));
    let tx = transfer("t1", "A", "B", 100_001);
    assert_eq!(
        client.handle_signaling_message(carrying("transaction-broadcast", tx)),
        Reaction::Rejected(LedgerError::InsufficientBalance)
    );
    assert_eq!(client.ledger().balance(), 100_000);
    assert!(client.history().is_empty());
    assert_eq!(peers_of(&client), vec!["B"]);
}

#[test]
fn broadcast_without_a_transfer_is_ignored() {
    let mut client = SyncClient::new("A");
    assert_eq!(
        client.handle_signaling_message(SignalingMessage::bare("transaction-broadcast")),
        Reaction::Ignored
    );
    assert!(client.history().is_empty());
}

#[test]
fn error_keeps_the_state() {
    let mut client = SyncClient::new("A");
    client.handle_signaling_message(SignalingMessage::bare("welcome"));
    client.handle_signaling_message(notice("peer-joined", "B"));
    assert_eq!(client.handle_signaling_message(SignalingMessage::bare("error")), Reaction::TransportError);
    assert!(client.is_connected());
    assert_eq!(peers_of(&client), vec!["B"]);
    assert_eq!(client.ledger().balance(), 100_000);
}

#[test]
fn negotiation_payloads_pass_through() {
    let mut client = SyncClient::new("A");
    let mut offer = SignalingMessage::bare("offer");
    offer.offer = Some("v=0".to_string());
    offer.from_peer = Some("B".to_string());
    assert_eq!(client.handle_signaling_message(offer), Reaction::Negotiation);
    let mut answer = SignalingMessage::bare("answer");
    answer.answer = Some("v=0".to_string());
    assert_eq!(client.handle_signaling_message(answer), Reaction::Negotiation);
    let mut candidate = SignalingMessage::bare("ice_candidate");
    candidate.ice_candidate = Some(IceCandidate {
        candidate: "candidate:1".to_string(),
        sdp_mid: Some("0".to_string()),
        sdp_m_line_index: Some(0),
    });
    assert_eq!(client.handle_signaling_message(candidate), Reaction::Negotiation);
    assert_eq!(client.peers().len(), 0);
    assert!(!client.is_connected());
}

#[test]
fn unknown_and_outbound_types_are_ignored() {
    let mut client = SyncClient::new("A");
    assert_eq!(client.handle_signaling_message(SignalingMessage::bare("ping")), Reaction::Ignored);
    assert_eq!(client.handle_signaling_message(SignalingMessage::join("B")), Reaction::Ignored);
    let tx = transfer("t1", "B", "A", 10);
    assert_eq!(client.handle_signaling_message(SignalingMessage::transaction("B", &tx)), Reaction::Ignored);
    assert_eq!(client.ledger().balance(), 100_000);
    assert_eq!(client.peers().len(), 0);
    assert!(client.history().is_empty());
}

#[test]
fn publish_applies_and_hands_back_the_message() {
    let mut client = SyncClient::new("A");
    let tx = transfer("t1", "A", "B", 15_000);
    let message = client.publish(tx.clone());
    assert_eq!(message, Ok(SignalingMessage::transaction("A", &tx)));
    assert_eq!(client.ledger().balance(), 85_000);
    assert_eq!(client.history(), &vec![tx.clone()]);
    assert_eq!(
        client.handle_signaling_message(carrying("transaction-broadcast", tx)),
        Reaction::Applied
    );
    assert_eq!(client.ledger().balance(), 85_000);
    assert_eq!(client.ledger().applied_count(), 1);
}

#[test]
fn publish_reports_an_overdraft() {
    let mut client = SyncClient::new("A");
    assert_eq!(client.publish(transfer("t1", "A", "B", 100_001)), Err(LedgerError::InsufficientBalance));
    assert_eq!(client.ledger().balance(), 100_000);
    assert!(client.history().is_empty());
}

#[test]
fn record_under_a_seen_id_is_replaced() {
    let mut client = SyncClient::new("C");
    let first = transfer("t1", "A", "B", 1);
    let other = transfer("t2", "A", "B", 2);
    let mut again = transfer("t1", "A", "B", 1);
    again.status = Status::Confirmed;
    client.handle_signaling_message(carrying("transaction-broadcast", first));
    client.handle_signaling_message(carrying("transaction-broadcast", other.clone()));
    client.handle_signaling_message(carrying("transaction-broadcast", again.clone()));
    assert_eq!(client.history(), &vec![again, other]);
}

#[test]
fn submit_creates_applies_and_publishes() {
    let mut client = SyncClient::new("A");
    let message = client.submit("B", 15_000, 1234).unwrap();
    let tx = message.transaction.clone().unwrap();
    assert!(is_well_formed_id(&tx.id));
    assert_eq!(tx.from, "A");
    assert_eq!(tx.to, "B");
    assert_eq!(tx.amount, 15_000);
    assert_eq!(tx.timestamp, 1234);
    assert_eq!(tx.signature, "sig_0");
    assert_eq!(tx.status, Status::Pending);
    assert_eq!(message, SignalingMessage::transaction("A", &tx));
    assert_eq!(client.ledger().balance(), 85_000);
    assert_eq!(client.ledger().applied_count(), 1);
    assert_eq!(client.history(), &vec![tx]);
    let next = client.submit("B", 1, 1235).unwrap();
    assert_eq!(next.transaction.unwrap().signature, "sig_1");
}

#[test]
fn submit_reports_an_overdraft() {
    let mut client = SyncClient::new("A");
    assert_eq!(client.submit("B", 100_001, 1), Err(LedgerError::InsufficientBalance));
    assert_eq!(client.ledger().balance(), 100_000);
    assert!(client.history().is_empty());
}
