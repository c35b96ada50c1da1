use tx_ledger::peers::PeerSet;
use tx_ledger::signaling::{MessageKind, SignalingMessage};
use tx_ledger::transaction::{Status, Transaction};

fn names(peers: &PeerSet) -> Vec<String> {
    peers.members().clone()
}

fn set_of(list: &[&str]) -> PeerSet {
    let snapshot: Vec<String> = list.iter().map(|s| s.to_string()).collect();
    PeerSet::from_snapshot(&snapshot)
}

#[test]
fn join_adds_a_new_peer_once() {
    let mut peers = PeerSet::new();
    assert_eq!(peers.len(), 0);
    assert!(peers.join(&"B".to_string()));
    assert!(peers.join(&"C".to_string()));
    assert!(!peers.join(&"B".to_string()));
    assert_eq!(names(&peers), vec!["B", "C"]);
    assert_eq!(peers.len(), 2);
    assert!(peers.contains(&"B".to_string()));
    assert!(!peers.contains(&"A".to_string()));
}

#[test]
fn leave_removes_a_known_peer_only() {
    let mut peers = set_of(&["B", "C", "D"]);
    assert!(!peers.leave(&"Z".to_string()));
    assert_eq!(names(&peers), vec!["B", "C", "D"]);
    assert!(peers.leave(&"C".to_string()));
    assert_eq!(names(&peers), vec!["B", "D"]);
    assert!(!peers.leave(&"C".to_string()));
    assert_eq!(names(&peers), vec!["B", "D"]);
}

#[test]
fn leave_on_an_empty_set_is_a_no_op() {
    let mut peers = PeerSet::new();
    assert!(!peers.leave(&"B".to_string()));
    assert_eq!(peers.len(), 0);
}

#[test]
fn membership_changes_commute() {
    let mut one = set_of(&["B"]);
    one.join(&"C".to_string());
    one.leave(&"B".to_string());
    one.join(&"D".to_string());
    let mut other = set_of(&["B"]);
    other.join(&"D".to_string());
    other.leave(&"B".to_string());
    other.join(&"C".to_string());
    let mut left = names(&one);
    let mut right = names(&other);
    left.sort();
    right.sort();
    assert_eq!(left, right);
    assert_eq!(left, vec!["C", "D"]);
}

#[test]
fn snapshot_keeps_each_name_once() {
    let peers = set_of(&["B", "C", "B", "D", "C", "B"]);
    assert_eq!(names(&peers), vec!["B", "C", "D"]);
    assert_eq!(set_of(&[]).len(), 0);
}

#[test]
fn message_kinds_are_read_off_the_type() {
    let table = [
        ("join", MessageKind::Join),
        ("transaction", MessageKind::Transaction),
        ("welcome", MessageKind::Welcome),
        ("room-joined", MessageKind::RoomJoined),
        ("peer-joined", MessageKind::PeerJoined),
        ("peer-left", MessageKind::PeerLeft),
        ("transaction-broadcast", MessageKind::TransactionBroadcast),
        ("error", MessageKind::Error),
        ("offer", MessageKind::Offer),
        ("answer", MessageKind::Answer),
        ("ice_candidate", MessageKind::IceCandidate),
        ("transaction-p2p", MessageKind::TransactionP2p),
        ("webrtc-connected", MessageKind::WebrtcConnected),
        ("webrtc-disconnected", MessageKind::WebrtcDisconnected),
        ("", MessageKind::Unknown),
        ("Welcome", MessageKind::Unknown),
        ("peer-joined ", MessageKind::Unknown),
        ("ping", MessageKind::Unknown),
    ];
    for (text, kind) in table {
        assert_eq!(MessageKind::of(&text.to_string()), kind);
        assert_eq!(SignalingMessage::bare(text).kind(), kind);
    }
}

#[test]
fn bare_message_has_only_its_type() {
    assert_eq!(
        SignalingMessage::bare("welcome"),
        SignalingMessage {
            message_type: "welcome".to_string(),
            room_id: None,
            peer_id: None,
            target_peer: None,
            from_peer: None,
            transaction: None,
            peers: None,
            offer: None,
            answer: None,
            ice_candidate: None,
        }
    );
}

#[test]
fn join_message_names_room_and_peer() {
    let mut want = SignalingMessage::bare("join");
    want.room_id = Some("transaction-room".to_string());
    want.peer_id = Some("endpoint-7".to_string());
    assert_eq!(SignalingMessage::join("endpoint-7"), want);
    assert_eq!(SignalingMessage::join("endpoint-7").kind(), MessageKind::Join);
}

#[test]
fn transaction_message_carries_the_transfer() {
    let tx = Transaction {
        id: "550e8400-e29b-41d4-a716-446655440000".to_string(),
        from: "A".to_string(),
        to: "B".to_string(),
        amount: 1_500,
        timestamp: 99,
        signature: "sig_3".to_string(),
        status: Status::Pending,
    };
    let mut want = SignalingMessage::bare("transaction");
    want.room_id = Some("transaction-room".to_string());
    want.peer_id = Some("A".to_string());
    want.transaction = Some(tx.clone());
    assert_eq!(SignalingMessage::transaction("A", &tx), want);
}
