//! The envelope that an endpoint and its room exchange, whatever carries it.
//!
//! Every field but `message_type` is optional. Payloads that negotiate a
//! direct channel (`offer`, `answer`, `ice_candidate`) are carried along and
//! never looked into.

use vstd::prelude::*;
use vstd::string::*;
use crate::text::{names, text_of};
use crate::transaction::{text_is, Transaction, TxView};

verus! {

/// The room that endpoints join to exchange transfers.
pub open spec fn room_name() -> Seq<char> {
    "transaction-room"@
}

/// A candidate address for a direct channel; opaque to this crate.
#[derive(Debug, PartialEq, Eq)]
pub struct IceCandidate {
    pub candidate: String,
    pub sdp_mid: Option<String>,
    pub sdp_m_line_index: Option<u16>,
}

/// The content of an [`IceCandidate`].
pub struct IceCandidateView {
    pub candidate: Seq<char>,
    pub sdp_mid: Option<Seq<char>>,
    pub sdp_m_line_index: Option<u16>,
}

impl View for IceCandidate {
    type V = IceCandidateView;

    open spec fn view(&self) -> IceCandidateView {
        IceCandidateView {
            candidate: self.candidate@,
            sdp_mid: text_of(self.sdp_mid),
            sdp_m_line_index: self.sdp_m_line_index,
        }
    }
}

/// One message between an endpoint and its room.
#[derive(Debug, PartialEq, Eq)]
pub struct SignalingMessage {
    pub message_type: String,
    pub room_id: Option<String>,
    pub peer_id: Option<String>,
    pub target_peer: Option<String>,
    pub from_peer: Option<String>,
    pub transaction: Option<Transaction>,
    pub peers: Option<Vec<String>>,
    pub offer: Option<String>,
    pub answer: Option<String>,
    pub ice_candidate: Option<IceCandidate>,
}

/// The content of a [`SignalingMessage`].
pub struct MessageView {
    pub message_type: Seq<char>,
    pub room_id: Option<Seq<char>>,
    pub peer_id: Option<Seq<char>>,
    pub target_peer: Option<Seq<char>>,
    pub from_peer: Option<Seq<char>>,
    pub transaction: Option<TxView>,
    pub peers: Option<Seq<Seq<char>>>,
    pub offer: Option<Seq<char>>,
    pub answer: Option<Seq<char>>,
    pub ice_candidate: Option<IceCandidateView>,
}

impl View for SignalingMessage {
    type V = MessageView;

    open spec fn view(&self) -> MessageView {
        MessageView {
            message_type: self.message_type@,
            room_id: text_of(self.room_id),
            peer_id: text_of(self.peer_id),
            target_peer: text_of(self.target_peer),
            from_peer: text_of(self.from_peer),
            transaction: match self.transaction {
                Some(tx) => Some(tx@),
                None => None,
            },
            peers: match self.peers {
                Some(list) => Some(names(list@)),
                None => None,
            },
            offer: text_of(self.offer),
            answer: text_of(self.answer),
            ice_candidate: match self.ice_candidate {
                Some(candidate) => Some(candidate@),
                None => None,
            },
        }
    }
}

/// A message of the given type with every optional field absent.
pub open spec fn bare_message(message_type: Seq<char>) -> MessageView {
    MessageView {
        message_type,
        room_id: None,
        peer_id: None,
        target_peer: None,
        from_peer: None,
        transaction: None,
        peers: None,
        offer: None,
        answer: None,
        ice_candidate: None,
    }
}

/// The request by which endpoint `endpoint` enters the room.
pub open spec fn join_message(endpoint: Seq<char>) -> MessageView {
    MessageView { room_id: Some(room_name()), peer_id: Some(endpoint), ..bare_message("join"@) }
}

/// The message by which endpoint `endpoint` publishes `tx` to the room.
pub open spec fn transaction_message(endpoint: Seq<char>, tx: TxView) -> MessageView {
    MessageView {
        room_id: Some(room_name()),
        peer_id: Some(endpoint),
        transaction: Some(tx),
        ..bare_message("transaction"@)
    }
}

/// What a message is, by its `message_type`.
#[derive(Clone, Copy, Debug, PartialEq, Eq, Structural)]
pub enum MessageKind {
    /// `join`: an endpoint asks to enter a room.
    Join,
    /// `transaction`: an endpoint publishes a transfer to its room.
    Transaction,
    /// `welcome`: the relay acknowledges the connection.
    Welcome,
    /// `room-joined`: the relay admits the endpoint and lists the members.
    RoomJoined,
    /// `peer-joined`: another endpoint entered the room.
    PeerJoined,
    /// `peer-left`: another endpoint left the room.
    PeerLeft,
    /// `transaction-broadcast`: a transfer published by a peer.
    TransactionBroadcast,
    /// `error`: the transport failed.
    Error,
    /// `offer`: negotiation payload, passed through.
    Offer,
    /// `answer`: negotiation payload, passed through.
    Answer,
    /// `ice_candidate`: negotiation payload, passed through.
    IceCandidate,
    /// `transaction-p2p`: a transfer received over a direct channel.
    TransactionP2p,
    /// `webrtc-connected`: a direct channel to a peer is open.
    WebrtcConnected,
    /// `webrtc-disconnected`: a direct channel to a peer has closed.
    WebrtcDisconnected,
    /// Any other type.
    Unknown,
}

/// The kind that a `message_type` names.
pub open spec fn kind_of(message_type: Seq<char>) -> MessageKind {
    if message_type == "join"@ {
        MessageKind::Join
    } else if message_type == "transaction"@ {
        MessageKind::Transaction
    } else if message_type == "welcome"@ {
        MessageKind::Welcome
    } else if message_type == "room-joined"@ {
        MessageKind::RoomJoined
    } else if message_type == "peer-joined"@ {
        MessageKind::PeerJoined
    } else if message_type == "peer-left"@ {
        MessageKind::PeerLeft
    } else if message_type == "transaction-broadcast"@ {
        MessageKind::TransactionBroadcast
    } else if message_type == "error"@ {
        MessageKind::Error
    } else if message_type == "offer"@ {
        MessageKind::Offer
    } else if message_type == "answer"@ {
        MessageKind::Answer
    } else if message_type == "ice_candidate"@ {
        MessageKind::IceCandidate
    } else if message_type == "transaction-p2p"@ {
        MessageKind::TransactionP2p
    } else if message_type == "webrtc-connected"@ {
        MessageKind::WebrtcConnected
    } else if message_type == "webrtc-disconnected"@ {
        MessageKind::WebrtcDisconnected
    } else {
        MessageKind::Unknown
    }
}

impl MessageKind {
    /// Reads the kind off a `message_type`.
    pub fn of(message_type: &String) -> (kind: MessageKind)
        ensures
            kind == kind_of(message_type@),
    {
        if text_is(message_type, "join") {
            MessageKind::Join
        } else if text_is(message_type, "transaction") {
            MessageKind::Transaction
        } else if text_is(message_type, "welcome") {
            MessageKind::Welcome
        } else if text_is(message_type, "room-joined") {
            MessageKind::RoomJoined
        } else if text_is(message_type, "peer-joined") {
            MessageKind::PeerJoined
        } else if text_is(message_type, "peer-left") {
            MessageKind::PeerLeft
        } else if text_is(message_type, "transaction-broadcast") {
            MessageKind::TransactionBroadcast
        } else if text_is(message_type, "error") {
            MessageKind::Error
        } else if text_is(message_type, "offer") {
            MessageKind::Offer
        } else if text_is(message_type, "answer") {
            MessageKind::Answer
        } else if text_is(message_type, "ice_candidate") {
            MessageKind::IceCandidate
        } else if text_is(message_type, "transaction-p2p") {
            MessageKind::TransactionP2p
        } else if text_is(message_type, "webrtc-connected") {
            MessageKind::WebrtcConnected
        } else if text_is(message_type, "webrtc-disconnected") {
            MessageKind::WebrtcDisconnected
        } else {
            MessageKind::Unknown
        }
    }
}

impl SignalingMessage {
    /// A message of the given type with every optional field absent.
    pub fn bare(message_type: &str) -> (message: SignalingMessage)
        ensures
            message@ == bare_message(message_type@),
    {
        SignalingMessage {
            message_type: String::from_str(message_type),
            room_id: None,
            peer_id: None,
            target_peer: None,
            from_peer: None,
            transaction: None,
            peers: None,
            offer: None,
            answer: None,
            ice_candidate: None,
        }
    }

    /// The request to enter the room, sent once after the transport is up.
    pub fn join(endpoint_id: &str) -> (message: SignalingMessage)
        ensures
            message@ == join_message(endpoint_id@),
    {
        let mut message = SignalingMessage::bare("join");
        message.room_id = Some(String::from_str("transaction-room"));
        message.peer_id = Some(String::from_str(endpoint_id));
        message
    }

    /// The message that publishes `tx` to the room in the name of
    /// `endpoint_id`.
    pub fn transaction(endpoint_id: &str, tx: &Transaction) -> (message: SignalingMessage)
        ensures
            message@ == transaction_message(endpoint_id@, tx@),
    {
        let mut message = SignalingMessage::bare("transaction");
        message.room_id = Some(String::from_str("transaction-room"));
        message.peer_id = Some(String::from_str(endpoint_id));
        message.transaction = Some(tx.clone());
        message
    }

    /// What this message is.
    pub fn kind(&self) -> (kind: MessageKind)
        ensures
            kind == kind_of(self@.message_type),
    {
        MessageKind::of(&self.message_type)
    }
}

} // verus!
