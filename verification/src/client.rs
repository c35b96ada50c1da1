//! The synchronization client of one endpoint: its ledger, the peers it
//! knows, and the transfers it has seen, driven by the messages of its room
//! and by the transfers it creates itself.
//!
//! The client decides; it performs no sending or receiving. Each step takes
//! what arrived and says what changed and what, if anything, is to be sent.

use vstd::prelude::*;
use crate::ident::well_formed_id;
use crate::ledger::{accepts, applied, drafted, opened, LedgerError, LedgerView, TxEndpoint};
use crate::peers::{distinct, without, PeerSet};
use crate::signaling::{kind_of, transaction_message, MessageKind, MessageView, SignalingMessage};
use crate::text::noted;
use crate::transaction::{ids, remember, remembered, views, Transaction, TxView};

verus! {

/// The mathematical content of a client.
pub struct ClientView {
    pub ledger: LedgerView,
    pub peers: Seq<Seq<char>>,
    pub history: Seq<TxView>,
    pub connected: bool,
}

/// A client as it is created.
pub open spec fn started(id: Seq<char>) -> ClientView {
    ClientView { ledger: opened(id), peers: Seq::empty(), history: Seq::empty(), connected: false }
}

/// The client after a transfer has reached it, from a peer or from itself:
/// applied to the ledger and put on record, unless the ledger refuses it.
pub open spec fn received(client: ClientView, tx: TxView) -> ClientView {
    if accepts(client.ledger, tx) {
        ClientView {
            ledger: applied(client.ledger, tx),
            history: remembered(client.history, tx),
            ..client
        }
    } else {
        client
    }
}

/// The client after a message of its room.
pub open spec fn reacted(client: ClientView, message: MessageView) -> ClientView {
    match kind_of(message.message_type) {
        MessageKind::Welcome => ClientView { connected: true, ..client },
        MessageKind::RoomJoined => ClientView {
            connected: true,
            peers: match message.peers {
                Some(snapshot) => distinct(snapshot),
                None => client.peers,
            },
            ..client
        },
        MessageKind::PeerJoined | MessageKind::WebrtcConnected => match message.peer_id {
            Some(who) => ClientView { peers: noted(client.peers, who), ..client },
            None => client,
        },
        MessageKind::PeerLeft | MessageKind::WebrtcDisconnected => match message.peer_id {
            Some(who) => ClientView { peers: without(client.peers, who), ..client },
            None => client,
        },
        MessageKind::TransactionBroadcast | MessageKind::TransactionP2p => match message.transaction {
            Some(tx) => received(client, tx),
            None => client,
        },
        _ => client,
    }
}

/// What a client reports after a message.
#[derive(Clone, Copy, Debug, PartialEq, Eq, Structural)]
pub enum Reaction {
    /// The relay acknowledged the connection.
    Connected,
    /// A membership notice was taken into the peer set.
    Membership,
    /// A transfer was applied to the ledger, or found applied already.
    Applied,
    /// A transfer was refused by the ledger; nothing changed.
    Rejected(LedgerError),
    /// The relay reported a transport failure; nothing changed.
    TransportError,
    /// A negotiation payload for the transport; nothing changed.
    Negotiation,
    /// An unknown type, a type that only endpoints send, or a notice without
    /// its payload; nothing changed.
    Ignored,
}

/// The report that goes with [`reacted`].
pub open spec fn reaction_to(client: ClientView, message: MessageView) -> Reaction {
    match kind_of(message.message_type) {
        MessageKind::Welcome | MessageKind::RoomJoined => Reaction::Connected,
        MessageKind::PeerJoined | MessageKind::WebrtcConnected | MessageKind::PeerLeft | MessageKind::WebrtcDisconnected => {
            if message.peer_id.is_some() {
                Reaction::Membership
            } else {
                Reaction::Ignored
            }
        },
        MessageKind::TransactionBroadcast | MessageKind::TransactionP2p => match message.transaction {
            Some(tx) => if accepts(client.ledger, tx) {
                Reaction::Applied
            } else {
                Reaction::Rejected(LedgerError::InsufficientBalance)
            },
            None => Reaction::Ignored,
        },
        MessageKind::Error => Reaction::TransportError,
        MessageKind::Offer | MessageKind::Answer | MessageKind::IceCandidate => Reaction::Negotiation,
        MessageKind::Join | MessageKind::Transaction | MessageKind::Unknown => Reaction::Ignored,
    }
}

/// One endpoint's synchronization state.
#[derive(Debug)]
pub struct SyncClient {
    ledger: TxEndpoint,
    peers: PeerSet,
    history: Vec<Transaction>,
    connected: bool,
}

impl View for SyncClient {
    type V = ClientView;

    closed spec fn view(&self) -> ClientView {
        ClientView {
            ledger: self.ledger@,
            peers: self.peers@,
            history: views(self.history@),
            connected: self.connected,
        }
    }
}

impl SyncClient {
    /// The invariant of a client: a sound ledger, no peer twice, and no two
    /// transfers on record under one id.
    pub closed spec fn wf(&self) -> bool {
        &&& self.ledger.wf()
        &&& self.peers.wf()
        &&& ids(views(self.history@)).no_duplicates()
    }

    /// A client for endpoint `id`: a new ledger, no peers, nothing on record,
    /// not connected.
    pub fn new(id: &str) -> (client: SyncClient)
        ensures
            client.wf(),
            client@ == started(id@),
    {
        let client = SyncClient {
            ledger: TxEndpoint::new(id),
            peers: PeerSet::new(),
            history: Vec::new(),
            connected: false,
        };
        assert(views(client.history@) =~= Seq::<TxView>::empty());
        client
    }

    /// The ledger.
    pub fn ledger(&self) -> (ledger: &TxEndpoint)
        requires
            self.wf(),
        ensures
            ledger.wf(),
            ledger@ == self@.ledger,
    {
        &self.ledger
    }

    /// The peers known to be in the room.
    pub fn peers(&self) -> (peers: &PeerSet)
        requires
            self.wf(),
        ensures
            peers.wf(),
            peers@ == self@.peers,
    {
        &self.peers
    }

    /// The transfers on record, oldest first.
    pub fn history(&self) -> (history: &Vec<Transaction>)
        ensures
            views(history@) == self@.history,
    {
        &self.history
    }

    /// Whether the relay has acknowledged the connection.
    pub fn is_connected(&self) -> (connected: bool)
        ensures
            connected == self@.connected,
    {
        self.connected
    }

    /// Takes in a transfer: applies it to the ledger and puts it on record,
    /// unless the ledger refuses it.
    fn receive(&mut self, tx: Transaction) -> (outcome: Result<(), LedgerError>)
        requires
            old(self).wf(),
        ensures
            final(self).wf(),
            final(self)@ == received(old(self)@, tx@),
            outcome.is_ok() == accepts(old(self)@.ledger, tx@),
            outcome.is_err() ==> outcome == Err::<(), LedgerError>(LedgerError::InsufficientBalance),
    {
        match self.ledger.process_transaction(&tx) {
            Ok(()) => {
                remember(&mut self.history, tx);
                Ok(())
            },
            Err(refusal) => Err(refusal),
        }
    }

    /// Reacts to a message of the room. Membership notices update the peer
    /// set, transfers go through the ledger, everything else leaves the state
    /// as it is; no message is fatal.
    pub fn handle_signaling_message(&mut self, message: SignalingMessage) -> (reaction: Reaction)
        requires
            old(self).wf(),
        ensures
            final(self).wf(),
            final(self)@ == reacted(old(self)@, message@),
            reaction == reaction_to(old(self)@, message@),
    {
        match message.kind() {
            MessageKind::Welcome => {
                self.connected = true;
                Reaction::Connected
            },
            MessageKind::RoomJoined => {
                self.connected = true;
                match message.peers {
                    Some(snapshot) => {
                        self.peers = PeerSet::from_snapshot(&snapshot);
                    },
                    None => {},
                }
                Reaction::Connected
            },
            MessageKind::PeerJoined | MessageKind::WebrtcConnected => match message.peer_id {
                Some(who) => {
                    self.peers.join(&who);
                    Reaction::Membership
                },
                None => Reaction::Ignored,
            },
            MessageKind::PeerLeft | MessageKind::WebrtcDisconnected => match message.peer_id {
                Some(who) => {
                    self.peers.leave(&who);
                    Reaction::Membership
                },
                None => Reaction::Ignored,
            },
            MessageKind::TransactionBroadcast | MessageKind::TransactionP2p => match message.transaction {
                Some(tx) => match self.receive(tx) {
                    Ok(()) => Reaction::Applied,
                    Err(refusal) => Reaction::Rejected(refusal),
                },
                None => Reaction::Ignored,
            },
            MessageKind::Error => Reaction::TransportError,
            MessageKind::Offer | MessageKind::Answer | MessageKind::IceCandidate => Reaction::Negotiation,
            MessageKind::Join | MessageKind::Transaction | MessageKind::Unknown => Reaction::Ignored,
        }
    }

    /// Takes in a transfer that this endpoint created and, if the ledger
    /// accepts it, hands back the message that publishes it to the room. A
    /// refused transfer changes nothing and nothing is to be sent.
    pub fn publish(&mut self, tx: Transaction) -> (outcome: Result<SignalingMessage, LedgerError>)
        requires
            old(self).wf(),
        ensures
            final(self).wf(),
            final(self)@ == received(old(self)@, tx@),
            outcome.is_ok() == accepts(old(self)@.ledger, tx@),
            match outcome {
                Ok(message) => message@ == transaction_message(old(self)@.ledger.id, tx@),
                Err(refusal) => refusal == LedgerError::InsufficientBalance,
            },
    {
        let message = SignalingMessage::transaction(self.ledger.id().as_str(), &tx);
        match self.receive(tx) {
            Ok(()) => Ok(message),
            Err(refusal) => Err(refusal),
        }
    }

    /// Creates a transfer to `to` under a fresh identifier and publishes it.
    /// Which identifier is left open; for whichever was drawn the result is
    /// that of [`SyncClient::publish`] on the drafted transfer.
    pub fn submit(&mut self, to: &str, amount: u64, timestamp: u64) -> (outcome: Result<
        SignalingMessage,
        LedgerError,
    >)
        requires
            old(self).wf(),
        ensures
            final(self).wf(),
            exists|id: Seq<char>|
                {
                    let tx = #[trigger] drafted(old(self)@.ledger, id, to@, amount, timestamp);
                    &&& well_formed_id(id)
                    &&& final(self)@ == received(old(self)@, tx)
                    &&& outcome.is_ok() == accepts(old(self)@.ledger, tx)
                    &&& match outcome {
                        Ok(message) => message@ == transaction_message(old(self)@.ledger.id, tx),
                        Err(refusal) => refusal == LedgerError::InsufficientBalance,
                    }
                },
    {
        let tx = self.ledger.create_transaction(to, amount, timestamp);
        let ghost id = tx@.id;
        let outcome = self.publish(tx);
        proof {
            assert(tx@ == drafted(old(self)@.ledger, id, to@, amount, timestamp));
        }
        outcome
    }
}

} // verus!
