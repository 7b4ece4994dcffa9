//! The client session core: the protocol half of the rendering client.
//!
//! The core decides what the connecting side sends and how each server
//! message changes its local copy of the world; sockets and rendering
//! live outside the library and drive this core with plain values.

use vstd::prelude::*;

pub mod cli;

use crate::message::{ClientMessage, ClientMessageView, ServerMessage, ServerMessageView};
use crate::world::World;
use crate::world::entities::{PlayerView, pairs_map, unique_ids};

verus! {

/// Where a session stands.
#[derive(Clone, Copy, Debug, PartialEq, Eq, Structural)]
pub enum SessionPhase {
    /// The handshake went out; the next message decides.
    AwaitingAccept,
    /// The server accepted; world snapshots are being applied.
    Active,
    /// The session ended: the server refused or disconnected.
    Closed,
}

/// Why a session ended during the handshake.
#[derive(Clone, Copy, Debug, PartialEq, Eq, Structural)]
pub enum ClientError {
    /// The server answered the handshake with anything but an
    /// acceptance.
    ConnectionRefused,
}

/// The verified state of one client session.
pub struct ClientCore {
    phase: SessionPhase,
    player_id: Option<u64>,
    world: World,
}

impl ClientCore {
    /// Where the session stands.
    pub closed spec fn phase(self) -> SessionPhase {
        self.phase
    }

    /// The server-assigned id, once accepted.
    pub closed spec fn player_id(self) -> Option<u64> {
        self.player_id
    }

    /// The local copy of the player mapping.
    pub closed spec fn players(self) -> Map<u64, PlayerView> {
        self.world.players()
    }

    /// Well-formed: an id exactly when the session is active or was,
    /// and a duplicate-free local world.
    pub closed spec fn wf(self) -> bool {
        &&& self.world.wf()
        &&& self.phase is Active ==> self.player_id is Some
    }

    /// Opens a session: the returned message is the handshake to send,
    /// and the core awaits the server's answer with an empty world.
    pub fn connect(username: Vec<u8>, password: Vec<u8>) -> (r: (ClientCore, ClientMessage))
        ensures
            r.0.wf(),
            r.0.phase() == SessionPhase::AwaitingAccept,
            r.0.player_id() is None,
            r.0.players() =~= Map::<u64, PlayerView>::empty(),
            r.1@ == ClientMessageView::Connect(username@, password@),
    {
        let core = ClientCore {
            phase: SessionPhase::AwaitingAccept,
            player_id: None,
            world: World::new(),
        };
        (core, ClientMessage::Connect(username, password))
    }

    /// The id getter the rendering side keys its own player by.
    pub fn id(&self) -> (r: Option<u64>)
        ensures
            r == self.player_id(),
    {
        self.player_id
    }

    /// A message for the server carrying this side's own player state.
    pub fn update_message(&self, player: crate::world::entities::Player) -> (m: ClientMessage)
        ensures
            m@ == ClientMessageView::NotifyUpdatePlayer(player@),
    {
        ClientMessage::NotifyUpdatePlayer(player)
    }

    /// Applies one server message to the session.
    ///
    /// Awaiting the handshake answer, only `ConnectionAccepted` opens
    /// the session; anything else refuses it and closes. Once active,
    /// a snapshot replaces the local world, a server disconnect closes
    /// the session, and any other message is ignored. A snapshot's
    /// registry is duplicate-free, as every decoded snapshot is.
    pub fn handle_server_message(&mut self, msg: ServerMessage) -> (r: Result<(), ClientError>)
        requires
            old(self).wf(),
            msg@ matches ServerMessageView::UpdateEntities(es) ==> unique_ids(es),
        ensures
            final(self).wf(),
            match old(self).phase() {
                SessionPhase::AwaitingAccept => match msg@ {
                    ServerMessageView::ConnectionAccepted(id) => {
                        &&& r is Ok
                        &&& final(self).phase() == SessionPhase::Active
                        &&& final(self).player_id() == Some(id)
                        &&& final(self).players() == old(self).players()
                    },
                    _ => {
                        &&& r == Result::<(), ClientError>::Err(ClientError::ConnectionRefused)
                        &&& final(self).phase() == SessionPhase::Closed
                        &&& final(self).players() == old(self).players()
                    },
                },
                SessionPhase::Active => {
                    &&& r is Ok
                    &&& final(self).player_id() == old(self).player_id()
                    &&& match msg@ {
                        ServerMessageView::UpdateEntities(es) => {
                            &&& final(self).phase() == SessionPhase::Active
                            &&& final(self).players() == pairs_map(es)
                        },
                        ServerMessageView::Disconnect => {
                            &&& final(self).phase() == SessionPhase::Closed
                            &&& final(self).players() == old(self).players()
                        },
                        _ => {
                            &&& final(self).phase() == SessionPhase::Active
                            &&& final(self).players() == old(self).players()
                        },
                    }
                },
                SessionPhase::Closed => {
                    &&& r is Ok
                    &&& final(self).phase() == SessionPhase::Closed
                    &&& final(self).players() == old(self).players()
                },
            },
    {
        match self.phase {
            SessionPhase::AwaitingAccept => match msg {
                ServerMessage::ConnectionAccepted(id) => {
                    self.phase = SessionPhase::Active;
                    self.player_id = Some(id);
                    Ok(())
                },
                _ => {
                    self.phase = SessionPhase::Closed;
                    Err(ClientError::ConnectionRefused)
                },
            },
            SessionPhase::Active => match msg {
                ServerMessage::UpdateEntities(e) => {
                    self.world.entities = e;
                    proof {
                        self.world.entities.lemma_wf_from_pairs();
                    }
                    Ok(())
                },
                ServerMessage::Disconnect => {
                    self.phase = SessionPhase::Closed;
                    Ok(())
                },
                _ => Ok(()),
            },
            SessionPhase::Closed => Ok(()),
        }
    }

    /// The player at `id` in the local world, if any.
    pub fn get_player(&self, id: u64) -> (r: Option<&crate::world::entities::Player>)
        requires
            self.wf(),
        ensures
            match r {
                Some(p) => self.players().contains_key(id) && p@ == self.players()[id],
                None => !self.players().contains_key(id),
            },
    {
        self.world.entities.get(id)
    }
}

} // verus!
