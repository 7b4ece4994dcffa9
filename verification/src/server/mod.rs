//! The server core: dispatcher and per-connection actors as one
//! synchronous state machine.
//!
//! The core owns the world, the registry of connections and the two id
//! counters. Everything the asynchronous shell around it does — accept
//! a connection, receive a frame, see a socket close, fire a tick —
//! becomes one call into this core; the core mutates the world, decides
//! replies and queues every outbound message in the per-connection
//! outboxes, which the shell drains to the sockets.
//!
//! The central invariant: the world's player mapping holds exactly the
//! ids of the connections that completed their handshake, so no entry
//! outlives its connection.

use vstd::prelude::*;

pub mod cli;

use crate::color::Color;
use crate::message::{ClientMessage, ClientMessageView, ServerMessage, ServerMessageView};
use crate::vec2::Vec2;
use crate::world::World;
use crate::world::entities::{Player, PlayerView, pairs_map, unique_ids};
use cli::{ServerConfig, password_ok, spec_password_ok};

verus! {

/// The fixed simulation step: sixty ticks per second.
pub const TICK_DT_NUM: u32 = 1;
pub const TICK_DT_DEN: u32 = 60;

/// What the dispatcher decides for a freshly accepted connection.
#[derive(Clone, Copy, Debug, PartialEq, Eq, Structural)]
pub enum AcceptDecision {
    /// Registered under this connection id; a handshake may follow.
    Accepted(u64),
    /// The server is full: the connection is dropped without handshake.
    Rejected,
}

/// A command on the dispatcher's inbox.
#[derive(Debug)]
pub enum ServerCommand {
    /// Deliver this message to every connected client.
    Broadcast(ServerMessage),
    /// Deliver a snapshot of the world, taken at drain time.
    RequestEntitySnapshot,
}

/// One registered connection.
struct Connection {
    conn_id: u64,
    /// The server-assigned player id, once the handshake succeeded.
    player_id: Option<u64>,
    /// Messages queued for this connection's socket.
    outbox: Vec<ServerMessage>,
}

/// The mathematical image of one registered connection.
#[verifier::ext_equal]
pub struct ConnModel {
    pub conn_id: u64,
    pub player_id: Option<u64>,
    pub outbox: Seq<ServerMessageView>,
}

/// The images of a sequence of messages.
pub open spec fn msg_views(s: Seq<ServerMessage>) -> Seq<ServerMessageView> {
    s.map_values(|m: ServerMessage| m@)
}

spec fn conn_view(c: Connection) -> ConnModel {
    ConnModel { conn_id: c.conn_id, player_id: c.player_id, outbox: msg_views(c.outbox@) }
}

/// Whether a connection with this id is registered.
pub open spec fn has_conn(conns: Seq<ConnModel>, conn_id: u64) -> bool {
    exists|i: int| 0 <= i < conns.len() && conns[i].conn_id == conn_id
}

/// The index of a registered connection id.
pub open spec fn conn_index(conns: Seq<ConnModel>, conn_id: u64) -> int {
    choose|i: int| 0 <= i < conns.len() && conns[i].conn_id == conn_id
}

/// A snapshot sequence denotes a player mapping: duplicate-free entries
/// whose denoted map is exactly that mapping.
pub open spec fn is_snapshot_of(es: Seq<(u64, PlayerView)>, players: Map<u64, PlayerView>) -> bool {
    unique_ids(es) && pairs_map(es) == players
}

/// The one way outboxes grow on a broadcast: every connection that
/// completed its handshake has the message appended, every other
/// connection is untouched, and ids and states are kept.
pub open spec fn outboxes_extended(
    pre: Seq<ConnModel>,
    post: Seq<ConnModel>,
    msg: ServerMessageView,
) -> bool {
    &&& post.len() == pre.len()
    &&& forall|i: int| 0 <= i < pre.len() ==> #[trigger] post[i] == ConnModel {
        outbox: if pre[i].player_id is Some {
            pre[i].outbox.push(msg)
        } else {
            pre[i].outbox
        },
        ..pre[i]
    }
}

/// No player entry outlives or precedes its connection: in every
/// well-formed core — and every operation of the core keeps it
/// well-formed — the world's player mapping holds exactly the player
/// ids of the currently registered connections whose handshake
/// succeeded. A disconnected player can therefore never linger.
pub proof fn lemma_no_leaked_players(s: ServerCore)
    requires
        s.inv(),
    ensures
        forall|id: u64| #[trigger] s.players().contains_key(id)
            <==> exists|i: int| 0 <= i < s.conns().len() && s.conns()[i].player_id == Some(id),
{
}

/// Nothing observable changed: players, connections and the player-id
/// counter are as before.
pub open spec fn core_unchanged(pre: ServerCore, post: ServerCore) -> bool {
    &&& post.players() == pre.players()
    &&& post.conns() == pre.conns()
    &&& post.next_player_id() == pre.next_player_id()
}

/// The connections after a handshake succeeded at index `i`: that
/// connection becomes active under the new id and is sent
/// `ConnectionAccepted` followed by the fresh snapshot; every other
/// connected client is sent the snapshot; a still-awaiting connection
/// gets nothing.
pub open spec fn conns_after_accept(
    pre: Seq<ConnModel>,
    post: Seq<ConnModel>,
    i: int,
    pid: u64,
    es: Seq<(u64, PlayerView)>,
) -> bool {
    &&& post.len() == pre.len()
    &&& post[i] == (ConnModel {
        conn_id: pre[i].conn_id,
        player_id: Some(pid),
        outbox: pre[i].outbox.push(ServerMessageView::ConnectionAccepted(pid)).push(
            ServerMessageView::UpdateEntities(es),
        ),
    })
    &&& forall|j: int| 0 <= j < pre.len() && j != i ==> #[trigger] post[j] == (ConnModel {
        outbox: if pre[j].player_id is Some {
            pre[j].outbox.push(ServerMessageView::UpdateEntities(es))
        } else {
            pre[j].outbox
        },
        ..pre[j]
    })
}

/// A handshake succeeded at connection index `i`: the next player id is
/// spent on a new player with the given name, the chosen color and zero
/// position and velocity.
pub open spec fn connect_accepted(
    pre: ServerCore,
    post: ServerCore,
    i: int,
    username: Seq<u8>,
    color: Color,
) -> bool {
    let pid = pre.next_player_id();
    let newp = PlayerView {
        username,
        color,
        pos: Vec2 { x: 0, y: 0 },
        vel: Vec2 { x: 0, y: 0 },
    };
    &&& post.next_player_id() == pid + 1
    &&& post.players() == pre.players().insert(pid, newp)
    &&& exists|es: Seq<(u64, PlayerView)>|
        #[trigger] is_snapshot_of(es, post.players()) && conns_after_accept(
            pre.conns(),
            post.conns(),
            i,
            pid,
            es,
        )
}

/// A handshake carried a wrong password: the connection at index `i`
/// is told `PasswordFailed` and stays open awaiting another attempt;
/// nothing else changes, and in particular no player appears.
pub open spec fn connect_rejected(pre: ServerCore, post: ServerCore, i: int) -> bool {
    &&& post.players() == pre.players()
    &&& post.next_player_id() == pre.next_player_id()
    &&& post.conns().len() == pre.conns().len()
    &&& post.conns()[i] == (ConnModel {
        outbox: pre.conns()[i].outbox.push(ServerMessageView::PasswordFailed),
        ..pre.conns()[i]
    })
    &&& forall|j: int| 0 <= j < pre.conns().len() && j != i
        ==> #[trigger] post.conns()[j] == pre.conns()[j]
}

/// The connection at index `i` is gone. Its player, if it had one, left
/// the world, and every remaining connected client is sent the new
/// snapshot so peers promptly see the departure.
pub open spec fn conn_departed(
    pre: ServerCore,
    post: ServerCore,
    i: int,
    pid: Option<u64>,
) -> bool {
    &&& post.next_player_id() == pre.next_player_id()
    &&& match pid {
        Some(p) => {
            &&& post.players() == pre.players().remove(p)
            &&& exists|es: Seq<(u64, PlayerView)>|
                #[trigger] is_snapshot_of(es, post.players()) && outboxes_extended(
                    pre.conns().remove(i),
                    post.conns(),
                    ServerMessageView::UpdateEntities(es),
                )
        },
        None => post.players() == pre.players() && post.conns() == pre.conns().remove(i),
    }
}

/// An active player's own state was replaced, under the server-assigned
/// id, and every connected client is sent the new snapshot.
pub open spec fn player_updated(
    pre: ServerCore,
    post: ServerCore,
    pid: u64,
    p: PlayerView,
) -> bool {
    &&& post.players() == pre.players().insert(pid, p)
    &&& post.next_player_id() == pre.next_player_id()
    &&& exists|es: Seq<(u64, PlayerView)>|
        #[trigger] is_snapshot_of(es, post.players()) && outboxes_extended(
            pre.conns(),
            post.conns(),
            ServerMessageView::UpdateEntities(es),
        )
}

/// A liveness ping was relayed to every connected client.
pub open spec fn ping_broadcast(pre: ServerCore, post: ServerCore) -> bool {
    &&& post.players() == pre.players()
    &&& post.next_player_id() == pre.next_player_id()
    &&& outboxes_extended(pre.conns(), post.conns(), ServerMessageView::Ping)
}

/// What one inbound frame does to the core, as a whole: the
/// per-connection state machine of the protocol. A message that is not
/// valid for the connection's state is ignored, not an error.
pub open spec fn frame_transition(
    pre: ServerCore,
    post: ServerCore,
    conn_id: u64,
    msg: ClientMessageView,
    color: Color,
) -> bool {
    if !has_conn(pre.conns(), conn_id) {
        core_unchanged(pre, post)
    } else {
        let i = conn_index(pre.conns(), conn_id);
        match pre.conns()[i].player_id {
            None => match msg {
                ClientMessageView::Connect(u, pw) => {
                    if spec_password_ok(pre.password(), pw) {
                        if pre.next_player_id() < u64::MAX {
                            connect_accepted(pre, post, i, u, color)
                        } else {
                            core_unchanged(pre, post)
                        }
                    } else {
                        connect_rejected(pre, post, i)
                    }
                },
                _ => core_unchanged(pre, post),
            },
            Some(pid) => match msg {
                ClientMessageView::Ping => ping_broadcast(pre, post),
                ClientMessageView::NotifyUpdatePlayer(p) => player_updated(pre, post, pid, p),
                ClientMessageView::Disconnect => conn_departed(pre, post, i, Some(pid)),
                ClientMessageView::Connect(_, _) => core_unchanged(pre, post),
            },
        }
    }
}

/// The synchronization core.
pub struct ServerCore {
    config: ServerConfig,
    world: World,
    conns: Vec<Connection>,
    next_conn_id: u64,
    next_player_id: u64,
}

impl ServerCore {
    /// The authoritative player mapping.
    pub closed spec fn players(self) -> Map<u64, PlayerView> {
        self.world.players()
    }

    /// The registered connections, in registration order.
    pub closed spec fn conns(self) -> Seq<ConnModel> {
        self.conns@.map_values(|c: Connection| conn_view(c))
    }

    /// The next player id to assign; ids start at 1 and never repeat.
    pub closed spec fn next_player_id(self) -> u64 {
        self.next_player_id
    }

    /// The next connection id to assign.
    pub closed spec fn next_conn_id(self) -> u64 {
        self.next_conn_id
    }

    /// The configured password, if any.
    pub closed spec fn password(self) -> Option<Seq<u8>> {
        match self.config.password {
            Some(p) => Some(p@),
            None => None,
        }
    }

    /// The configured connection limit.
    pub closed spec fn max_clients(self) -> int {
        self.config.max_clients as int
    }

    /// Well-formedness, held by every operation.
    ///
    /// Above all: the world's player mapping holds exactly the player
    /// ids of the connections whose handshake succeeded — a player
    /// entry never outlives its connection, and never precedes it.
    pub closed spec fn inv(self) -> bool {
        &&& self.world.wf()
        &&& 1 <= self.next_player_id
        &&& forall|i: int, j: int| 0 <= i < j < self.conns().len()
            ==> self.conns()[i].conn_id != self.conns()[j].conn_id
        &&& forall|i: int| 0 <= i < self.conns().len()
            ==> #[trigger] self.conns()[i].conn_id < self.next_conn_id
        &&& forall|i: int| 0 <= i < self.conns().len()
            ==> ((#[trigger] self.conns()[i]).player_id matches Some(pid)
                ==> 1 <= pid < self.next_player_id)
        &&& forall|i: int, j: int|
            0 <= i < j < self.conns().len() && self.conns()[i].player_id is Some
                ==> self.conns()[i].player_id != self.conns()[j].player_id
        &&& forall|id: u64| #[trigger] self.players().contains_key(id)
            <==> exists|i: int| 0 <= i < self.conns().len()
                && self.conns()[i].player_id == Some(id)
    }

    /// A fresh core: empty world, no connections, ids starting at 1.
    pub fn new(config: ServerConfig) -> (s: ServerCore)
        ensures
            s.inv(),
            s.players() =~= Map::<u64, PlayerView>::empty(),
            s.conns() =~= Seq::<ConnModel>::empty(),
            s.next_player_id() == 1,
            s.password() == (match config.password {
                Some(p) => Some(p@),
                None => None,
            }),
            s.max_clients() == config.max_clients,
    {
        let s = ServerCore {
            config,
            world: World::new(),
            conns: Vec::new(),
            next_conn_id: 1,
            next_player_id: 1,
        };
        proof {
            assert(s.conns() =~= Seq::<ConnModel>::empty());
            assert forall|id: u64| #[trigger] s.players().contains_key(id)
                <==> exists|i: int| 0 <= i < s.conns().len()
                    && s.conns()[i].player_id == Some(id) by {}
        }
        s
    }

    /// Registers a fresh connection, or rejects it when the server is
    /// full. A rejected connection changes nothing: in particular no
    /// player id is spent and nothing is ever queued for it.
    pub fn on_accept(&mut self) -> (r: AcceptDecision)
        requires
            old(self).inv(),
        ensures
            final(self).inv(),
            final(self).players() == old(self).players(),
            final(self).next_player_id() == old(self).next_player_id(),
            final(self).password() == old(self).password(),
            final(self).max_clients() == old(self).max_clients(),
            if old(self).conns().len() < old(self).max_clients()
                && old(self).next_conn_id() < u64::MAX {
                &&& r == AcceptDecision::Accepted(old(self).next_conn_id())
                &&& final(self).conns() == old(self).conns().push(ConnModel {
                    conn_id: old(self).next_conn_id(),
                    player_id: None,
                    outbox: Seq::empty(),
                })
            } else {
                &&& r == AcceptDecision::Rejected
                &&& final(self).conns() == old(self).conns()
            },
    {
        if self.conns.len() < self.config.max_clients && self.next_conn_id < u64::MAX {
            let id = self.next_conn_id;
            self.next_conn_id = id + 1;
            self.conns.push(Connection { conn_id: id, player_id: None, outbox: Vec::new() });
            proof {
                let newc = ConnModel { conn_id: id, player_id: None, outbox: Seq::empty() };
                let pre = old(self).conns();
                let pushed = pre.push(newc);
                assert(self.conns() =~~= pushed);
                assert forall|k: int| 0 <= k < pre.len()
                    implies #[trigger] self.conns()[k] == pre[k] by {
                    assert(pushed[k] == pre[k]);
                }
                assert(self.conns()[pre.len() as int] == pushed[pre.len() as int]);
                assert(self.players() == old(self).players());
                assert forall|id2: u64| #[trigger] self.players().contains_key(id2)
                    implies exists|k: int| 0 <= k < self.conns().len()
                        && self.conns()[k].player_id == Some(id2) by {
                    assert(old(self).players().contains_key(id2));
                    let k = choose|k: int| 0 <= k < pre.len() && pre[k].player_id == Some(id2);
                    assert(self.conns()[k].player_id == Some(id2));
                }
                assert forall|id2: u64|
                    (exists|k: int| 0 <= k < self.conns().len()
                        && self.conns()[k].player_id == Some(id2))
                    implies #[trigger] self.players().contains_key(id2) by {
                    let k = choose|k: int| 0 <= k < self.conns().len()
                        && self.conns()[k].player_id == Some(id2);
                    assert(k < pre.len());
                    assert(pre[k].player_id == Some(id2));
                    assert(old(self).players().contains_key(id2));
                }
            }
            AcceptDecision::Accepted(id)
        } else {
            proof {
                assert(self.conns() =~= old(self).conns());
            }
            AcceptDecision::Rejected
        }
    }

    /// Appends one message to the outbox of every connection that has
    /// completed its handshake; a connection still awaiting one gets
    /// nothing, matching an actor that only writes after acceptance.
    fn push_to_connected(&mut self, msg: &ServerMessage)
        requires
            old(self).inv(),
        ensures
            final(self).inv(),
            final(self).players() == old(self).players(),
            final(self).next_player_id() == old(self).next_player_id(),
            final(self).next_conn_id() == old(self).next_conn_id(),
            final(self).password() == old(self).password(),
            final(self).max_clients() == old(self).max_clients(),
            outboxes_extended(old(self).conns(), final(self).conns(), msg@),
    {
        let n = self.conns.len();
        let mut i: usize = 0;
        while i < n
            invariant
                n == self.conns@.len(),
                n == old(self).conns().len(),
                i <= n,
                self.world == old(self).world,
                self.config == old(self).config,
                self.next_conn_id == old(self).next_conn_id,
                self.next_player_id == old(self).next_player_id,
                forall|j: int| i <= j < n
                    ==> #[trigger] self.conns()[j] == old(self).conns()[j],
                forall|j: int| 0 <= j < i ==> #[trigger] self.conns()[j] == (ConnModel {
                    outbox: if old(self).conns()[j].player_id is Some {
                        old(self).conns()[j].outbox.push(msg@)
                    } else {
                        old(self).conns()[j].outbox
                    },
                    ..old(self).conns()[j]
                }),
            decreases n - i,
        {
            let ghost before = self.conns();
            let ghost before_vec = self.conns@;
            if self.conns[i].player_id.is_some() {
                let m = msg.clone();
                self.conns[i].outbox.push(m);
                proof {
                    assert(forall|j: int| 0 <= j < n && j != i
                        ==> self.conns@[j] == before_vec[j]);
                    assert(forall|j: int| 0 <= j < n && j != i
                        ==> #[trigger] self.conns()[j] == before[j]);
                    assert(self.conns()[i as int].conn_id == before[i as int].conn_id);
                    assert(self.conns()[i as int].player_id == before[i as int].player_id);
                    assert(msg_views(self.conns@[i as int].outbox@)
                        =~= before[i as int].outbox.push(msg@));
                    assert(self.conns()[i as int].outbox
                        == before[i as int].outbox.push(msg@));
                }
            }
            i = i + 1;
        }
        proof {
            assert(forall|j: int| 0 <= j < n
                ==> #[trigger] self.conns()[j].conn_id == old(self).conns()[j].conn_id
                    && self.conns()[j].player_id == old(self).conns()[j].player_id);
            assert(self.players() == old(self).players());
            assert forall|id: u64| #[trigger] self.players().contains_key(id)
                implies exists|k: int| 0 <= k < self.conns().len()
                    && self.conns()[k].player_id == Some(id) by {
                assert(old(self).players().contains_key(id));
                let k = choose|k: int| 0 <= k < old(self).conns().len()
                    && old(self).conns()[k].player_id == Some(id);
                assert(self.conns()[k].player_id == Some(id));
            }
            assert forall|id: u64|
                (exists|k: int| 0 <= k < self.conns().len()
                    && self.conns()[k].player_id == Some(id))
                implies #[trigger] self.players().contains_key(id) by {
                let k = choose|k: int| 0 <= k < self.conns().len()
                    && self.conns()[k].player_id == Some(id);
                assert(old(self).conns()[k].player_id == Some(id));
                assert(old(self).players().contains_key(id));
            }
        }
    }

    /// Queues a fresh snapshot of the world for every connected client.
    /// The snapshot is taken now, at drain time, so it reflects the
    /// state after every preceding mutation.
    fn broadcast_snapshot(&mut self)
        requires
            old(self).inv(),
        ensures
            final(self).inv(),
            final(self).players() == old(self).players(),
            final(self).next_player_id() == old(self).next_player_id(),
            final(self).next_conn_id() == old(self).next_conn_id(),
            final(self).password() == old(self).password(),
            final(self).max_clients() == old(self).max_clients(),
            exists|es: Seq<(u64, PlayerView)>|
                is_snapshot_of(es, old(self).players()) && outboxes_extended(
                    old(self).conns(),
                    final(self).conns(),
                    ServerMessageView::UpdateEntities(es),
                ),
    {
        let snap = self.world.snapshot();
        let ghost es = snap.pairs();
        proof {
            snap.lemma_pairs_unique();
            assert(is_snapshot_of(es, old(self).players()));
        }
        let msg = ServerMessage::UpdateEntities(snap);
        self.push_to_connected(&msg);
        proof {
            assert(outboxes_extended(
                old(self).conns(),
                self.conns(),
                ServerMessageView::UpdateEntities(es),
            ));
        }
    }

    /// Executes one dispatcher command: deliver a given message, or
    /// deliver a snapshot pulled from the world at drain time.
    pub fn apply_command(&mut self, cmd: ServerCommand)
        requires
            old(self).inv(),
        ensures
            final(self).inv(),
            final(self).players() == old(self).players(),
            final(self).next_player_id() == old(self).next_player_id(),
            final(self).next_conn_id() == old(self).next_conn_id(),
            final(self).password() == old(self).password(),
            final(self).max_clients() == old(self).max_clients(),
            match cmd {
                ServerCommand::Broadcast(m) => outboxes_extended(
                    old(self).conns(),
                    final(self).conns(),
                    m@,
                ),
                ServerCommand::RequestEntitySnapshot => exists|es: Seq<(u64, PlayerView)>|
                    is_snapshot_of(es, old(self).players()) && outboxes_extended(
                        old(self).conns(),
                        final(self).conns(),
                        ServerMessageView::UpdateEntities(es),
                    ),
            },
    {
        match cmd {
            ServerCommand::Broadcast(m) => self.push_to_connected(&m),
            ServerCommand::RequestEntitySnapshot => self.broadcast_snapshot(),
        }
    }

    /// Hands out everything queued for one connection, leaving its
    /// outbox empty; the caller writes the messages to the socket.
    pub fn take_outbox(&mut self, conn_id: u64) -> (msgs: Vec<ServerMessage>)
        requires
            old(self).inv(),
        ensures
            final(self).inv(),
            final(self).players() == old(self).players(),
            final(self).next_player_id() == old(self).next_player_id(),
            final(self).next_conn_id() == old(self).next_conn_id(),
            final(self).password() == old(self).password(),
            final(self).max_clients() == old(self).max_clients(),
            final(self).conns().len() == old(self).conns().len(),
            if has_conn(old(self).conns(), conn_id) {
                let i = conn_index(old(self).conns(), conn_id);
                &&& msg_views(msgs@) == old(self).conns()[i].outbox
                &&& final(self).conns() == old(self).conns().update(i, ConnModel {
                    outbox: Seq::empty(),
                    ..old(self).conns()[i]
                })
            } else {
                msgs@.len() == 0 && final(self).conns() == old(self).conns()
            },
    {
        match self.find_conn(conn_id) {
            Some(i) => {
                let ghost pre = self.conns();
                let mut tmp = Connection { conn_id: 0, player_id: None, outbox: Vec::new() };
                core::mem::swap(&mut tmp, &mut self.conns[i]);
                let Connection { conn_id: cid, player_id: pid, outbox: taken } = tmp;
                self.conns.set(i, Connection { conn_id: cid, player_id: pid, outbox: Vec::new() });
                proof {
                    assert(pre[i as int].conn_id == conn_id);
                    assert(msg_views(taken@) == pre[i as int].outbox);
                    assert(msg_views(self.conns@[i as int].outbox@)
                        =~= Seq::<ServerMessageView>::empty());
                    assert(self.conns() =~~= pre.update(i as int, ConnModel {
                        outbox: Seq::empty(),
                        ..pre[i as int]
                    }));
                    assert(forall|j: int| 0 <= j < self.conns().len()
                        ==> #[trigger] self.conns()[j].conn_id == pre[j].conn_id
                            && self.conns()[j].player_id == pre[j].player_id);
                    assert(self.players() == old(self).players());
                    assert forall|id: u64| #[trigger] self.players().contains_key(id)
                        implies exists|k: int| 0 <= k < self.conns().len()
                            && self.conns()[k].player_id == Some(id) by {
                        assert(old(self).players().contains_key(id));
                        let k = choose|k: int| 0 <= k < pre.len()
                            && pre[k].player_id == Some(id);
                        assert(self.conns()[k].player_id == Some(id));
                    }
                    assert forall|id: u64|
                        (exists|k: int| 0 <= k < self.conns().len()
                            && self.conns()[k].player_id == Some(id))
                        implies #[trigger] self.players().contains_key(id) by {
                        let k = choose|k: int| 0 <= k < self.conns().len()
                            && self.conns()[k].player_id == Some(id);
                        assert(pre[k].player_id == Some(id));
                        assert(old(self).players().contains_key(id));
                    }
                }
                taken
            },
            None => {
                proof {
                    assert(self.conns() =~= old(self).conns());
                }
                Vec::new()
            },
        }
    }

    /// The player at `id` in the authoritative world, if any.
    pub fn get_player(&self, id: u64) -> (r: Option<&Player>)
        requires
            self.inv(),
        ensures
            match r {
                Some(p) => self.players().contains_key(id) && p@ == self.players()[id],
                None => !self.players().contains_key(id),
            },
    {
        self.world.entities.get(id)
    }

    /// How many connections are registered, handshaken or not.
    pub fn conn_count(&self) -> (n: usize)
        ensures
            n == self.conns().len(),
    {
        self.conns.len()
    }

    /// The index of the connection with this id, if it is registered.
    fn find_conn(&self, conn_id: u64) -> (r: Option<usize>)
        requires
            self.inv(),
        ensures
            match r {
                Some(i) => {
                    &&& has_conn(self.conns(), conn_id)
                    &&& 0 <= conn_index(self.conns(), conn_id) == i < self.conns().len()
                    &&& self.conns()[i as int].conn_id == conn_id
                },
                None => !has_conn(self.conns(), conn_id),
            },
    {
        let mut i: usize = 0;
        let n = self.conns.len();
        while i < n
            invariant
                self.inv(),
                n == self.conns@.len(),
                i <= n,
                forall|j: int| 0 <= j < i ==> #[trigger] self.conns()[j].conn_id != conn_id,
            decreases n - i,
        {
            if self.conns[i].conn_id == conn_id {
                proof {
                    assert(self.conns()[i as int].conn_id == conn_id);
                    let k = conn_index(self.conns(), conn_id);
                    assert(self.conns()[k].conn_id == conn_id);
                    assert(k == i);
                }
                return Some(i);
            }
            i = i + 1;
        }
        proof {
            if has_conn(self.conns(), conn_id) {
                let j = choose|j: int| 0 <= j < self.conns().len()
                    && self.conns()[j].conn_id == conn_id;
                assert(self.conns()[j].conn_id != conn_id);
            }
        }
        None
    }

    /// Destroys the registration at index `i` and, when it had a
    /// player, removes that player and tells every remaining connected
    /// client.
    fn remove_and_broadcast(&mut self, i: usize)
        requires
            old(self).inv(),
            i < old(self).conns().len(),
        ensures
            final(self).inv(),
            final(self).next_player_id() == old(self).next_player_id(),
            final(self).next_conn_id() == old(self).next_conn_id(),
            final(self).password() == old(self).password(),
            final(self).max_clients() == old(self).max_clients(),
            match old(self).conns()[i as int].player_id {
                Some(p) => {
                    &&& final(self).players() == old(self).players().remove(p)
                    &&& exists|es: Seq<(u64, PlayerView)>|
                        #[trigger] is_snapshot_of(es, final(self).players())
                            && outboxes_extended(
                            old(self).conns().remove(i as int),
                            final(self).conns(),
                            ServerMessageView::UpdateEntities(es),
                        )
                },
                None => {
                    &&& final(self).players() == old(self).players()
                    &&& final(self).conns() == old(self).conns().remove(i as int)
                },
            },
    {
        let ghost pre = old(self).conns();
        let pid_opt = self.conns[i].player_id;
        self.conns.remove(i);
        proof {
            assert(self.conns() =~~= pre.remove(i as int));
            let t = self.conns();
            assert(forall|j: int| 0 <= j < i ==> #[trigger] t[j] == pre[j]);
            assert(forall|j: int| i <= j < t.len() ==> #[trigger] t[j] == pre[j + 1]);
            assert forall|m: int, n: int| 0 <= m < n < t.len()
                implies t[m].conn_id != t[n].conn_id by {
                if m < i && n < i {
                } else if m < i {
                    assert(t[n] == pre[n + 1]);
                } else {
                    assert(t[m] == pre[m + 1]);
                    assert(t[n] == pre[n + 1]);
                }
            }
            assert forall|m: int, n: int|
                0 <= m < n < t.len() && t[m].player_id is Some
                implies t[m].player_id != t[n].player_id by {
                if m < i && n < i {
                } else if m < i {
                    assert(t[n] == pre[n + 1]);
                } else {
                    assert(t[m] == pre[m + 1]);
                    assert(t[n] == pre[n + 1]);
                }
            }
        }
        match pid_opt {
            Some(pid) => {
                self.world.remove_player(pid);
                proof {
                    let t = self.conns();
                    assert(self.players() == old(self).players().remove(pid));
                    assert forall|id: u64| #[trigger] self.players().contains_key(id)
                        implies exists|k: int| 0 <= k < t.len()
                            && t[k].player_id == Some(id) by {
                        assert(id != pid);
                        assert(old(self).players().contains_key(id));
                        let k = choose|k: int| 0 <= k < pre.len()
                            && pre[k].player_id == Some(id);
                        assert(k != i);
                        if k < i {
                            assert(t[k].player_id == Some(id));
                        } else {
                            assert(t[k - 1] == pre[k]);
                        }
                    }
                    assert forall|id: u64|
                        (exists|k: int| 0 <= k < t.len() && t[k].player_id == Some(id))
                        implies #[trigger] self.players().contains_key(id) by {
                        let k = choose|k: int| 0 <= k < t.len() && t[k].player_id == Some(id);
                        if k < i {
                            assert(pre[k].player_id == Some(id));
                        } else {
                            assert(t[k] == pre[k + 1]);
                        }
                        assert(old(self).players().contains_key(id));
                        assert(id != pid) by {
                            if k < i {
                                assert(pre[k].player_id == Some(pid) ==> false);
                            } else {
                                assert(pre[k + 1].player_id == Some(pid) ==> false);
                            }
                        }
                    }
                    assert(self.inv());
                }
                let ghost mid_players = self.players();
                let ghost mid_conns = self.conns();
                self.broadcast_snapshot();
                proof {
                    let es = choose|es: Seq<(u64, PlayerView)>|
                        is_snapshot_of(es, mid_players) && outboxes_extended(
                            mid_conns,
                            self.conns(),
                            ServerMessageView::UpdateEntities(es),
                        );
                    assert(is_snapshot_of(es, self.players()));
                    assert(outboxes_extended(
                        pre.remove(i as int),
                        self.conns(),
                        ServerMessageView::UpdateEntities(es),
                    ));
                }
            },
            None => {
                proof {
                    let t = self.conns();
                    assert(self.players() == old(self).players());
                    assert forall|id: u64| #[trigger] self.players().contains_key(id)
                        implies exists|k: int| 0 <= k < t.len()
                            && t[k].player_id == Some(id) by {
                        let k = choose|k: int| 0 <= k < pre.len()
                            && pre[k].player_id == Some(id);
                        assert(k != i);
                        if k < i {
                            assert(t[k].player_id == Some(id));
                        } else {
                            assert(t[k - 1] == pre[k]);
                        }
                    }
                    assert forall|id: u64|
                        (exists|k: int| 0 <= k < t.len() && t[k].player_id == Some(id))
                        implies #[trigger] self.players().contains_key(id) by {
                        let k = choose|k: int| 0 <= k < t.len() && t[k].player_id == Some(id);
                        if k < i {
                            assert(pre[k].player_id == Some(id));
                        } else {
                            assert(t[k] == pre[k + 1]);
                        }
                    }
                }
            },
        }
    }

    /// Reacts to the connection's socket closing or erroring out: the
    /// registration is destroyed, its player leaves the world, and the
    /// remaining connected clients are told. An unknown id is a no-op.
    pub fn on_closed(&mut self, conn_id: u64)
        requires
            old(self).inv(),
        ensures
            final(self).inv(),
            final(self).next_conn_id() == old(self).next_conn_id(),
            final(self).password() == old(self).password(),
            final(self).max_clients() == old(self).max_clients(),
            if has_conn(old(self).conns(), conn_id) {
                conn_departed(
                    *old(self),
                    *final(self),
                    conn_index(old(self).conns(), conn_id),
                    old(self).conns()[conn_index(old(self).conns(), conn_id)].player_id,
                )
            } else {
                core_unchanged(*old(self), *final(self))
            },
    {
        match self.find_conn(conn_id) {
            Some(i) => {
                self.remove_and_broadcast(i);
            },
            None => {},
        }
    }

    /// Applies one inbound frame from the connection with this id, with
    /// the color a new player would get. The whole effect is
    /// [`frame_transition`].
    pub fn on_frame_with_color(&mut self, conn_id: u64, msg: ClientMessage, color: Color)
        requires
            old(self).inv(),
        ensures
            final(self).inv(),
            final(self).next_conn_id() == old(self).next_conn_id(),
            final(self).password() == old(self).password(),
            final(self).max_clients() == old(self).max_clients(),
            frame_transition(*old(self), *final(self), conn_id, msg@, color),
    {
        let i = match self.find_conn(conn_id) {
            Some(i) => i,
            None => {
                return ;
            },
        };
        let pid_opt = self.conns[i].player_id;
        match pid_opt {
            None => {
                match msg {
                    ClientMessage::Connect(username, pw) => {
                        if password_ok(&self.config.password, &pw) {
                            if self.next_player_id < u64::MAX {
                                self.accept_handshake(i, username, color);
                            }
                        } else {
                            let ghost pre = self.conns();
                            let c = &mut self.conns[i];
                            c.outbox.push(ServerMessage::PasswordFailed);
                            proof {
                                assert(forall|j: int| 0 <= j < pre.len() && j != i
                                    ==> self.conns@[j] == old(self).conns@[j]);
                                assert(msg_views(self.conns@[i as int].outbox@)
                                    =~= pre[i as int].outbox.push(
                                    ServerMessageView::PasswordFailed,
                                ));
                                self.lemma_outbox_only_push(
                                    pre,
                                    i as int,
                                    ServerMessageView::PasswordFailed,
                                );
                                assert(connect_rejected(*old(self), *self, i as int));
                                let t = self.conns();
                                assert forall|id: u64| #[trigger] self.players().contains_key(
                                    id,
                                ) implies exists|k: int| 0 <= k < t.len()
                                    && t[k].player_id == Some(id) by {
                                    assert(old(self).players().contains_key(id));
                                    let k = choose|k: int| 0 <= k < pre.len()
                                        && pre[k].player_id == Some(id);
                                    assert(t[k].player_id == Some(id));
                                }
                                assert forall|id: u64|
                                    (exists|k: int| 0 <= k < t.len()
                                        && t[k].player_id == Some(id))
                                    implies #[trigger] self.players().contains_key(id) by {
                                    let k = choose|k: int| 0 <= k < t.len()
                                        && t[k].player_id == Some(id);
                                    assert(pre[k].player_id == Some(id));
                                    assert(old(self).players().contains_key(id));
                                }
                                assert(self.inv());
                            }
                        }
                    },
                    _ => {},
                }
            },
            Some(pid) => {
                match msg {
                    ClientMessage::Ping => {
                        let m = ServerMessage::Ping;
                        self.push_to_connected(&m);
                    },
                    ClientMessage::NotifyUpdatePlayer(p) => {
                        self.world.upsert_player(pid, p);
                        proof {
                            let t = self.conns();
                            assert(t == old(self).conns());
                            assert forall|id: u64| #[trigger] self.players().contains_key(id)
                                implies exists|k: int| 0 <= k < t.len()
                                    && t[k].player_id == Some(id) by {
                                if id == pid {
                                    assert(t[i as int].player_id == Some(pid));
                                } else {
                                    assert(old(self).players().contains_key(id));
                                }
                            }
                            assert forall|id: u64|
                                (exists|k: int| 0 <= k < t.len() && t[k].player_id == Some(id))
                                implies #[trigger] self.players().contains_key(id) by {
                                if id != pid {
                                    assert(old(self).players().contains_key(id));
                                }
                            }
                            assert(self.inv());
                        }
                        let ghost mid_players = self.players();
                        let ghost mid_conns = self.conns();
                        self.broadcast_snapshot();
                        proof {
                            let es = choose|es: Seq<(u64, PlayerView)>|
                                is_snapshot_of(es, mid_players) && outboxes_extended(
                                    mid_conns,
                                    self.conns(),
                                    ServerMessageView::UpdateEntities(es),
                                );
                            assert(is_snapshot_of(es, self.players()));
                            assert(outboxes_extended(
                                old(self).conns(),
                                self.conns(),
                                ServerMessageView::UpdateEntities(es),
                            ));
                        }
                    },
                    ClientMessage::Disconnect => {
                        self.remove_and_broadcast(i);
                    },
                    ClientMessage::Connect(_, _) => {},
                }
            },
        }
    }

    /// Applies one inbound frame, drawing a random color for a player
    /// the handshake may create; the transition holds for that color.
    pub fn on_frame(&mut self, conn_id: u64, msg: ClientMessage)
        requires
            old(self).inv(),
        ensures
            final(self).inv(),
            final(self).next_conn_id() == old(self).next_conn_id(),
            final(self).password() == old(self).password(),
            final(self).max_clients() == old(self).max_clients(),
            exists|c: Color| #[trigger] frame_transition(
                *old(self),
                *final(self),
                conn_id,
                msg@,
                c,
            ),
    {
        let color = Color::random();
        self.on_frame_with_color(conn_id, msg, color);
    }

    /// A tick fired: every player moves by `velocity * (num / den)`,
    /// and every connected client is sent the new snapshot.
    pub fn on_tick(&mut self, num: u32, den: u32)
        requires
            old(self).inv(),
            den > 0,
        ensures
            final(self).inv(),
            final(self).next_player_id() == old(self).next_player_id(),
            final(self).next_conn_id() == old(self).next_conn_id(),
            final(self).password() == old(self).password(),
            final(self).max_clients() == old(self).max_clients(),
            forall|id: u64| final(self).players().contains_key(id)
                <==> old(self).players().contains_key(id),
            forall|id: u64| #[trigger] old(self).players().contains_key(id)
                ==> final(self).players()[id] == crate::world::entities::spec_advanced_player(
                    old(self).players()[id],
                    num,
                    den,
                ),
            exists|es: Seq<(u64, PlayerView)>|
                #[trigger] is_snapshot_of(es, final(self).players()) && outboxes_extended(
                    old(self).conns(),
                    final(self).conns(),
                    ServerMessageView::UpdateEntities(es),
                ),
    {
        self.world.advance(num, den);
        proof {
            let t = self.conns();
            assert(t == old(self).conns());
            assert forall|id: u64| #[trigger] self.players().contains_key(id)
                implies exists|k: int| 0 <= k < t.len() && t[k].player_id == Some(id) by {
                assert(old(self).players().contains_key(id));
            }
            assert forall|id: u64|
                (exists|k: int| 0 <= k < t.len() && t[k].player_id == Some(id))
                implies #[trigger] self.players().contains_key(id) by {
                assert(old(self).players().contains_key(id));
            }
            assert(self.inv());
        }
        let ghost mid_players = self.players();
        let ghost mid_conns = self.conns();
        self.broadcast_snapshot();
        proof {
            let es = choose|es: Seq<(u64, PlayerView)>|
                is_snapshot_of(es, mid_players) && outboxes_extended(
                    mid_conns,
                    self.conns(),
                    ServerMessageView::UpdateEntities(es),
                );
            assert(is_snapshot_of(es, self.players()));
            assert(outboxes_extended(
                old(self).conns(),
                self.conns(),
                ServerMessageView::UpdateEntities(es),
            ));
        }
    }

    /// After one push to the outbox at index `i`, the registry is the
    /// old one with just that message appended there.
    proof fn lemma_outbox_only_push(
        self,
        pre: Seq<ConnModel>,
        i: int,
        m: ServerMessageView,
    )
        requires
            0 <= i < pre.len(),
            self.conns@.len() == pre.len(),
            forall|j: int| 0 <= j < pre.len() && j != i
                ==> #[trigger] conn_view(self.conns@[j]) == pre[j],
            conn_view(self.conns@[i]).conn_id == pre[i].conn_id,
            conn_view(self.conns@[i]).player_id == pre[i].player_id,
            msg_views(self.conns@[i].outbox@) == pre[i].outbox.push(m),
        ensures
            self.conns().len() == pre.len(),
            self.conns()[i] == (ConnModel { outbox: pre[i].outbox.push(m), ..pre[i] }),
            forall|j: int| 0 <= j < pre.len() && j != i ==> #[trigger] self.conns()[j] == pre[j],
    {
    }

    /// The handshake at index `i` succeeded: spend the next player id,
    /// create the player, reply and broadcast.
    fn accept_handshake(&mut self, i: usize, username: Vec<u8>, color: Color)
        requires
            old(self).inv(),
            i < old(self).conns().len(),
            old(self).conns()[i as int].player_id is None,
            old(self).next_player_id() < u64::MAX,
        ensures
            final(self).inv(),
            final(self).next_conn_id() == old(self).next_conn_id(),
            final(self).password() == old(self).password(),
            final(self).max_clients() == old(self).max_clients(),
            connect_accepted(*old(self), *final(self), i as int, username@, color),
    {
        let ghost pre = self.conns();
        let pid = self.next_player_id;
        self.next_player_id = pid + 1;
        let player = Player { username, color, pos: Vec2::zero(), vel: Vec2::zero() };
        let ghost pv = player@;
        self.world.upsert_player(pid, player);
        {
            let c = &mut self.conns[i];
            c.player_id = Some(pid);
            c.outbox.push(ServerMessage::ConnectionAccepted(pid));
        }
        proof {
            let t = self.conns();
            assert(forall|j: int| 0 <= j < pre.len() && j != i
                ==> self.conns@[j] == old(self).conns@[j]);
            assert(forall|j: int| 0 <= j < pre.len() && j != i
                ==> #[trigger] t[j] == pre[j]);
            assert(msg_views(self.conns@[i as int].outbox@)
                =~= pre[i as int].outbox.push(ServerMessageView::ConnectionAccepted(pid)));
            assert(t[i as int] == (ConnModel {
                conn_id: pre[i as int].conn_id,
                player_id: Some(pid),
                outbox: pre[i as int].outbox.push(ServerMessageView::ConnectionAccepted(pid)),
            }));
            assert(self.players() == old(self).players().insert(pid, pv));
            assert forall|id: u64| #[trigger] self.players().contains_key(id)
                implies exists|k: int| 0 <= k < t.len() && t[k].player_id == Some(id) by {
                if id == pid {
                    assert(t[i as int].player_id == Some(pid));
                } else {
                    assert(old(self).players().contains_key(id));
                    let k = choose|k: int| 0 <= k < pre.len() && pre[k].player_id == Some(id);
                    assert(k != i);
                    assert(t[k].player_id == Some(id));
                }
            }
            assert forall|id: u64|
                (exists|k: int| 0 <= k < t.len() && t[k].player_id == Some(id))
                implies #[trigger] self.players().contains_key(id) by {
                let k = choose|k: int| 0 <= k < t.len() && t[k].player_id == Some(id);
                if k == i {
                    assert(id == pid);
                } else {
                    assert(pre[k].player_id == Some(id));
                    assert(old(self).players().contains_key(id));
                }
            }
            assert(self.inv());
        }
        let ghost mid = self.conns();
        self.broadcast_snapshot();
        proof {
            let es = choose|es: Seq<(u64, PlayerView)>|
                is_snapshot_of(es, self.players()) && outboxes_extended(
                    mid,
                    self.conns(),
                    ServerMessageView::UpdateEntities(es),
                );
            assert(self.conns()[i as int] == (ConnModel {
                conn_id: pre[i as int].conn_id,
                player_id: Some(pid),
                outbox: pre[i as int].outbox.push(
                    ServerMessageView::ConnectionAccepted(pid),
                ).push(ServerMessageView::UpdateEntities(es)),
            }));
            assert forall|j: int| 0 <= j < pre.len() && j != i
                implies #[trigger] self.conns()[j] == (ConnModel {
                    outbox: if pre[j].player_id is Some {
                        pre[j].outbox.push(ServerMessageView::UpdateEntities(es))
                    } else {
                        pre[j].outbox
                    },
                    ..pre[j]
                }) by {
                assert(mid[j] == pre[j]);
            }
            assert(conns_after_accept(pre, self.conns(), i as int, pid, es));
            assert(is_snapshot_of(es, self.players()));
        }
    }
}

} // verus!
