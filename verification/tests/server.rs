//! The server core: handshake, updates, departure, capacity, ticks.

use worldsync::message::{ClientMessage, ServerMessage};
use worldsync::server::cli::ServerConfig;
use worldsync::server::{AcceptDecision, ServerCommand, ServerCore};
use worldsync::vec2::Vec2;
use worldsync::world::entities::{Entities, Player};
use worldsync::Color;

fn config(password: Option<&[u8]>, max_clients: usize) -> ServerConfig {
    ServerConfig {
        server_name: String::from("New Server"),
        password: password.map(|p| p.to_vec()),
        max_clients,
    }
}

fn accept(core: &mut ServerCore) -> u64 {
    match core.on_accept() {
        AcceptDecision::Accepted(id) => id,
        AcceptDecision::Rejected => panic!("server full"),
    }
}

fn connect(core: &mut ServerCore, conn: u64, name: &[u8], pw: &[u8]) {
    core.on_frame(conn, ClientMessage::Connect(name.to_vec(), pw.to_vec()));
}

fn update(pos: (i64, i64)) -> Player {
    Player {
        username: b"me".to_vec(),
        color: Color { r: 9, g: 9, b: 9 },
        pos: Vec2 { x: pos.0, y: pos.1 },
        vel: Vec2 { x: 0, y: 0 },
    }
}

fn last_snapshot(msgs: &[ServerMessage]) -> &Entities {
    msgs.iter()
        .rev()
        .find_map(|m| match m {
            ServerMessage::UpdateEntities(e) => Some(e),
            _ => None,
        })
        .expect("no snapshot queued")
}

#[test]
fn passwordless_connect_is_accepted_as_player_one() {
    // A client connects to a password-less server: the reply is
    // ConnectionAccepted(1) and the following snapshot holds player 1
    // at the origin.
    let mut core = ServerCore::new(config(None, 10));
    let conn = accept(&mut core);
    connect(&mut core, conn, b"alice", b"");
    let msgs = core.take_outbox(conn);
    assert_eq!(msgs[0], ServerMessage::ConnectionAccepted(1));
    let snap = last_snapshot(&msgs);
    let p = snap.get(1).expect("player 1 missing from snapshot");
    assert_eq!(p.username, b"alice".to_vec());
    assert_eq!((p.pos.x, p.pos.y), (0, 0));
    assert_eq!((p.vel.x, p.vel.y), (0, 0));
}

#[test]
fn wrong_password_gains_no_player() {
    // The server replies PasswordFailed, sends no acceptance, and the
    // world stays empty; the connection stays registered for another try.
    let mut core = ServerCore::new(config(Some(b"secret"), 10));
    let conn = accept(&mut core);
    connect(&mut core, conn, b"bob", b"wrong");
    let msgs = core.take_outbox(conn);
    assert!(msgs
        .iter()
        .all(|m| !matches!(m, ServerMessage::ConnectionAccepted(_))));
    assert_eq!(msgs, vec![ServerMessage::PasswordFailed]);
    assert!(core.get_player(1).is_none());
    assert_eq!(core.conn_count(), 1);
}

#[test]
fn right_password_is_accepted() {
    let mut core = ServerCore::new(config(Some(b"secret"), 10));
    let conn = accept(&mut core);
    connect(&mut core, conn, b"bob", b"secret");
    let msgs = core.take_outbox(conn);
    assert_eq!(msgs[0], ServerMessage::ConnectionAccepted(1));
    assert!(core.get_player(1).is_some());
}

#[test]
fn own_update_is_keyed_by_server_id() {
    // Two clients as ids 1 and 2; client 1 reports position (5,5): the
    // next broadcast shows id 1 there and id 2 unchanged.
    let mut core = ServerCore::new(config(None, 10));
    let c1 = accept(&mut core);
    let c2 = accept(&mut core);
    connect(&mut core, c1, b"alice", b"");
    connect(&mut core, c2, b"bob", b"");
    core.take_outbox(c1);
    core.take_outbox(c2);

    core.on_frame(c1, ClientMessage::NotifyUpdatePlayer(update((5, 5))));
    let msgs = core.take_outbox(c2);
    let snap = last_snapshot(&msgs);
    let p1 = snap.get(1).unwrap();
    let p2 = snap.get(2).unwrap();
    assert_eq!((p1.pos.x, p1.pos.y), (5, 5));
    assert_eq!((p2.pos.x, p2.pos.y), (0, 0));
}

#[test]
fn capacity_is_enforced_at_accept_time() {
    // With max_clients = 2 the third connection is rejected outright;
    // the first two stay registered and nothing is ever queued for the
    // rejected one, so no ConnectionAccepted can reach it.
    let mut core = ServerCore::new(config(None, 2));
    let c1 = accept(&mut core);
    let c2 = accept(&mut core);
    assert_eq!(core.on_accept(), AcceptDecision::Rejected);
    assert_eq!(core.conn_count(), 2);
    connect(&mut core, c1, b"alice", b"");
    connect(&mut core, c2, b"bob", b"");
    assert!(core.get_player(1).is_some());
    assert!(core.get_player(2).is_some());
}

#[test]
fn a_departed_connection_frees_capacity() {
    let mut core = ServerCore::new(config(None, 1));
    let c1 = accept(&mut core);
    assert_eq!(core.on_accept(), AcceptDecision::Rejected);
    core.on_closed(c1);
    assert_eq!(core.conn_count(), 0);
    let c2 = accept(&mut core);
    assert_ne!(c1, c2);
}

#[test]
fn disconnect_removes_the_player_and_tells_peers() {
    // A client leaves: the next snapshot the remaining client receives
    // no longer holds the departed id.
    let mut core = ServerCore::new(config(None, 10));
    let c1 = accept(&mut core);
    let c2 = accept(&mut core);
    connect(&mut core, c1, b"alice", b"");
    connect(&mut core, c2, b"bob", b"");
    core.take_outbox(c1);

    core.on_frame(c2, ClientMessage::Disconnect);
    assert!(core.get_player(2).is_none());
    assert_eq!(core.conn_count(), 1);
    let msgs = core.take_outbox(c1);
    let snap = last_snapshot(&msgs);
    assert!(snap.get(2).is_none());
    assert!(snap.get(1).is_some());
}

#[test]
fn socket_close_acts_like_disconnect() {
    let mut core = ServerCore::new(config(None, 10));
    let c1 = accept(&mut core);
    let c2 = accept(&mut core);
    connect(&mut core, c1, b"alice", b"");
    connect(&mut core, c2, b"bob", b"");
    core.take_outbox(c1);

    core.on_closed(c2);
    assert!(core.get_player(2).is_none());
    let msgs = core.take_outbox(c1);
    let snap = last_snapshot(&msgs);
    assert!(snap.get(2).is_none());
}

#[test]
fn tick_advances_and_broadcasts() {
    // A tick with dt = 1/60 moves a player with velocity (60, 0) from
    // x = 0 to exactly x = 1, and the new snapshot goes out.
    let mut core = ServerCore::new(config(None, 10));
    let c1 = accept(&mut core);
    connect(&mut core, c1, b"alice", b"");
    core.on_frame(
        c1,
        ClientMessage::NotifyUpdatePlayer(Player {
            username: b"alice".to_vec(),
            color: Color { r: 0, g: 0, b: 0 },
            pos: Vec2 { x: 0, y: 0 },
            vel: Vec2 { x: 60, y: 0 },
        }),
    );
    core.take_outbox(c1);

    core.on_tick(worldsync::server::TICK_DT_NUM, worldsync::server::TICK_DT_DEN);
    assert_eq!(core.get_player(1).unwrap().pos.x, 1);
    let msgs = core.take_outbox(c1);
    let snap = last_snapshot(&msgs);
    assert_eq!(snap.get(1).unwrap().pos.x, 1);
}

#[test]
fn ping_is_relayed_to_connected_clients_only() {
    let mut core = ServerCore::new(config(None, 10));
    let c1 = accept(&mut core);
    let c2 = accept(&mut core);
    connect(&mut core, c1, b"alice", b"");
    core.take_outbox(c1);

    core.on_frame(c1, ClientMessage::Ping);
    assert_eq!(core.take_outbox(c1), vec![ServerMessage::Ping]);
    // The second connection never finished its handshake: nothing for it.
    assert_eq!(core.take_outbox(c2), vec![]);
}

#[test]
fn broadcast_command_reaches_every_connected_client() {
    let mut core = ServerCore::new(config(None, 10));
    let c1 = accept(&mut core);
    let c2 = accept(&mut core);
    connect(&mut core, c1, b"alice", b"");
    connect(&mut core, c2, b"bob", b"");
    core.take_outbox(c1);
    core.take_outbox(c2);

    core.apply_command(ServerCommand::Broadcast(ServerMessage::Ping));
    assert_eq!(core.take_outbox(c1), vec![ServerMessage::Ping]);
    assert_eq!(core.take_outbox(c2), vec![ServerMessage::Ping]);
}

#[test]
fn snapshot_command_reflects_drain_time_state() {
    let mut core = ServerCore::new(config(None, 10));
    let c1 = accept(&mut core);
    connect(&mut core, c1, b"alice", b"");
    core.take_outbox(c1);

    core.on_frame(c1, ClientMessage::NotifyUpdatePlayer(update((8, 9))));
    core.take_outbox(c1);
    core.apply_command(ServerCommand::RequestEntitySnapshot);
    let msgs = core.take_outbox(c1);
    let snap = last_snapshot(&msgs);
    assert_eq!((snap.get(1).unwrap().pos.x, snap.get(1).unwrap().pos.y), (8, 9));
}

#[test]
fn messages_in_wrong_state_are_ignored() {
    let mut core = ServerCore::new(config(None, 10));
    let c1 = accept(&mut core);
    // Not yet connected: update, ping and disconnect do nothing.
    core.on_frame(c1, ClientMessage::NotifyUpdatePlayer(update((1, 1))));
    core.on_frame(c1, ClientMessage::Ping);
    assert!(core.get_player(1).is_none());
    assert_eq!(core.take_outbox(c1), vec![]);
    // A second Connect while active is ignored too.
    connect(&mut core, c1, b"alice", b"");
    core.take_outbox(c1);
    connect(&mut core, c1, b"alice", b"");
    let msgs = core.take_outbox(c1);
    assert!(msgs
        .iter()
        .all(|m| !matches!(m, ServerMessage::ConnectionAccepted(_))));
    assert!(core.get_player(2).is_none());
}

#[test]
fn an_accepted_player_wears_the_chosen_color() {
    let mut core = ServerCore::new(config(None, 10));
    let conn = accept(&mut core);
    core.on_frame_with_color(
        conn,
        ClientMessage::Connect(b"alice".to_vec(), b"".to_vec()),
        Color { r: 5, g: 6, b: 7 },
    );
    let p = core.get_player(1).unwrap();
    assert_eq!((p.color.r, p.color.g, p.color.b), (5, 6, 7));
}

#[test]
fn unknown_connection_ids_are_ignored() {
    let mut core = ServerCore::new(config(None, 10));
    core.on_frame(77, ClientMessage::Ping);
    core.on_closed(77);
    assert_eq!(core.take_outbox(77), vec![]);
    assert_eq!(core.conn_count(), 0);
}
