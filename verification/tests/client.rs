//! The client session core.

use worldsync::client::{ClientCore, ClientError};
use worldsync::color::Color;
use worldsync::message::{ClientMessage, ServerMessage};
use worldsync::vec2::Vec2;
use worldsync::world::World;
use worldsync::world::entities::Player;

fn snapshot_with(id: u64, pos: (i64, i64)) -> ServerMessage {
    let mut w = World::new();
    w.upsert_player(
        id,
        Player {
            username: b"peer".to_vec(),
            color: Color { r: 1, g: 1, b: 1 },
            pos: Vec2 { x: pos.0, y: pos.1 },
            vel: Vec2 { x: 0, y: 0 },
        },
    );
    ServerMessage::UpdateEntities(w.snapshot())
}

#[test]
fn connect_builds_the_handshake() {
    let (core, msg) = ClientCore::connect(b"alice".to_vec(), b"pw".to_vec());
    assert_eq!(msg, ClientMessage::Connect(b"alice".to_vec(), b"pw".to_vec()));
    assert_eq!(core.id(), None);
}

#[test]
fn acceptance_opens_the_session() {
    let (mut core, _) = ClientCore::connect(b"alice".to_vec(), b"".to_vec());
    core.handle_server_message(ServerMessage::ConnectionAccepted(4))
        .unwrap();
    assert_eq!(core.id(), Some(4));
}

#[test]
fn anything_else_refuses_the_handshake() {
    let (mut core, _) = ClientCore::connect(b"alice".to_vec(), b"bad".to_vec());
    let err = core
        .handle_server_message(ServerMessage::PasswordFailed)
        .unwrap_err();
    assert_eq!(err, ClientError::ConnectionRefused);
    assert_eq!(core.id(), None);
}

#[test]
fn snapshots_replace_the_local_world() {
    let (mut core, _) = ClientCore::connect(b"alice".to_vec(), b"".to_vec());
    core.handle_server_message(ServerMessage::ConnectionAccepted(1))
        .unwrap();
    core.handle_server_message(snapshot_with(2, (5, 6))).unwrap();
    let p = core.get_player(2).unwrap();
    assert_eq!((p.pos.x, p.pos.y), (5, 6));
    core.handle_server_message(snapshot_with(3, (1, 1))).unwrap();
    assert!(core.get_player(2).is_none());
    assert!(core.get_player(3).is_some());
}

#[test]
fn pings_are_ignored_while_active() {
    let (mut core, _) = ClientCore::connect(b"alice".to_vec(), b"".to_vec());
    core.handle_server_message(ServerMessage::ConnectionAccepted(1))
        .unwrap();
    core.handle_server_message(ServerMessage::Ping).unwrap();
    assert_eq!(core.id(), Some(1));
}

#[test]
fn update_message_carries_the_player() {
    let (core, _) = ClientCore::connect(b"alice".to_vec(), b"".to_vec());
    let p = Player {
        username: b"alice".to_vec(),
        color: Color { r: 0, g: 0, b: 0 },
        pos: Vec2 { x: 7, y: 8 },
        vel: Vec2 { x: 1, y: 0 },
    };
    let msg = core.update_message(p);
    match msg {
        ClientMessage::NotifyUpdatePlayer(q) => {
            assert_eq!((q.pos.x, q.pos.y), (7, 8));
        },
        other => panic!("unexpected message {other:?}"),
    }
}
