//! A whole session over the wire: both cores talking through frames.

use worldsync::client::ClientCore;
use worldsync::color::Color;
use worldsync::frame::FrameReader;
use worldsync::message::{ClientMessage, ServerMessage};
use worldsync::server::cli::ServerConfig;
use worldsync::server::{AcceptDecision, ServerCore};

/// Carries every queued message of one connection through its frames,
/// as the sockets would, into the client's frame reader.
fn pump(core: &mut ServerCore, conn: u64, reader: &mut FrameReader) -> Vec<ServerMessage> {
    for msg in core.take_outbox(conn) {
        reader.push_chunk(&msg.to_frame().unwrap());
    }
    let mut out = Vec::new();
    while let Some(body) = reader.next_frame() {
        let (msg, used) = ServerMessage::decode(&body).unwrap();
        assert_eq!(used, body.len());
        out.push(msg);
    }
    out
}

#[test]
fn a_session_travels_through_frames_intact() {
    let mut server = ServerCore::new(ServerConfig {
        server_name: String::from("New Server"),
        password: None,
        max_clients: 4,
    });
    let conn = match server.on_accept() {
        AcceptDecision::Accepted(id) => id,
        AcceptDecision::Rejected => unreachable!(),
    };

    // Client side: handshake out, through the codec, into the server.
    let (mut client, hello) = ClientCore::connect(b"alice".to_vec(), b"".to_vec());
    let frame = hello.to_frame().unwrap();
    let mut server_reader = FrameReader::new();
    server_reader.push_chunk(&frame);
    let body = server_reader.next_frame().unwrap();
    let (msg, _) = ClientMessage::decode(&body).unwrap();
    server.on_frame(conn, msg);

    // Server replies travel back the same way.
    let mut client_reader = FrameReader::new();
    for msg in pump(&mut server, conn, &mut client_reader) {
        client.handle_server_message(msg).unwrap();
    }
    assert_eq!(client.id(), Some(1));
    let me = client.get_player(1).expect("own player in first snapshot");
    assert_eq!(me.username, b"alice".to_vec());
    assert_eq!((me.pos.x, me.pos.y), (0, 0));
}

#[test]
fn color_from_seed_splits_the_low_bytes() {
    let c = Color::from_seed(0x0001_0203);
    assert_eq!((c.r, c.g, c.b), (3, 2, 1));
}

#[test]
fn random_colors_are_colors() {
    // Nothing further is promised of a random draw.
    let _ = Color::random();
}
