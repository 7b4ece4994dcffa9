//! Round trips and failure cases of the wire codec and framing.

use worldsync::color::Color;
use worldsync::codec::{DecodeError, MAX_LEN};
use worldsync::frame::FrameReader;
use worldsync::message::{ClientMessage, ServerMessage};
use worldsync::vec2::Vec2;
use worldsync::world::World;
use worldsync::world::entities::Player;

fn sample_player() -> Player {
    Player {
        username: b"alice".to_vec(),
        color: Color { r: 10, g: 20, b: 30 },
        pos: Vec2 { x: -5, y: 7 },
        vel: Vec2 { x: 60, y: -1 },
    }
}

fn sample_world_message() -> ServerMessage {
    let mut w = World::new();
    w.upsert_player(1, sample_player());
    w.upsert_player(
        2,
        Player {
            username: b"bob".to_vec(),
            color: Color { r: 0, g: 0, b: 0 },
            pos: Vec2 { x: 0, y: 0 },
            vel: Vec2 { x: 0, y: 0 },
        },
    );
    ServerMessage::UpdateEntities(w.snapshot())
}

#[test]
fn client_connect_round_trip() {
    let m = ClientMessage::Connect(b"alice".to_vec(), b"secret".to_vec());
    let bytes = m.encode().unwrap();
    let (back, used) = ClientMessage::decode(&bytes).unwrap();
    assert_eq!(back, m);
    assert_eq!(used, bytes.len());
}

#[test]
fn client_simple_round_trips() {
    for m in [ClientMessage::Disconnect, ClientMessage::Ping] {
        let bytes = m.encode().unwrap();
        let (back, used) = ClientMessage::decode(&bytes).unwrap();
        assert_eq!(back, m);
        assert_eq!(used, bytes.len());
    }
}

#[test]
fn client_update_player_round_trip() {
    let m = ClientMessage::NotifyUpdatePlayer(sample_player());
    let bytes = m.encode().unwrap();
    let (back, used) = ClientMessage::decode(&bytes).unwrap();
    assert_eq!(back, m);
    assert_eq!(used, bytes.len());
}

#[test]
fn server_simple_round_trips() {
    for m in [
        ServerMessage::Ping,
        ServerMessage::Disconnect,
        ServerMessage::ConnectionAccepted(42),
        ServerMessage::PasswordFailed,
    ] {
        let bytes = m.encode().unwrap();
        let (back, used) = ServerMessage::decode(&bytes).unwrap();
        assert_eq!(back, m);
        assert_eq!(used, bytes.len());
    }
}

#[test]
fn server_update_entities_round_trip() {
    let m = sample_world_message();
    let bytes = m.encode().unwrap();
    let (back, used) = ServerMessage::decode(&bytes).unwrap();
    assert_eq!(back, m);
    assert_eq!(used, bytes.len());
}

#[test]
fn round_trip_ignores_trailing_bytes() {
    let m = ClientMessage::Connect(b"a".to_vec(), b"".to_vec());
    let mut bytes = m.encode().unwrap();
    let plain = bytes.len();
    bytes.extend_from_slice(&[9, 9, 9, 9]);
    let (back, used) = ClientMessage::decode(&bytes).unwrap();
    assert_eq!(back, m);
    assert_eq!(used, plain);
}

#[test]
fn connection_accepted_exact_bytes() {
    let m = ServerMessage::ConnectionAccepted(1);
    let bytes = m.encode().unwrap();
    assert_eq!(bytes, vec![3, 0, 0, 0, 0, 0, 0, 0, 1]);
}

#[test]
fn connect_exact_bytes() {
    let m = ClientMessage::Connect(b"ab".to_vec(), b"c".to_vec());
    let bytes = m.encode().unwrap();
    assert_eq!(bytes, vec![1, 0, 0, 0, 2, b'a', b'b', 0, 0, 0, 1, b'c']);
}

#[test]
fn decode_empty_is_malformed() {
    assert_eq!(
        ClientMessage::decode(&[]).unwrap_err(),
        DecodeError::MalformedMessage
    );
    assert_eq!(
        ServerMessage::decode(&[]).unwrap_err(),
        DecodeError::MalformedMessage
    );
}

#[test]
fn decode_unknown_tag_is_malformed() {
    assert_eq!(
        ClientMessage::decode(&[200]).unwrap_err(),
        DecodeError::MalformedMessage
    );
    assert_eq!(
        ServerMessage::decode(&[200]).unwrap_err(),
        DecodeError::MalformedMessage
    );
}

#[test]
fn decode_truncated_is_malformed() {
    let m = ClientMessage::Connect(b"alice".to_vec(), b"pw".to_vec());
    let bytes = m.encode().unwrap();
    for cut in 0..bytes.len() {
        assert_eq!(
            ClientMessage::decode(&bytes[..cut]).unwrap_err(),
            DecodeError::MalformedMessage,
            "prefix of {cut} bytes must not decode"
        );
    }
}

#[test]
fn decode_duplicate_ids_is_malformed() {
    // Hand-built UpdateEntities frame body with the same id twice.
    let player = ServerMessage::UpdateEntities({
        let mut w = World::new();
        w.upsert_player(7, sample_player());
        w.snapshot()
    });
    let one = player.encode().unwrap();
    // one = tag, count(=1), entry; duplicate the entry and fix the count.
    let entry = &one[5..];
    let mut twice = vec![one[0], 0, 0, 0, 2];
    twice.extend_from_slice(entry);
    twice.extend_from_slice(entry);
    assert_eq!(
        ServerMessage::decode(&twice).unwrap_err(),
        DecodeError::MalformedMessage
    );
}

#[test]
fn frame_prefixes_big_endian_length() {
    let m = ServerMessage::Ping;
    let body = m.encode().unwrap();
    let frame = m.to_frame().unwrap();
    assert_eq!(frame.len(), 4 + body.len());
    assert_eq!(&frame[..4], &[0, 0, 0, body.len() as u8]);
    assert_eq!(&frame[4..], &body[..]);
}

#[test]
fn frame_reader_reassembles_split_frames() {
    let m1 = ServerMessage::ConnectionAccepted(5);
    let m2 = sample_world_message();
    let mut stream: Vec<u8> = Vec::new();
    stream.extend_from_slice(&m1.to_frame().unwrap());
    stream.extend_from_slice(&m2.to_frame().unwrap());

    let mut reader = FrameReader::new();
    let mut decoded: Vec<ServerMessage> = Vec::new();
    // Feed the stream one byte at a time, the worst fragmentation.
    for b in stream {
        reader.push_chunk(&[b]);
        while let Some(body) = reader.next_frame() {
            let (msg, used) = ServerMessage::decode(&body).unwrap();
            assert_eq!(used, body.len());
            decoded.push(msg);
        }
    }
    assert_eq!(decoded, vec![m1, m2]);
}

#[test]
fn frame_reader_waits_for_missing_bytes() {
    let m = ServerMessage::PasswordFailed;
    let frame = m.to_frame().unwrap();
    let mut reader = FrameReader::new();
    reader.push_chunk(&frame[..frame.len() - 1]);
    assert!(reader.next_frame().is_none());
    reader.push_chunk(&frame[frame.len() - 1..]);
    let body = reader.next_frame().unwrap();
    let (back, _) = ServerMessage::decode(&body).unwrap();
    assert_eq!(back, m);
}

#[test]
fn max_len_is_the_length_field_limit() {
    assert_eq!(MAX_LEN, u32::MAX as u64);
}
