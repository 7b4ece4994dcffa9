//! The two wire-message families and their binary encoding.
//!
//! Every message is a tagged union: one tag byte followed by the
//! fixed-shape payload of the variant. The encoding of each payload is
//! built from the primitives of [`crate::codec`]; the round-trip lemmas
//! at the end prove that decoding an encoding, with any suffix behind
//! it, returns the original message and leaves exactly that suffix.

use vstd::prelude::*;

use crate::codec::{
    DecodeError, EncodeError, MAX_LEN, enc_bytes, enc_i64, enc_u32, enc_u64, enc_u8,
    lemma_assoc, lemma_parse_bytes, lemma_parse_i64, lemma_parse_u32, lemma_parse_u64,
    lemma_parse_u8, lemma_skip_skip, parse_bytes, parse_i64, parse_u32, parse_u64, parse_u8,
    put_bytes, put_i64, put_u32, put_u64, put_u8, take_bytes, take_i64, take_u32, take_u64,
    take_u8,
};
use crate::color::Color;
use crate::vec2::Vec2;
use crate::world::entities::{Entities, Player, PlayerView, entry_views, unique_ids};

verus! {

pub const TAG_C_CONNECT: u8 = 1;
pub const TAG_C_DISCONNECT: u8 = 2;
pub const TAG_C_PING: u8 = 3;
pub const TAG_C_UPDATE_PLAYER: u8 = 4;

pub const TAG_S_PING: u8 = 1;
pub const TAG_S_DISCONNECT: u8 = 2;
pub const TAG_S_ACCEPTED: u8 = 3;
pub const TAG_S_PASSWORD_FAILED: u8 = 4;
pub const TAG_S_UPDATE_ENTITIES: u8 = 5;

/// Messages that a client sends to the server.
#[derive(Debug, PartialEq)]
pub enum ClientMessage {
    /// Username and password; the handshake that opens a session.
    Connect(Vec<u8>, Vec<u8>),
    Disconnect,
    Ping,
    /// The sender's own new player state; the server keys it by the
    /// server-assigned id, never by anything the client claims.
    NotifyUpdatePlayer(Player),
}

/// The mathematical image of a [`ClientMessage`].
#[verifier::ext_equal]
pub enum ClientMessageView {
    Connect(Seq<u8>, Seq<u8>),
    Disconnect,
    Ping,
    NotifyUpdatePlayer(PlayerView),
}

impl View for ClientMessage {
    type V = ClientMessageView;

    open spec fn view(&self) -> ClientMessageView {
        match self {
            ClientMessage::Connect(u, p) => ClientMessageView::Connect(u@, p@),
            ClientMessage::Disconnect => ClientMessageView::Disconnect,
            ClientMessage::Ping => ClientMessageView::Ping,
            ClientMessage::NotifyUpdatePlayer(p) => ClientMessageView::NotifyUpdatePlayer(p@),
        }
    }
}

/// Messages that the server sends to a client.
#[derive(Debug, PartialEq)]
pub enum ServerMessage {
    Ping,
    Disconnect,
    /// The server-assigned player id, sent once the handshake succeeds.
    ConnectionAccepted(u64),
    /// The handshake carried a wrong password.
    PasswordFailed,
    /// A fresh snapshot of every live player.
    UpdateEntities(Entities),
}

/// The mathematical image of a [`ServerMessage`].
#[verifier::ext_equal]
pub enum ServerMessageView {
    Ping,
    Disconnect,
    ConnectionAccepted(u64),
    PasswordFailed,
    UpdateEntities(Seq<(u64, PlayerView)>),
}

impl View for ServerMessage {
    type V = ServerMessageView;

    open spec fn view(&self) -> ServerMessageView {
        match self {
            ServerMessage::Ping => ServerMessageView::Ping,
            ServerMessage::Disconnect => ServerMessageView::Disconnect,
            ServerMessage::ConnectionAccepted(id) => ServerMessageView::ConnectionAccepted(*id),
            ServerMessage::PasswordFailed => ServerMessageView::PasswordFailed,
            ServerMessage::UpdateEntities(e) => ServerMessageView::UpdateEntities(e.pairs()),
        }
    }
}

impl Clone for ServerMessage {
    /// An independent copy that denotes the same message; broadcasts
    /// hand one copy to every connection.
    fn clone(&self) -> (c: ServerMessage)
        ensures
            c@ == self@,
    {
        match self {
            ServerMessage::Ping => ServerMessage::Ping,
            ServerMessage::Disconnect => ServerMessage::Disconnect,
            ServerMessage::ConnectionAccepted(id) => ServerMessage::ConnectionAccepted(*id),
            ServerMessage::PasswordFailed => ServerMessage::PasswordFailed,
            ServerMessage::UpdateEntities(e) => ServerMessage::UpdateEntities(e.clone()),
        }
    }
}

// ---------------------------------------------------------------------
// Spec encoding of the payload pieces. Each parser returns the value
// together with the bytes that remain behind its encoding.

/// Three raw bytes: red, green, blue.
pub open spec fn enc_color(c: Color) -> Seq<u8> {
    seq![c.r, c.g, c.b]
}

pub open spec fn parse_color(s: Seq<u8>) -> Option<(Color, Seq<u8>)> {
    if s.len() >= 3 {
        Some((Color { r: s[0], g: s[1], b: s[2] }, s.skip(3)))
    } else {
        None
    }
}

/// Two signed coordinates, x before y.
pub open spec fn enc_vec2(v: Vec2) -> Seq<u8> {
    enc_i64(v.x) + enc_i64(v.y)
}

pub open spec fn parse_vec2(s: Seq<u8>) -> Option<(Vec2, Seq<u8>)> {
    match parse_i64(s) {
        None => None,
        Some((x, s1)) => match parse_i64(s1) {
            None => None,
            Some((y, s2)) => Some((Vec2 { x, y }, s2)),
        },
    }
}

/// Username, color, position, velocity.
pub open spec fn enc_player(p: PlayerView) -> Seq<u8> {
    enc_bytes(p.username) + enc_color(p.color) + enc_vec2(p.pos) + enc_vec2(p.vel)
}

#[verifier::opaque]
pub open spec fn parse_player(s: Seq<u8>) -> Option<(PlayerView, Seq<u8>)> {
    match parse_bytes(s) {
        None => None,
        Some((username, s1)) => match parse_color(s1) {
            None => None,
            Some((color, s2)) => match parse_vec2(s2) {
                None => None,
                Some((pos, s3)) => match parse_vec2(s3) {
                    None => None,
                    Some((vel, s4)) => Some((PlayerView { username, color, pos, vel }, s4)),
                },
            },
        },
    }
}

/// The entries of a player registry, in registry order.
pub open spec fn enc_entries(s: Seq<(u64, PlayerView)>) -> Seq<u8>
    decreases s.len(),
{
    if s.len() == 0 {
        Seq::empty()
    } else {
        enc_u64(s[0].0) + enc_player(s[0].1) + enc_entries(s.drop_first())
    }
}

/// An entry count followed by that many id/player entries.
pub open spec fn enc_entities(s: Seq<(u64, PlayerView)>) -> Seq<u8>
    recommends
        s.len() <= MAX_LEN,
{
    enc_u32(s.len() as u32) + enc_entries(s)
}

pub open spec fn parse_entries(s: Seq<u8>, n: nat) -> Option<(Seq<(u64, PlayerView)>, Seq<u8>)>
    decreases n,
{
    if n == 0 {
        Some((Seq::empty(), s))
    } else {
        match parse_u64(s) {
            None => None,
            Some((id, s1)) => match parse_player(s1) {
                None => None,
                Some((p, s2)) => match parse_entries(s2, (n - 1) as nat) {
                    None => None,
                    Some((rest, s3)) => Some((seq![(id, p)] + rest, s3)),
                },
            },
        }
    }
}

/// A registry is well-formed on the wire only without duplicate ids.
pub open spec fn parse_entities(s: Seq<u8>) -> Option<(Seq<(u64, PlayerView)>, Seq<u8>)> {
    match parse_u32(s) {
        None => None,
        Some((n, s1)) => match parse_entries(s1, n as nat) {
            None => None,
            Some((es, s2)) => {
                if unique_ids(es) {
                    Some((es, s2))
                } else {
                    None
                }
            },
        },
    }
}

// ---------------------------------------------------------------------
// What fits on the wire: every byte string and count must fit the
// 4-byte length field.

pub open spec fn player_encodable(p: PlayerView) -> bool {
    p.username.len() <= MAX_LEN
}

pub open spec fn entries_encodable(s: Seq<(u64, PlayerView)>) -> bool {
    s.len() <= MAX_LEN && forall|i: int| 0 <= i < s.len() ==> player_encodable(#[trigger] s[i].1)
}

pub open spec fn client_encodable(m: ClientMessageView) -> bool {
    match m {
        ClientMessageView::Connect(u, p) => u.len() <= MAX_LEN && p.len() <= MAX_LEN,
        ClientMessageView::Disconnect => true,
        ClientMessageView::Ping => true,
        ClientMessageView::NotifyUpdatePlayer(p) => player_encodable(p),
    }
}

pub open spec fn server_encodable(m: ServerMessageView) -> bool {
    match m {
        ServerMessageView::Ping => true,
        ServerMessageView::Disconnect => true,
        ServerMessageView::ConnectionAccepted(_) => true,
        ServerMessageView::PasswordFailed => true,
        ServerMessageView::UpdateEntities(s) => entries_encodable(s),
    }
}

// ---------------------------------------------------------------------
// Spec encoding and parsing of whole messages.

pub open spec fn spec_encode_client(m: ClientMessageView) -> Seq<u8> {
    match m {
        ClientMessageView::Connect(u, p) => enc_u8(TAG_C_CONNECT) + enc_bytes(u) + enc_bytes(p),
        ClientMessageView::Disconnect => enc_u8(TAG_C_DISCONNECT),
        ClientMessageView::Ping => enc_u8(TAG_C_PING),
        ClientMessageView::NotifyUpdatePlayer(p) => enc_u8(TAG_C_UPDATE_PLAYER) + enc_player(p),
    }
}

pub open spec fn parse_client(s: Seq<u8>) -> Option<(ClientMessageView, Seq<u8>)> {
    match parse_u8(s) {
        None => None,
        Some((tag, s1)) => {
            if tag == TAG_C_CONNECT {
                match parse_bytes(s1) {
                    None => None,
                    Some((u, s2)) => match parse_bytes(s2) {
                        None => None,
                        Some((p, s3)) => Some((ClientMessageView::Connect(u, p), s3)),
                    },
                }
            } else if tag == TAG_C_DISCONNECT {
                Some((ClientMessageView::Disconnect, s1))
            } else if tag == TAG_C_PING {
                Some((ClientMessageView::Ping, s1))
            } else if tag == TAG_C_UPDATE_PLAYER {
                match parse_player(s1) {
                    None => None,
                    Some((p, s2)) => Some((ClientMessageView::NotifyUpdatePlayer(p), s2)),
                }
            } else {
                None
            }
        },
    }
}

pub open spec fn spec_encode_server(m: ServerMessageView) -> Seq<u8> {
    match m {
        ServerMessageView::Ping => enc_u8(TAG_S_PING),
        ServerMessageView::Disconnect => enc_u8(TAG_S_DISCONNECT),
        ServerMessageView::ConnectionAccepted(id) => enc_u8(TAG_S_ACCEPTED) + enc_u64(id),
        ServerMessageView::PasswordFailed => enc_u8(TAG_S_PASSWORD_FAILED),
        ServerMessageView::UpdateEntities(s) => enc_u8(TAG_S_UPDATE_ENTITIES) + enc_entities(s),
    }
}

pub open spec fn parse_server(s: Seq<u8>) -> Option<(ServerMessageView, Seq<u8>)> {
    match parse_u8(s) {
        None => None,
        Some((tag, s1)) => {
            if tag == TAG_S_PING {
                Some((ServerMessageView::Ping, s1))
            } else if tag == TAG_S_DISCONNECT {
                Some((ServerMessageView::Disconnect, s1))
            } else if tag == TAG_S_ACCEPTED {
                match parse_u64(s1) {
                    None => None,
                    Some((id, s2)) => Some((ServerMessageView::ConnectionAccepted(id), s2)),
                }
            } else if tag == TAG_S_PASSWORD_FAILED {
                Some((ServerMessageView::PasswordFailed, s1))
            } else if tag == TAG_S_UPDATE_ENTITIES {
                match parse_entities(s1) {
                    None => None,
                    Some((es, s2)) => Some((ServerMessageView::UpdateEntities(es), s2)),
                }
            } else {
                None
            }
        },
    }
}

// ---------------------------------------------------------------------
// Executable writers for the payload pieces.

fn put_color(out: &mut Vec<u8>, c: Color)
    ensures
        final(out)@ == old(out)@ + enc_color(c),
{
    out.push(c.r);
    out.push(c.g);
    out.push(c.b);
    proof {
        assert(final(out)@ =~= old(out)@ + enc_color(c));
    }
}

fn put_vec2(out: &mut Vec<u8>, v: Vec2)
    ensures
        final(out)@ == old(out)@ + enc_vec2(v),
{
    put_i64(out, v.x);
    put_i64(out, v.y);
    proof {
        assert(final(out)@ =~= old(out)@ + enc_vec2(v));
    }
}

fn put_player(out: &mut Vec<u8>, p: &Player)
    requires
        player_encodable(p@),
    ensures
        final(out)@ == old(out)@ + enc_player(p@),
{
    put_bytes(out, p.username.as_slice());
    put_color(out, p.color);
    put_vec2(out, p.pos);
    put_vec2(out, p.vel);
    proof {
        assert(final(out)@ =~= old(out)@ + enc_player(p@));
    }
}

// ---------------------------------------------------------------------
// Executable readers for the payload pieces. As with the codec
// primitives, each reads at a position of the whole buffer, and the
// contract ties the outcome to the spec parser on the buffer's tail.

fn take_color(bytes: &[u8], pos: usize) -> (r: Option<(Color, usize)>)
    requires
        pos <= bytes@.len(),
    ensures
        match r {
            Some((v, np)) => {
                &&& pos < np <= bytes@.len()
                &&& parse_color(bytes@.skip(pos as int)) == Some((v, bytes@.skip(np as int)))
            },
            None => parse_color(bytes@.skip(pos as int)) is None,
        },
{
    if bytes.len() - pos >= 3 {
        let c = Color { r: bytes[pos], g: bytes[pos + 1], b: bytes[pos + 2] };
        proof {
            let t = bytes@.skip(pos as int);
            assert(t[0] == bytes@[pos as int]);
            assert(t[1] == bytes@[pos as int + 1]);
            assert(t[2] == bytes@[pos as int + 2]);
            lemma_skip_skip(bytes@, pos as int, 3);
        }
        Some((c, pos + 3))
    } else {
        None
    }
}

fn take_vec2(bytes: &[u8], pos: usize) -> (r: Option<(Vec2, usize)>)
    requires
        pos <= bytes@.len(),
    ensures
        match r {
            Some((v, np)) => {
                &&& pos < np <= bytes@.len()
                &&& parse_vec2(bytes@.skip(pos as int)) == Some((v, bytes@.skip(np as int)))
            },
            None => parse_vec2(bytes@.skip(pos as int)) is None,
        },
{
    match take_i64(bytes, pos) {
        None => None,
        Some((x, a)) => match take_i64(bytes, a) {
            None => None,
            Some((y, b)) => Some((Vec2 { x, y }, b)),
        },
    }
}

fn take_player(bytes: &[u8], pos: usize) -> (r: Option<(Player, usize)>)
    requires
        pos <= bytes@.len(),
    ensures
        match r {
            Some((v, np)) => {
                &&& pos < np <= bytes@.len()
                &&& parse_player(bytes@.skip(pos as int)) == Some((v@, bytes@.skip(np as int)))
            },
            None => parse_player(bytes@.skip(pos as int)) is None,
        },
{
    proof {
        reveal(parse_player);
    }
    match take_bytes(bytes, pos) {
        None => None,
        Some((username, a)) => match take_color(bytes, a) {
            None => None,
            Some((color, b)) => match take_vec2(bytes, b) {
                None => None,
                Some((ppos, c)) => match take_vec2(bytes, c) {
                    None => None,
                    Some((vel, d)) => {
                        let p = Player { username, color, pos: ppos, vel };
                        Some((p, d))
                    },
                },
            },
        },
    }
}

/// True when no id occurs twice among the decoded entries.
fn entries_unique(v: &Vec<(u64, Player)>) -> (r: bool)
    ensures
        r == unique_ids(v@),
{
    let n = v.len();
    let mut i: usize = 0;
    while i < n
        invariant
            n == v@.len(),
            i <= n,
            forall|a: int, b: int| 0 <= a < b < n && a < i ==> v@[a].0 != v@[b].0,
        decreases n - i,
    {
        let mut j: usize = i + 1;
        while j < n
            invariant
                n == v@.len(),
                i < j <= n,
                forall|a: int, b: int| 0 <= a < b < n && a < i ==> v@[a].0 != v@[b].0,
                forall|b: int| i < b < j ==> v@[i as int].0 != v@[b].0,
            decreases n - j,
        {
            if v[i].0 == v[j].0 {
                return false;
            }
            j = j + 1;
        }
        i = i + 1;
    }
    true
}

fn take_entities(bytes: &[u8], pos: usize) -> (r: Option<(Entities, usize)>)
    requires
        pos <= bytes@.len(),
    ensures
        match r {
            Some((e, np)) => {
                &&& pos < np <= bytes@.len()
                &&& parse_entities(bytes@.skip(pos as int)) == Some((e.pairs(), bytes@.skip(
                    np as int,
                )))
                &&& e.wf()
            },
            None => parse_entities(bytes@.skip(pos as int)) is None,
        },
{
    match take_u32(bytes, pos) {
        None => None,
        Some((n, start)) => {
            let ghost t0 = bytes@.skip(start as int);
            let mut acc: Vec<(u64, Player)> = Vec::new();
            let mut np: usize = start;
            let mut i: u32 = 0;
            let mut failed = false;
            while i < n && !failed
                invariant
                    start <= np <= bytes@.len(),
                    i <= n,
                    acc@.len() == i,
                    t0 == bytes@.skip(start as int),
                    !failed ==> match parse_entries(bytes@.skip(np as int), (n - i) as nat) {
                        Some((rest, rem)) => parse_entries(t0, n as nat) == Some(
                            (entry_views(acc@) + rest, rem),
                        ),
                        None => parse_entries(t0, n as nat) is None,
                    },
                    failed ==> parse_entries(t0, n as nat) is None,
                decreases n - i, (if failed { 0int } else { 1int }),
            {
                let ghost cur = bytes@.skip(np as int);
                let ghost remaining = (n - i) as nat;
                match take_u64(bytes, np) {
                    None => {
                        proof {
                            assert(parse_entries(cur, remaining) is None);
                        }
                        failed = true;
                    },
                    Some((id, a)) => {
                        match take_player(bytes, a) {
                            None => {
                                proof {
                                    assert(parse_entries(cur, remaining) is None);
                                }
                                failed = true;
                            },
                            Some((p, b)) => {
                                let ghost old_acc = acc@;
                                acc.push((id, p));
                                np = b;
                                i = i + 1;
                                proof {
                                    assert(entry_views(acc@) =~= entry_views(old_acc).push(
                                        (id, p@),
                                    ));
                                    assert(forall|rest2: Seq<(u64, PlayerView)>|
                                        entry_views(old_acc) + (#[trigger] (seq![(id, p@)]
                                            + rest2)) =~= entry_views(acc@) + rest2);
                                }
                            },
                        }
                    },
                }
            }
            if failed {
                return None;
            }
            proof {
                assert(parse_entries(bytes@.skip(np as int), 0nat) == Some(
                    (Seq::<(u64, PlayerView)>::empty(), bytes@.skip(np as int)),
                ));
                assert(entry_views(acc@) + Seq::<(u64, PlayerView)>::empty()
                    =~= entry_views(acc@));
            }
            if !entries_unique(&acc) {
                proof {
                    assert(forall|k: int| 0 <= k < acc@.len()
                        ==> #[trigger] entry_views(acc@)[k].0 == acc@[k].0);
                    assert(!unique_ids(entry_views(acc@))) by {
                        let (x, y) = choose|x: int, y: int|
                            0 <= x < y < acc@.len() && acc@[x].0 == acc@[y].0;
                        assert(entry_views(acc@)[x].0 == entry_views(acc@)[y].0);
                    }
                }
                return None;
            }
            proof {
                assert(unique_ids(entry_views(acc@))) by {
                    assert(forall|k: int| 0 <= k < acc@.len()
                        ==> #[trigger] entry_views(acc@)[k].0 == acc@[k].0);
                    if !unique_ids(entry_views(acc@)) {
                        let (x, y) = choose|x: int, y: int|
                            0 <= x < y < entry_views(acc@).len()
                                && entry_views(acc@)[x].0 == entry_views(acc@)[y].0;
                        assert(acc@[x].0 == acc@[y].0);
                    }
                }
                assert(unique_ids(acc@)) by {
                    assert(forall|k: int| 0 <= k < acc@.len()
                        ==> #[trigger] entry_views(acc@)[k].0 == acc@[k].0);
                    if !unique_ids(acc@) {
                        let (x, y) = choose|x: int, y: int|
                            0 <= x < y < acc@.len() && acc@[x].0 == acc@[y].0;
                        assert(entry_views(acc@)[x].0 == entry_views(acc@)[y].0);
                    }
                }
            }
            let e = Entities::from_pairs(acc);
            Some((e, np))
        },
    }
}

// ---------------------------------------------------------------------
// Executable encode and decode of whole messages.

impl ClientMessage {
    /// Encodes the message; fails exactly when a contained byte string
    /// does not fit the 4-byte length field.
    pub fn encode(&self) -> (r: Result<Vec<u8>, EncodeError>)
        ensures
            r is Ok <==> client_encodable(self@),
            match r {
                Ok(bytes) => bytes@ == spec_encode_client(self@),
                Err(e) => e == EncodeError::Oversized,
            },
    {
        let mut out: Vec<u8> = Vec::new();
        match self {
            ClientMessage::Connect(u, p) => {
                if (u.len() as u64) > MAX_LEN || (p.len() as u64) > MAX_LEN {
                    return Err(EncodeError::Oversized);
                }
                put_u8(&mut out, TAG_C_CONNECT);
                put_bytes(&mut out, u.as_slice());
                put_bytes(&mut out, p.as_slice());
                proof {
                    assert(out@ =~= spec_encode_client(self@));
                }
            },
            ClientMessage::Disconnect => {
                put_u8(&mut out, TAG_C_DISCONNECT);
            },
            ClientMessage::Ping => {
                put_u8(&mut out, TAG_C_PING);
            },
            ClientMessage::NotifyUpdatePlayer(p) => {
                if (p.username.len() as u64) > MAX_LEN {
                    return Err(EncodeError::Oversized);
                }
                put_u8(&mut out, TAG_C_UPDATE_PLAYER);
                put_player(&mut out, p);
                proof {
                    assert(out@ =~= spec_encode_client(self@));
                }
            },
        }
        Ok(out)
    }

    /// Encodes the message and wraps it in one frame: a 4-byte
    /// big-endian length followed by the encoding. Fails exactly when
    /// the message, or the whole encoding, does not fit the length
    /// fields.
    pub fn to_frame(&self) -> (r: Result<Vec<u8>, EncodeError>)
        ensures
            r is Ok <==> client_encodable(self@) && spec_encode_client(self@).len() <= MAX_LEN,
            match r {
                Ok(f) => f@ == enc_bytes(spec_encode_client(self@)),
                Err(e) => e == EncodeError::Oversized,
            },
    {
        let body = self.encode()?;
        if (body.len() as u64) > MAX_LEN {
            return Err(EncodeError::Oversized);
        }
        let mut out: Vec<u8> = Vec::new();
        put_bytes(&mut out, body.as_slice());
        proof {
            Seq::<u8>::add_empty_left(Seq::empty(), enc_bytes(body@));
        }
        Ok(out)
    }

    /// Decodes one message from the front of a byte slice; returns the
    /// message and how many bytes its encoding occupied. Fails exactly
    /// when the slice does not start with a complete, well-formed
    /// encoding.
    pub fn decode(bytes: &[u8]) -> (r: Result<(ClientMessage, usize), DecodeError>)
        ensures
            match r {
                Ok((m, n)) => {
                    &&& n <= bytes@.len()
                    &&& parse_client(bytes@) == Some((m@, bytes@.skip(n as int)))
                },
                Err(e) => parse_client(bytes@) is None && e == DecodeError::MalformedMessage,
            },
    {
        proof {
            assert(bytes@.skip(0) =~= bytes@);
        }
        match take_u8(bytes, 0) {
            None => Err(DecodeError::MalformedMessage),
            Some((tag, a)) => {
                if tag == TAG_C_CONNECT {
                    match take_bytes(bytes, a) {
                        None => Err(DecodeError::MalformedMessage),
                        Some((u, b)) => match take_bytes(bytes, b) {
                            None => Err(DecodeError::MalformedMessage),
                            Some((p, c)) => Ok((ClientMessage::Connect(u, p), c)),
                        },
                    }
                } else if tag == TAG_C_DISCONNECT {
                    Ok((ClientMessage::Disconnect, a))
                } else if tag == TAG_C_PING {
                    Ok((ClientMessage::Ping, a))
                } else if tag == TAG_C_UPDATE_PLAYER {
                    match take_player(bytes, a) {
                        None => Err(DecodeError::MalformedMessage),
                        Some((p, b)) => Ok((ClientMessage::NotifyUpdatePlayer(p), b)),
                    }
                } else {
                    Err(DecodeError::MalformedMessage)
                }
            },
        }
    }
}

impl ServerMessage {
    /// Encodes the message; fails exactly when a username or the entry
    /// count does not fit the 4-byte length field.
    pub fn encode(&self) -> (r: Result<Vec<u8>, EncodeError>)
        ensures
            r is Ok <==> server_encodable(self@),
            match r {
                Ok(bytes) => bytes@ == spec_encode_server(self@),
                Err(e) => e == EncodeError::Oversized,
            },
    {
        let mut out: Vec<u8> = Vec::new();
        match self {
            ServerMessage::Ping => {
                put_u8(&mut out, TAG_S_PING);
            },
            ServerMessage::Disconnect => {
                put_u8(&mut out, TAG_S_DISCONNECT);
            },
            ServerMessage::ConnectionAccepted(id) => {
                put_u8(&mut out, TAG_S_ACCEPTED);
                put_u64(&mut out, *id);
                proof {
                    assert(out@ =~= spec_encode_server(self@));
                }
            },
            ServerMessage::PasswordFailed => {
                put_u8(&mut out, TAG_S_PASSWORD_FAILED);
            },
            ServerMessage::UpdateEntities(e) => {
                let n = e.player_count();
                if (n as u64) > MAX_LEN {
                    return Err(EncodeError::Oversized);
                }
                put_u8(&mut out, TAG_S_UPDATE_ENTITIES);
                put_u32(&mut out, n as u32);
                let ghost pairs = e.pairs();
                let mut i: usize = 0;
                while i < n
                    invariant
                        pairs == e.pairs(),
                        self@ == ServerMessageView::UpdateEntities(pairs),
                        n == pairs.len(),
                        n as u64 <= MAX_LEN,
                        i <= n,
                        out@ == enc_u8(TAG_S_UPDATE_ENTITIES) + enc_u32(n as u32)
                            + enc_entries(pairs.take(i as int)),
                        forall|j: int| 0 <= j < i ==> player_encodable(#[trigger] pairs[j].1),
                    decreases n - i,
                {
                    let entry = e.entry(i);
                    if (entry.1.username.len() as u64) > MAX_LEN {
                        proof {
                            assert(!player_encodable(pairs[i as int].1));
                        }
                        return Err(EncodeError::Oversized);
                    }
                    let ghost prefix = out@;
                    put_u64(&mut out, entry.0);
                    put_player(&mut out, &entry.1);
                    proof {
                        lemma_enc_entries_snoc(pairs.take(i as int), pairs[i as int]);
                        assert(pairs.take(i as int).push(pairs[i as int])
                            =~= pairs.take(i as int + 1));
                        assert(out@ == prefix + enc_u64(pairs[i as int].0)
                            + enc_player(pairs[i as int].1));
                    }
                    i = i + 1;
                }
                proof {
                    assert(pairs.take(n as int) =~= pairs);
                }
            },
        }
        Ok(out)
    }

    /// Encodes the message and wraps it in one frame: a 4-byte
    /// big-endian length followed by the encoding. Fails exactly when
    /// the message, or the whole encoding, does not fit the length
    /// fields.
    pub fn to_frame(&self) -> (r: Result<Vec<u8>, EncodeError>)
        ensures
            r is Ok <==> server_encodable(self@) && spec_encode_server(self@).len() <= MAX_LEN,
            match r {
                Ok(f) => f@ == enc_bytes(spec_encode_server(self@)),
                Err(e) => e == EncodeError::Oversized,
            },
    {
        let body = self.encode()?;
        if (body.len() as u64) > MAX_LEN {
            return Err(EncodeError::Oversized);
        }
        let mut out: Vec<u8> = Vec::new();
        put_bytes(&mut out, body.as_slice());
        proof {
            Seq::<u8>::add_empty_left(Seq::empty(), enc_bytes(body@));
        }
        Ok(out)
    }

    /// Decodes one message from the front of a byte slice; returns the
    /// message and how many bytes its encoding occupied. Fails exactly
    /// when the slice does not start with a complete, well-formed
    /// encoding.
    pub fn decode(bytes: &[u8]) -> (r: Result<(ServerMessage, usize), DecodeError>)
        ensures
            match r {
                Ok((m, n)) => {
                    &&& n <= bytes@.len()
                    &&& parse_server(bytes@) == Some((m@, bytes@.skip(n as int)))
                },
                Err(e) => parse_server(bytes@) is None && e == DecodeError::MalformedMessage,
            },
    {
        proof {
            assert(bytes@.skip(0) =~= bytes@);
        }
        match take_u8(bytes, 0) {
            None => Err(DecodeError::MalformedMessage),
            Some((tag, a)) => {
                if tag == TAG_S_PING {
                    Ok((ServerMessage::Ping, a))
                } else if tag == TAG_S_DISCONNECT {
                    Ok((ServerMessage::Disconnect, a))
                } else if tag == TAG_S_ACCEPTED {
                    match take_u64(bytes, a) {
                        None => Err(DecodeError::MalformedMessage),
                        Some((id, b)) => Ok((ServerMessage::ConnectionAccepted(id), b)),
                    }
                } else if tag == TAG_S_PASSWORD_FAILED {
                    Ok((ServerMessage::PasswordFailed, a))
                } else if tag == TAG_S_UPDATE_ENTITIES {
                    match take_entities(bytes, a) {
                        None => Err(DecodeError::MalformedMessage),
                        Some((e, b)) => Ok((ServerMessage::UpdateEntities(e), b)),
                    }
                } else {
                    Err(DecodeError::MalformedMessage)
                }
            },
        }
    }
}

// ---------------------------------------------------------------------
// Round-trip lemmas: parsing an encoding, with any suffix behind it,
// yields the original value and leaves exactly that suffix.

/// Encoding one more entry appends its encoding at the end.
proof fn lemma_enc_entries_snoc(s: Seq<(u64, PlayerView)>, x: (u64, PlayerView))
    ensures
        enc_entries(s.push(x)) == enc_entries(s) + enc_u64(x.0) + enc_player(x.1),
    decreases s.len(),
{
    reveal_with_fuel(enc_entries, 2);
    let ex = enc_u64(x.0);
    let px = enc_player(x.1);
    if s.len() == 0 {
        assert(s.push(x).drop_first() =~= Seq::<(u64, PlayerView)>::empty());
        assert(s.push(x)[0] == x);
        // enc_entries(s.push(x)) == (ex + px) + empty; the target is (empty + ex) + px.
        Seq::<u8>::add_empty_right(ex + px, Seq::empty());
        Seq::<u8>::add_empty_left(Seq::empty(), ex);
        lemma_assoc(Seq::empty(), ex, px);
        assert(enc_entries(s) + ex + px == (Seq::<u8>::empty() + ex) + px);
    } else {
        assert(s.push(x).drop_first() =~= s.drop_first().push(x));
        assert(s.push(x)[0] == s[0]);
        lemma_enc_entries_snoc(s.drop_first(), x);
        let a = enc_u64(s[0].0) + enc_player(s[0].1);
        let b = enc_entries(s.drop_first());
        // enc_entries(s.push(x)) == a + ((b + ex) + px); the target is ((a + b) + ex) + px.
        lemma_assoc(a, b + ex, px);
        lemma_assoc(a, b, ex);
    }
}

proof fn lemma_parse_color(c: Color, rest: Seq<u8>)
    ensures
        parse_color(enc_color(c) + rest) == Some((c, rest)),
{
    let s = enc_color(c) + rest;
    assert(s[0] == c.r);
    assert(s[1] == c.g);
    assert(s[2] == c.b);
    assert(s.skip(3) =~= rest);
}

proof fn lemma_parse_vec2(v: Vec2, rest: Seq<u8>)
    ensures
        parse_vec2(enc_vec2(v) + rest) == Some((v, rest)),
{
    lemma_assoc(enc_i64(v.x), enc_i64(v.y), rest);
    lemma_parse_i64(v.x, enc_i64(v.y) + rest);
    lemma_parse_i64(v.y, rest);
}

#[verifier::spinoff_prover]
#[verifier::rlimit(100)]
proof fn lemma_parse_player(p: PlayerView, rest: Seq<u8>)
    requires
        player_encodable(p),
    ensures
        parse_player(enc_player(p) + rest) == Some((p, rest)),
{
    reveal(parse_player);
    let u = enc_bytes(p.username);
    let c = enc_color(p.color);
    let pv = enc_vec2(p.pos);
    let vv = enc_vec2(p.vel);
    // Reassociate ((u + c) + pv + vv) + rest into u + (c + (pv + (vv + rest)));
    // each parse step then peels one component off the front.
    lemma_assoc((u + c) + pv, vv, rest);
    lemma_assoc(u + c, pv, vv + rest);
    lemma_assoc(u, c, pv + (vv + rest));
    lemma_parse_bytes(p.username, c + (pv + (vv + rest)));
    lemma_parse_color(p.color, pv + (vv + rest));
    lemma_parse_vec2(p.pos, vv + rest);
    lemma_parse_vec2(p.vel, rest);
}

#[verifier::spinoff_prover]
#[verifier::rlimit(100)]
proof fn lemma_parse_entries(s: Seq<(u64, PlayerView)>, rest: Seq<u8>)
    requires
        forall|i: int| 0 <= i < s.len() ==> player_encodable(#[trigger] s[i].1),
    ensures
        parse_entries(enc_entries(s) + rest, s.len()) == Some((s, rest)),
    decreases s.len(),
{
    if s.len() == 0 {
        Seq::<u8>::add_empty_left(enc_entries(s), rest);
        assert(Seq::<(u64, PlayerView)>::empty() =~= s);
    } else {
        let e0 = enc_u64(s[0].0);
        let p0 = enc_player(s[0].1);
        let tail = enc_entries(s.drop_first());
        // Reassociate ((e0 + p0) + tail) + rest into e0 + (p0 + (tail + rest)).
        lemma_assoc(e0 + p0, tail, rest);
        lemma_assoc(e0, p0, tail + rest);
        lemma_parse_u64(s[0].0, p0 + (tail + rest));
        lemma_parse_player(s[0].1, tail + rest);
        assert forall|i: int| 0 <= i < s.drop_first().len()
            implies player_encodable(#[trigger] s.drop_first()[i].1) by {
            assert(s.drop_first()[i] == s[i + 1]);
        }
        lemma_parse_entries(s.drop_first(), rest);
        assert((s[0].0, s[0].1) == s[0]);
        assert(seq![s[0]] + s.drop_first() =~= s);
    }
}

#[verifier::spinoff_prover]
#[verifier::rlimit(100)]
proof fn lemma_parse_entities(s: Seq<(u64, PlayerView)>, rest: Seq<u8>)
    requires
        entries_encodable(s),
        unique_ids(s),
    ensures
        parse_entities(enc_entities(s) + rest) == Some((s, rest)),
{
    let n = s.len() as u32;
    lemma_assoc(enc_u32(n), enc_entries(s), rest);
    lemma_parse_u32(n, enc_entries(s) + rest);
    lemma_parse_entries(s, rest);
}

#[verifier::spinoff_prover]
#[verifier::rlimit(100)]
proof fn lemma_connect_round_trip(u: Seq<u8>, p: Seq<u8>, rest: Seq<u8>)
    requires
        u.len() <= MAX_LEN,
        p.len() <= MAX_LEN,
    ensures
        parse_client(spec_encode_client(ClientMessageView::Connect(u, p)) + rest) == Some(
            (ClientMessageView::Connect(u, p), rest),
        ),
{
    let tb = enc_u8(TAG_C_CONNECT);
    let ub = enc_bytes(u);
    let pb = enc_bytes(p);
    // Reassociate ((tb + ub) + pb) + rest into tb + (ub + (pb + rest)).
    lemma_assoc(tb + ub, pb, rest);
    lemma_assoc(tb, ub, pb + rest);
    lemma_parse_u8(TAG_C_CONNECT, ub + (pb + rest));
    lemma_parse_bytes(u, pb + rest);
    lemma_parse_bytes(p, rest);
}

#[verifier::spinoff_prover]
#[verifier::rlimit(100)]
proof fn lemma_update_player_round_trip(p: PlayerView, rest: Seq<u8>)
    requires
        player_encodable(p),
    ensures
        parse_client(spec_encode_client(ClientMessageView::NotifyUpdatePlayer(p)) + rest)
            == Some((ClientMessageView::NotifyUpdatePlayer(p), rest)),
{
    lemma_assoc(enc_u8(TAG_C_UPDATE_PLAYER), enc_player(p), rest);
    lemma_parse_u8(TAG_C_UPDATE_PLAYER, enc_player(p) + rest);
    lemma_parse_player(p, rest);
}

/// Round trip for every client message: decoding an encoding, with any
/// suffix behind it, returns the message and leaves that suffix.
pub proof fn lemma_client_round_trip(m: ClientMessageView, rest: Seq<u8>)
    requires
        client_encodable(m),
    ensures
        parse_client(spec_encode_client(m) + rest) == Some((m, rest)),
{
    match m {
        ClientMessageView::Connect(u, p) => {
            lemma_connect_round_trip(u, p, rest);
        },
        ClientMessageView::Disconnect => {
            lemma_parse_u8(TAG_C_DISCONNECT, rest);
        },
        ClientMessageView::Ping => {
            lemma_parse_u8(TAG_C_PING, rest);
        },
        ClientMessageView::NotifyUpdatePlayer(p) => {
            lemma_update_player_round_trip(p, rest);
        },
    }
}

/// Round trip for every server message: decoding an encoding, with any
/// suffix behind it, returns the message and leaves that suffix. A
/// player registry must be duplicate-free, as every registry the server
/// builds is.
#[verifier::spinoff_prover]
#[verifier::rlimit(100)]
pub proof fn lemma_server_round_trip(m: ServerMessageView, rest: Seq<u8>)
    requires
        server_encodable(m),
        m matches ServerMessageView::UpdateEntities(s) ==> unique_ids(s),
    ensures
        parse_server(spec_encode_server(m) + rest) == Some((m, rest)),
{
    match m {
        ServerMessageView::Ping => {
            lemma_parse_u8(TAG_S_PING, rest);
        },
        ServerMessageView::Disconnect => {
            lemma_parse_u8(TAG_S_DISCONNECT, rest);
        },
        ServerMessageView::ConnectionAccepted(id) => {
            lemma_assoc(enc_u8(TAG_S_ACCEPTED), enc_u64(id), rest);
            lemma_parse_u8(TAG_S_ACCEPTED, enc_u64(id) + rest);
            lemma_parse_u64(id, rest);
        },
        ServerMessageView::PasswordFailed => {
            lemma_parse_u8(TAG_S_PASSWORD_FAILED, rest);
        },
        ServerMessageView::UpdateEntities(es) => {
            let eb = enc_entities(es);
            lemma_assoc(enc_u8(TAG_S_UPDATE_ENTITIES), eb, rest);
            lemma_parse_u8(TAG_S_UPDATE_ENTITIES, eb + rest);
            lemma_parse_entities(es, rest);
        },
    }
}

} // verus!
