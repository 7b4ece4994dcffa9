//! The world state operations: upsert, remove, advance, snapshot.

use worldsync::color::Color;
use worldsync::vec2::Vec2;
use worldsync::world::World;
use worldsync::world::entities::Player;

fn player_at(name: &[u8], pos: (i64, i64), vel: (i64, i64)) -> Player {
    Player {
        username: name.to_vec(),
        color: Color { r: 1, g: 2, b: 3 },
        pos: Vec2 { x: pos.0, y: pos.1 },
        vel: Vec2 { x: vel.0, y: vel.1 },
    }
}

#[test]
fn upsert_inserts_and_replaces() {
    let mut w = World::new();
    assert!(w.entities.get(1).is_none());
    w.upsert_player(1, player_at(b"a", (0, 0), (0, 0)));
    assert_eq!(w.entities.get(1).unwrap().username, b"a".to_vec());
    w.upsert_player(1, player_at(b"b", (2, 3), (0, 0)));
    let p = w.entities.get(1).unwrap();
    assert_eq!(p.username, b"b".to_vec());
    assert_eq!((p.pos.x, p.pos.y), (2, 3));
    assert_eq!(w.entities.player_count(), 1);
}

#[test]
fn upsert_twice_is_once() {
    let mut once = World::new();
    once.upsert_player(9, player_at(b"alice", (4, 4), (1, 1)));
    let mut twice = World::new();
    twice.upsert_player(9, player_at(b"alice", (4, 4), (1, 1)));
    twice.upsert_player(9, player_at(b"alice", (4, 4), (1, 1)));
    assert_eq!(once, twice);
}

#[test]
fn remove_deletes_and_tolerates_absent() {
    let mut w = World::new();
    w.upsert_player(1, player_at(b"a", (0, 0), (0, 0)));
    w.upsert_player(2, player_at(b"b", (0, 0), (0, 0)));
    w.remove_player(1);
    assert!(w.entities.get(1).is_none());
    assert!(w.entities.get(2).is_some());
    w.remove_player(1);
    assert_eq!(w.entities.player_count(), 1);
}

#[test]
fn advance_moves_by_velocity_times_dt() {
    // dt = 1/60 with velocity (60, 0): exactly one unit along x.
    let mut w = World::new();
    w.upsert_player(1, player_at(b"a", (0, 0), (60, 0)));
    w.advance(1, 60);
    let p = w.entities.get(1).unwrap();
    assert_eq!((p.pos.x, p.pos.y), (1, 0));
    assert_eq!((p.vel.x, p.vel.y), (60, 0));
}

#[test]
fn advance_rounds_toward_zero() {
    let mut w = World::new();
    w.upsert_player(1, player_at(b"a", (0, 0), (-7, 7)));
    w.advance(1, 2);
    let p = w.entities.get(1).unwrap();
    assert_eq!((p.pos.x, p.pos.y), (-3, 3));
}

#[test]
fn advance_saturates_at_the_coordinate_range() {
    let mut w = World::new();
    w.upsert_player(1, player_at(b"a", (i64::MAX - 1, 0), (i64::MAX, 0)));
    w.advance(1, 1);
    let p = w.entities.get(1).unwrap();
    assert_eq!(p.pos.x, i64::MAX);
}

#[test]
fn advance_touches_every_player() {
    let mut w = World::new();
    w.upsert_player(1, player_at(b"a", (0, 0), (10, 0)));
    w.upsert_player(2, player_at(b"b", (5, 5), (0, 20)));
    w.advance(1, 1);
    assert_eq!(w.entities.get(1).unwrap().pos.x, 10);
    assert_eq!(w.entities.get(2).unwrap().pos.y, 25);
}

#[test]
fn snapshot_is_an_independent_copy() {
    let mut w = World::new();
    w.upsert_player(1, player_at(b"a", (0, 0), (1, 0)));
    let snap = w.snapshot();
    w.advance(1, 1);
    assert_eq!(snap.get(1).unwrap().pos.x, 0);
    assert_eq!(w.entities.get(1).unwrap().pos.x, 1);
}
