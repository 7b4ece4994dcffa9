//! The movable entities of the world: the connected players.
//!
//! Players are kept in an association list keyed by the server-assigned
//! id. The list never holds an id twice; its mathematical image is the
//! map from ids to players, and every operation of the world state is
//! specified against that map.

use vstd::prelude::*;

use crate::color::Color;
use crate::vec2::Vec2;

verus! {

/// A connected player, exactly as the server owns and broadcasts it.
#[derive(Debug, PartialEq)]
pub struct Player {
    /// Display name, carried as UTF-8 bytes.
    pub username: Vec<u8>,
    pub color: Color,
    pub pos: Vec2,
    pub vel: Vec2,
}

/// The mathematical image of a [`Player`].
#[verifier::ext_equal]
pub struct PlayerView {
    pub username: Seq<u8>,
    pub color: Color,
    pub pos: Vec2,
    pub vel: Vec2,
}

impl View for Player {
    type V = PlayerView;

    open spec fn view(&self) -> PlayerView {
        PlayerView { username: self.username@, color: self.color, pos: self.pos, vel: self.vel }
    }
}

impl Clone for Player {
    fn clone(&self) -> (c: Player)
        ensures
            c@ == self@,
    {
        let username = self.username.clone();
        proof {
            assert(username@ =~= self.username@);
        }
        Player { username, color: self.color, pos: self.pos, vel: self.vel }
    }
}

/// True when the id occurs somewhere in the association list.
pub open spec fn has_id<V>(s: Seq<(u64, V)>, id: u64) -> bool {
    exists|i: int| 0 <= i < s.len() && s[i].0 == id
}

/// True when no id occurs twice in the association list.
pub open spec fn unique_ids<V>(s: Seq<(u64, V)>) -> bool {
    forall|i: int, j: int| 0 <= i < j < s.len() ==> s[i].0 != s[j].0
}

/// The map that an association list denotes; a repeated id resolves to
/// its last occurrence.
pub open spec fn pairs_map<V>(s: Seq<(u64, V)>) -> Map<u64, V>
    decreases s.len(),
{
    if s.len() == 0 {
        Map::empty()
    } else {
        pairs_map(s.drop_last()).insert(s.last().0, s.last().1)
    }
}

/// An id is in the denoted map exactly when it occurs in the list.
pub proof fn lemma_pairs_map_contains<V>(s: Seq<(u64, V)>, k: u64)
    ensures
        pairs_map(s).contains_key(k) <==> has_id(s, k),
    decreases s.len(),
{
    if s.len() == 0 {
    } else {
        let prefix = s.drop_last();
        lemma_pairs_map_contains(prefix, k);
        if s.last().0 == k {
            assert(s[s.len() - 1].0 == k);
        } else {
            if has_id(s, k) {
                let i = choose|i: int| 0 <= i < s.len() && s[i].0 == k;
                assert(prefix[i].0 == k);
            }
            if has_id(prefix, k) {
                let i = choose|i: int| 0 <= i < prefix.len() && prefix[i].0 == k;
                assert(s[i].0 == k);
            }
        }
    }
}

/// In a duplicate-free list, the denoted map agrees with every entry.
pub proof fn lemma_pairs_map_at<V>(s: Seq<(u64, V)>, i: int)
    requires
        unique_ids(s),
        0 <= i < s.len(),
    ensures
        pairs_map(s).contains_key(s[i].0),
        pairs_map(s)[s[i].0] == s[i].1,
    decreases s.len(),
{
    if i == s.len() - 1 {
    } else {
        assert(s[i].0 != s[s.len() - 1].0);
        lemma_pairs_map_at(s.drop_last(), i);
        assert(s.drop_last()[i] == s[i]);
    }
}

/// Replacing the entry at one index denotes an insert of its id.
proof fn lemma_pairs_map_update<V>(s: Seq<(u64, V)>, i: int, v: V)
    requires
        unique_ids(s),
        0 <= i < s.len(),
    ensures
        unique_ids(s.update(i, (s[i].0, v))),
        pairs_map(s.update(i, (s[i].0, v))) == pairs_map(s).insert(s[i].0, v),
{
    let k0 = s[i].0;
    let t = s.update(i, (k0, v));
    assert(forall|j: int| 0 <= j < s.len() ==> t[j].0 == s[j].0);
    assert(pairs_map(t) =~= pairs_map(s).insert(k0, v)) by {
        assert forall|k: u64| pairs_map(t).contains_key(k)
            <==> pairs_map(s).insert(k0, v).contains_key(k) by {
            lemma_pairs_map_contains(t, k);
            lemma_pairs_map_contains(s, k);
            if has_id(t, k) {
                let j = choose|j: int| 0 <= j < t.len() && t[j].0 == k;
                assert(s[j].0 == k);
            }
            if has_id(s, k) {
                let j = choose|j: int| 0 <= j < s.len() && s[j].0 == k;
                assert(t[j].0 == k);
            }
        }
        assert forall|k: u64| #[trigger] pairs_map(t).contains_key(k)
            implies pairs_map(t)[k] == pairs_map(s).insert(k0, v)[k] by {
            lemma_pairs_map_contains(t, k);
            let j = choose|j: int| 0 <= j < t.len() && t[j].0 == k;
            lemma_pairs_map_at(t, j);
            if k == k0 {
                assert(j == i);
            } else {
                assert(j != i);
                lemma_pairs_map_at(s, j);
            }
        }
    }
}

/// Appending an absent id denotes an insert of it.
proof fn lemma_pairs_map_push<V>(s: Seq<(u64, V)>, id: u64, v: V)
    requires
        unique_ids(s),
        !has_id(s, id),
    ensures
        unique_ids(s.push((id, v))),
        pairs_map(s.push((id, v))) == pairs_map(s).insert(id, v),
{
    let t = s.push((id, v));
    assert(forall|j: int| 0 <= j < s.len() ==> t[j] == s[j]);
    assert(t.drop_last() =~= s);
    assert(t.last() == (id, v));
}

/// Removing the entry at one index denotes a removal of its id.
proof fn lemma_pairs_map_remove_idx<V>(s: Seq<(u64, V)>, i: int)
    requires
        unique_ids(s),
        0 <= i < s.len(),
    ensures
        unique_ids(s.remove(i)),
        pairs_map(s.remove(i)) == pairs_map(s).remove(s[i].0),
{
    let k0 = s[i].0;
    let t = s.remove(i);
    assert(forall|j: int| 0 <= j < i ==> t[j] == s[j]);
    assert(forall|j: int| i <= j < t.len() ==> t[j] == s[j + 1]);
    assert(unique_ids(t)) by {
        assert forall|m: int, n: int| 0 <= m < n < t.len() implies t[m].0 != t[n].0 by {
            if m < i && n < i {
            } else if m < i {
                assert(t[n] == s[n + 1]);
            } else {
                assert(t[m] == s[m + 1]);
                assert(t[n] == s[n + 1]);
            }
        }
    }
    assert(pairs_map(t) =~= pairs_map(s).remove(k0)) by {
        assert forall|k: u64| pairs_map(t).contains_key(k)
            <==> pairs_map(s).remove(k0).contains_key(k) by {
            lemma_pairs_map_contains(t, k);
            lemma_pairs_map_contains(s, k);
            if has_id(t, k) {
                let j = choose|j: int| 0 <= j < t.len() && t[j].0 == k;
                if j < i {
                    assert(s[j].0 == k);
                    assert(k != k0);
                } else {
                    assert(s[j + 1].0 == k);
                    assert(k != k0);
                }
            }
            if has_id(s, k) && k != k0 {
                let j = choose|j: int| 0 <= j < s.len() && s[j].0 == k;
                assert(j != i);
                if j < i {
                    assert(t[j].0 == k);
                } else {
                    assert(t[j - 1] == s[j]);
                }
            }
        }
        assert forall|k: u64| #[trigger] pairs_map(t).contains_key(k)
            implies pairs_map(t)[k] == pairs_map(s).remove(k0)[k] by {
            lemma_pairs_map_contains(t, k);
            let j = choose|j: int| 0 <= j < t.len() && t[j].0 == k;
            lemma_pairs_map_at(t, j);
            if j < i {
                lemma_pairs_map_at(s, j);
                assert(k != k0);
            } else {
                assert(t[j] == s[j + 1]);
                lemma_pairs_map_at(s, j + 1);
                assert(k != k0);
            }
        }
    }
}

/// How far a coordinate moves in one tick: `vel * num / den`,
/// rounded toward zero.
pub open spec fn scaled_delta(vel: i64, num: u32, den: u32) -> int
    recommends
        den > 0,
{
    if vel >= 0 {
        ((vel as int) * (num as int)) / (den as int)
    } else {
        -(((-(vel as int)) * (num as int)) / (den as int))
    }
}

/// Saturates an unbounded integer into the signed 64-bit range.
pub open spec fn clamp_i64(x: int) -> i64 {
    if x > i64::MAX as int {
        i64::MAX
    } else if x < i64::MIN as int {
        i64::MIN
    } else {
        x as i64
    }
}

/// One coordinate after one tick.
pub open spec fn spec_advanced_coord(pos: i64, vel: i64, num: u32, den: u32) -> i64 {
    clamp_i64(pos as int + scaled_delta(vel, num, den))
}

/// A player after one tick: `position += velocity * dt`, all else kept.
pub open spec fn spec_advanced_player(p: PlayerView, num: u32, den: u32) -> PlayerView {
    PlayerView {
        username: p.username,
        color: p.color,
        pos: Vec2 {
            x: spec_advanced_coord(p.pos.x, p.vel.x, num, den),
            y: spec_advanced_coord(p.pos.y, p.vel.y, num, den),
        },
        vel: p.vel,
    }
}

/// Moves one coordinate by `vel * num / den`, saturating at the ends of
/// the 64-bit range.
pub fn advance_coord(pos: i64, vel: i64, num: u32, den: u32) -> (r: i64)
    requires
        den > 0,
    ensures
        r == spec_advanced_coord(pos, vel, num, den),
{
    let mag: u128 = if vel >= 0 {
        vel as u128
    } else {
        (-(vel as i128)) as u128
    };
    assert(mag <= 0x8000_0000_0000_0000u128);
    assert((mag as int) * (num as int) <= 0x8000_0000_0000_0000 * 0xFFFF_FFFF) by {
        vstd::arithmetic::mul::lemma_mul_upper_bound(
            mag as int,
            0x8000_0000_0000_0000,
            num as int,
            0xFFFF_FFFF,
        );
    }
    let prod: u128 = mag * (num as u128);
    let q: u128 = prod / (den as u128);
    assert(q <= prod) by {
        vstd::arithmetic::div_mod::lemma_div_is_ordered_by_denominator(
            prod as int,
            1,
            den as int,
        );
    }
    let d: i128 = if vel >= 0 {
        q as i128
    } else {
        -(q as i128)
    };
    let nx: i128 = (pos as i128) + d;
    assert(nx == pos as int + scaled_delta(vel, num, den));
    if nx > i64::MAX as i128 {
        i64::MAX
    } else if nx < i64::MIN as i128 {
        i64::MIN
    } else {
        nx as i64
    }
}

/// The entries of an association list as ghost pairs.
pub open spec fn entry_views(s: Seq<(u64, Player)>) -> Seq<(u64, PlayerView)> {
    s.map_values(|pr: (u64, Player)| (pr.0, pr.1@))
}

/// The set of live players, keyed by the server-assigned id.
#[derive(Debug, PartialEq)]
pub struct Entities {
    players: Vec<(u64, Player)>,
}

impl Entities {
    /// The association list as ghost pairs.
    pub closed spec fn pairs(self) -> Seq<(u64, PlayerView)> {
        entry_views(self.players@)
    }

    /// Well-formed: no player id occurs twice.
    pub closed spec fn wf(self) -> bool {
        unique_ids(self.players@)
    }

    /// The player mapping: the single source of truth that the server
    /// broadcasts to every client.
    pub open spec fn players(self) -> Map<u64, PlayerView> {
        pairs_map(self.pairs())
    }

    /// A well-formed registry has duplicate-free ghost pairs too.
    pub proof fn lemma_pairs_unique(self)
        requires
            self.wf(),
        ensures
            unique_ids(self.pairs()),
    {
        assert(forall|i: int| 0 <= i < self.players@.len()
            ==> self.pairs()[i].0 == self.players@[i].0);
    }

    /// Duplicate-free ghost pairs make the registry well-formed.
    pub proof fn lemma_wf_from_pairs(self)
        requires
            unique_ids(self.pairs()),
        ensures
            self.wf(),
    {
        assert(forall|i: int| 0 <= i < self.players@.len()
            ==> #[trigger] self.pairs()[i].0 == self.players@[i].0);
        if !self.wf() {
            let (x, y) = choose|x: int, y: int|
                0 <= x < y < self.players@.len() && self.players@[x].0 == self.players@[y].0;
            assert(self.pairs()[x].0 == self.pairs()[y].0);
        }
    }

    /// An empty world holds no players.
    pub fn new() -> (e: Entities)
        ensures
            e.wf(),
            e.players() =~= Map::<u64, PlayerView>::empty(),
    {
        Entities { players: Vec::new() }
    }

    fn find_index(&self, id: u64) -> (r: Option<usize>)
        ensures
            match r {
                Some(i) => i < self.players@.len() && self.players@[i as int].0 == id,
                None => !has_id(self.players@, id),
            },
    {
        let mut i: usize = 0;
        while i < self.players.len()
            invariant
                i <= self.players@.len(),
                forall|j: int| 0 <= j < i ==> self.players@[j].0 != id,
            decreases self.players@.len() - i,
        {
            if self.players[i].0 == id {
                return Some(i);
            }
            i = i + 1;
        }
        None
    }

    /// Inserts or replaces the player at `id`. Never fails; storing the
    /// same player twice leaves the same mapping as storing it once.
    pub fn upsert_player(&mut self, id: u64, player: Player)
        requires
            old(self).wf(),
        ensures
            final(self).wf(),
            final(self).players() == old(self).players().insert(id, player@),
    {
        let ghost old_pairs = self.pairs();
        proof {
            self.lemma_pairs_unique();
        }
        match self.find_index(id) {
            Some(i) => {
                proof {
                    assert(old_pairs[i as int].0 == id);
                    lemma_pairs_map_update(old_pairs, i as int, player@);
                }
                self.players.set(i, (id, player));
                proof {
                    assert(self.pairs() =~= old_pairs.update(i as int, (id, player@)));
                }
            },
            None => {
                proof {
                    assert(!has_id(old_pairs, id)) by {
                        if has_id(old_pairs, id) {
                            let j = choose|j: int|
                                0 <= j < old_pairs.len() && old_pairs[j].0 == id;
                            assert(self.players@[j].0 == id);
                        }
                    }
                    lemma_pairs_map_push(old_pairs, id, player@);
                }
                self.players.push((id, player));
                proof {
                    assert(self.pairs() =~= old_pairs.push((id, player@)));
                }
            },
        }
        proof {
            assert(forall|i: int, j: int| 0 <= i < j < self.players@.len()
                ==> self.pairs()[i].0 == self.players@[i].0
                    && self.pairs()[j].0 == self.players@[j].0);
        }
    }

    /// Removes the player at `id` if present; a no-op otherwise.
    pub fn remove_player(&mut self, id: u64)
        requires
            old(self).wf(),
        ensures
            final(self).wf(),
            final(self).players() == old(self).players().remove(id),
    {
        let ghost old_pairs = self.pairs();
        proof {
            self.lemma_pairs_unique();
        }
        match self.find_index(id) {
            Some(i) => {
                proof {
                    assert(old_pairs[i as int].0 == id);
                    lemma_pairs_map_remove_idx(old_pairs, i as int);
                }
                self.players.remove(i);
                proof {
                    assert(self.pairs() =~= old_pairs.remove(i as int));
                }
            },
            None => {
                proof {
                    assert(!has_id(old_pairs, id)) by {
                        if has_id(old_pairs, id) {
                            let j = choose|j: int|
                                0 <= j < old_pairs.len() && old_pairs[j].0 == id;
                            assert(self.players@[j].0 == id);
                        }
                    }
                    lemma_pairs_map_contains(old_pairs, id);
                    assert(old(self).players().remove(id) =~= old(self).players());
                }
            },
        }
        proof {
            assert(forall|i: int, j: int| 0 <= i < j < self.players@.len()
                ==> self.pairs()[i].0 == self.players@[i].0
                    && self.pairs()[j].0 == self.players@[j].0);
        }
    }

    /// Applies `position += velocity * dt` to every player, with
    /// `dt = num / den`. Pure in the current state and `dt`.
    pub fn advance(&mut self, num: u32, den: u32)
        requires
            old(self).wf(),
            den > 0,
        ensures
            final(self).wf(),
            forall|id: u64| final(self).players().contains_key(id)
                <==> old(self).players().contains_key(id),
            forall|id: u64| #[trigger] old(self).players().contains_key(id)
                ==> final(self).players()[id]
                    == spec_advanced_player(old(self).players()[id], num, den),
    {
        let ghost old_pairs = self.pairs();
        proof {
            self.lemma_pairs_unique();
        }
        let mut i: usize = 0;
        while i < self.players.len()
            invariant
                den > 0,
                i <= self.players@.len(),
                self.players@.len() == old_pairs.len(),
                unique_ids(self.players@),
                forall|j: int| 0 <= j < self.players@.len()
                    ==> #[trigger] self.players@[j].0 == old_pairs[j].0,
                forall|j: int| i <= j < self.players@.len()
                    ==> #[trigger] self.players@[j].1@ == old_pairs[j].1,
                forall|j: int| 0 <= j < i
                    ==> #[trigger] self.players@[j].1@
                        == spec_advanced_player(old_pairs[j].1, num, den),
            decreases self.players@.len() - i,
        {
            let px = self.players[i].1.pos.x;
            let py = self.players[i].1.pos.y;
            let vx = self.players[i].1.vel.x;
            let vy = self.players[i].1.vel.y;
            let nx = advance_coord(px, vx, num, den);
            let ny = advance_coord(py, vy, num, den);
            let id = self.players[i].0;
            let username = self.players[i].1.username.clone();
            let color = self.players[i].1.color;
            proof {
                assert(username@ =~= self.players@[i as int].1.username@);
                assert(self.players@[i as int].1@ == old_pairs[i as int].1);
            }
            let moved = Player {
                username,
                color,
                pos: Vec2 { x: nx, y: ny },
                vel: Vec2 { x: vx, y: vy },
            };
            proof {
                assert(moved@ == spec_advanced_player(old_pairs[i as int].1, num, den));
            }
            self.players.set(i, (id, moved));
            i = i + 1;
        }
        proof {
            let new_pairs = self.pairs();
            assert(forall|j: int| 0 <= j < new_pairs.len()
                ==> #[trigger] new_pairs[j]
                    == (old_pairs[j].0, spec_advanced_player(old_pairs[j].1, num, den)));
            assert(unique_ids(new_pairs)) by {
                assert(forall|j: int| 0 <= j < self.players@.len()
                    ==> new_pairs[j].0 == self.players@[j].0);
            }
            assert forall|id: u64| pairs_map(new_pairs).contains_key(id)
                <==> pairs_map(old_pairs).contains_key(id) by {
                lemma_pairs_map_contains(new_pairs, id);
                lemma_pairs_map_contains(old_pairs, id);
                if has_id(new_pairs, id) {
                    let j = choose|j: int| 0 <= j < new_pairs.len() && new_pairs[j].0 == id;
                    assert(old_pairs[j].0 == id);
                }
                if has_id(old_pairs, id) {
                    let j = choose|j: int| 0 <= j < old_pairs.len() && old_pairs[j].0 == id;
                    assert(new_pairs[j].0 == id);
                }
            }
            assert forall|id: u64| #[trigger] pairs_map(old_pairs).contains_key(id)
                implies pairs_map(new_pairs)[id]
                    == spec_advanced_player(pairs_map(old_pairs)[id], num, den) by {
                lemma_pairs_map_contains(old_pairs, id);
                let j = choose|j: int| 0 <= j < old_pairs.len() && old_pairs[j].0 == id;
                lemma_pairs_map_at(old_pairs, j);
                assert(new_pairs[j].0 == id);
                lemma_pairs_map_at(new_pairs, j);
            }
        }
    }

    /// An independent copy of the player mapping, for a broadcast that
    /// happens outside the world lock.
    pub fn snapshot(&self) -> (e: Entities)
        requires
            self.wf(),
        ensures
            e.wf(),
            e.players() == self.players(),
    {
        self.clone()
    }

    /// The player at `id`, if any.
    pub fn get(&self, id: u64) -> (r: Option<&Player>)
        requires
            self.wf(),
        ensures
            match r {
                Some(p) => self.players().contains_key(id) && p@ == self.players()[id],
                None => !self.players().contains_key(id),
            },
    {
        proof {
            self.lemma_pairs_unique();
        }
        match self.find_index(id) {
            Some(i) => {
                proof {
                    assert(self.pairs()[i as int].0 == id);
                    lemma_pairs_map_at(self.pairs(), i as int);
                }
                Some(&self.players[i].1)
            },
            None => {
                proof {
                    assert(!has_id(self.pairs(), id)) by {
                        if has_id(self.pairs(), id) {
                            let j = choose|j: int|
                                0 <= j < self.pairs().len() && self.pairs()[j].0 == id;
                            assert(self.players@[j].0 == id);
                        }
                    }
                    lemma_pairs_map_contains(self.pairs(), id);
                }
                None
            },
        }
    }

    /// How many players are live.
    pub fn player_count(&self) -> (n: usize)
        ensures
            n == self.pairs().len(),
    {
        self.players.len()
    }

    /// Builds the registry from a duplicate-free list of entries.
    pub fn from_pairs(players: Vec<(u64, Player)>) -> (e: Entities)
        requires
            unique_ids(players@),
        ensures
            e.wf(),
            e.pairs() == entry_views(players@),
    {
        Entities { players }
    }

    /// The entry at one index of the registry.
    pub fn entry(&self, i: usize) -> (r: &(u64, Player))
        requires
            i < self.pairs().len(),
        ensures
            r.0 == self.pairs()[i as int].0,
            r.1@ == self.pairs()[i as int].1,
    {
        &self.players[i]
    }
}

impl Clone for Entities {
    /// An independent copy with the same entries in the same order.
    fn clone(&self) -> (e: Entities)
        ensures
            e.pairs() == self.pairs(),
            self.wf() ==> e.wf(),
    {
        let mut players: Vec<(u64, Player)> = Vec::new();
        let mut i: usize = 0;
        while i < self.players.len()
            invariant
                i <= self.players@.len(),
                players@.len() == i,
                forall|j: int| 0 <= j < i
                    ==> #[trigger] players@[j].0 == self.players@[j].0
                        && players@[j].1@ == self.players@[j].1@,
            decreases self.players@.len() - i,
        {
            let id = self.players[i].0;
            let p = self.players[i].1.clone();
            players.push((id, p));
            i = i + 1;
        }
        let e = Entities { players };
        proof {
            assert(e.pairs() =~= self.pairs());
            if self.wf() {
                assert(forall|j: int| 0 <= j < e.players@.len()
                    ==> #[trigger] e.players@[j].0 == self.players@[j].0);
            }
        }
        e
    }
}

/// Storing the same player twice at the same id leaves the same mapping
/// as storing it once.
pub proof fn lemma_upsert_idempotent(m: Map<u64, PlayerView>, id: u64, p: PlayerView)
    ensures
        m.insert(id, p).insert(id, p) == m.insert(id, p),
{
    assert(m.insert(id, p).insert(id, p) =~= m.insert(id, p));
}

} // verus!
