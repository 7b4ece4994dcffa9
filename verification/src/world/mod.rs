//! The world: the single authoritative game state.
//!
//! The world couples the static environment with the live players. It is
//! created once at server start; every mutation happens through the
//! operations below, whose contracts are stated over the player mapping.

use vstd::prelude::*;

pub mod entities;
pub mod environment;

use entities::{Entities, Player, PlayerView, spec_advanced_player};
use environment::Environment;

verus! {

/// The main game world: environment plus entities.
#[derive(Debug, PartialEq)]
pub struct World {
    pub environment: Environment,
    pub entities: Entities,
}

impl World {
    /// Well-formed: the player registry holds no id twice.
    pub open spec fn wf(self) -> bool {
        self.entities.wf()
    }

    /// The authoritative player mapping.
    pub open spec fn players(self) -> Map<u64, PlayerView> {
        self.entities.players()
    }

    /// A fresh world: no objects, no players.
    pub fn new() -> (w: World)
        ensures
            w.wf(),
            w.players() =~= Map::<u64, PlayerView>::empty(),
            w.environment.objects@ =~= Seq::<environment::Object>::empty(),
    {
        World { environment: Environment::new(), entities: Entities::new() }
    }

    /// Inserts or replaces the player at `id`.
    pub fn upsert_player(&mut self, id: u64, player: Player)
        requires
            old(self).wf(),
        ensures
            final(self).wf(),
            final(self).players() == old(self).players().insert(id, player@),
            final(self).environment == old(self).environment,
    {
        self.entities.upsert_player(id, player);
    }

    /// Removes the player at `id` if present; a no-op otherwise.
    pub fn remove_player(&mut self, id: u64)
        requires
            old(self).wf(),
        ensures
            final(self).wf(),
            final(self).players() == old(self).players().remove(id),
            final(self).environment == old(self).environment,
    {
        self.entities.remove_player(id);
    }

    /// Advances every player by `position += velocity * (num / den)`.
    pub fn advance(&mut self, num: u32, den: u32)
        requires
            old(self).wf(),
            den > 0,
        ensures
            final(self).wf(),
            forall|id: u64| final(self).players().contains_key(id)
                <==> old(self).players().contains_key(id),
            forall|id: u64| #[trigger] old(self).players().contains_key(id)
                ==> final(self).players()[id]
                    == spec_advanced_player(old(self).players()[id], num, den),
            final(self).environment == old(self).environment,
    {
        self.entities.advance(num, den);
    }

    /// An independent copy of the live players, taken so that the
    /// broadcast can run outside the world lock.
    pub fn snapshot(&self) -> (e: Entities)
        requires
            self.wf(),
        ensures
            e.wf(),
            e.players() == self.players(),
    {
        self.entities.snapshot()
    }
}

} // verus!
