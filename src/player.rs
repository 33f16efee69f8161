//! Players and their statistics.
use crate::external::new_id;
use vstd::prelude::*;

verus! {

/// Unique identifier of a player.
pub type PlayerId = u128;

/// Mathematical model of a player.
pub struct PlayerModel {
    pub id: PlayerId,
    pub name: Seq<char>,
    pub losses: u32,
    pub wins: u32,
    pub times_sat_out: u32,
    pub internal_times_sat_out: i32,
    pub seed: u32,
    pub eliminated: bool,
}

/// Statistics of a player, as shown to users.
#[derive(Clone, Debug, Default, PartialEq, Eq)]
pub struct PlayerStats {
    pub losses: u32,
    pub wins: u32,
    pub times_sat_out: u32,
    pub eliminated_status: bool,
}

/// A player in a tournament.
#[derive(Clone, Debug)]
pub struct Player {
    pub id: PlayerId,
    pub name: String,
    pub losses: u32,
    pub wins: u32,
    pub times_sat_out: u32,
    /// Counter used to rotate sit-outs fairly.
    pub internal_times_sat_out: i32,
    pub seed: u32,
    pub eliminated: bool,
}

impl View for Player {
    type V = PlayerModel;

    open spec fn view(&self) -> PlayerModel {
        PlayerModel {
            id: self.id,
            name: self.name@,
            losses: self.losses,
            wins: self.wins,
            times_sat_out: self.times_sat_out,
            internal_times_sat_out: self.internal_times_sat_out,
            seed: self.seed,
            eliminated: self.eliminated,
        }
    }
}

/// The model of `m` after sitting out one more round.
pub open spec fn sat_out(m: PlayerModel) -> PlayerModel {
    PlayerModel {
        times_sat_out: (m.times_sat_out + 1) as u32,
        internal_times_sat_out: (m.internal_times_sat_out + 1) as i32,
        ..m
    }
}

/// The models of a sequence of players.
pub open spec fn models(s: Seq<Player>) -> Seq<PlayerModel> {
    s.map_values(|p: Player| p@)
}

/// The identifiers of a sequence of players.
pub open spec fn ids_of(s: Seq<Player>) -> Seq<PlayerId> {
    s.map_values(|p: Player| p.id)
}

impl PlayerStats {
    /// The statistics of `p`.
    pub fn from_player(p: &Player) -> (r: PlayerStats)
        ensures
            r.losses == p.losses,
            r.wins == p.wins,
            r.times_sat_out == p.times_sat_out,
            r.eliminated_status == p.eliminated,
    {
        PlayerStats {
            losses: p.losses,
            wins: p.wins,
            times_sat_out: p.times_sat_out,
            eliminated_status: p.eliminated,
        }
    }
}

impl Player {
    /// A new player named `name` with a fresh identifier and zeroed statistics.
    pub fn new(name: String) -> (r: Player)
        ensures
            r.name@ == name@,
            r.losses == 0,
            r.wins == 0,
            r.times_sat_out == 0,
            r.internal_times_sat_out == 0,
            r.seed == 0,
            !r.eliminated,
    {
        Player {
            id: new_id(),
            name,
            losses: 0,
            wins: 0,
            times_sat_out: 0,
            internal_times_sat_out: 0,
            seed: 0,
            eliminated: false,
        }
    }

    /// A copy of this player, equal in every field.
    pub fn duplicate(&self) -> (r: Player)
        ensures
            r@ == self@,
    {
        Player {
            id: self.id,
            name: self.name.clone(),
            losses: self.losses,
            wins: self.wins,
            times_sat_out: self.times_sat_out,
            internal_times_sat_out: self.internal_times_sat_out,
            seed: self.seed,
            eliminated: self.eliminated,
        }
    }

    /// Current statistics of this player.
    pub fn stats(&self) -> (r: PlayerStats)
        ensures
            r.losses == self.losses,
            r.wins == self.wins,
            r.times_sat_out == self.times_sat_out,
            r.eliminated_status == self.eliminated,
    {
        PlayerStats::from_player(self)
    }

    /// Records a win.
    pub fn add_win(&mut self)
        requires
            old(self).wins < u32::MAX,
        ensures
            final(self)@ == (PlayerModel { wins: (old(self).wins + 1) as u32, ..old(self)@ }),
    {
        self.wins = self.wins + 1;
    }

    /// Records a loss.
    pub fn add_loss(&mut self)
        requires
            old(self).losses < u32::MAX,
        ensures
            final(self)@ == (PlayerModel { losses: (old(self).losses + 1) as u32, ..old(self)@ }),
    {
        self.losses = self.losses + 1;
    }

    /// Marks the player as eliminated.
    pub fn eliminate(&mut self)
        ensures
            final(self)@ == (PlayerModel { eliminated: true, ..old(self)@ }),
    {
        self.eliminated = true;
    }

    /// Records that the player sat out one round.
    pub fn record_sat_out(&mut self)
        requires
            old(self).times_sat_out < u32::MAX,
            old(self).internal_times_sat_out < i32::MAX,
        ensures
            final(self)@ == sat_out(old(self)@),
    {
        self.times_sat_out = self.times_sat_out + 1;
        self.internal_times_sat_out = self.internal_times_sat_out + 1;
    }
}

} // verus!
