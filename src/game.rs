//! Matches, teams and round kinds.
use crate::external::new_id;
use crate::player::PlayerId;
use vstd::prelude::*;

verus! {

/// Unique identifier of a match.
pub type MatchId = u128;

/// One of the two sides of a match.
#[derive(Clone, Copy, Debug, Default, PartialEq, Eq, Hash, Structural)]
pub enum Team {
    #[default]
    One,
    Two,
}

/// The phase of the tournament a match belongs to.
#[derive(Clone, Copy, Debug, PartialEq, Eq, Structural)]
pub enum RoundType {
    GroupPlay,
    SemiFinals,
    Finals,
    GrandFinals,
}

/// A single match between two teams of player ids.
#[derive(Clone, Debug, PartialEq, Eq)]
pub struct GameMatch {
    pub id: MatchId,
    pub team_1: Vec<PlayerId>,
    pub team_2: Vec<PlayerId>,
    /// `None` until played.
    pub winner: Option<Team>,
    pub round: RoundType,
}

/// The ids on the winning side of `m` when `w` won.
pub open spec fn winners_of(m: GameMatch, w: Team) -> Seq<PlayerId> {
    match w {
        Team::One => m.team_1@,
        Team::Two => m.team_2@,
    }
}

/// The ids on the losing side of `m` when `w` won.
pub open spec fn losers_of(m: GameMatch, w: Team) -> Seq<PlayerId> {
    match w {
        Team::One => m.team_2@,
        Team::Two => m.team_1@,
    }
}

/// Every player id of the matches, match by match, team 1 before team 2.
pub open spec fn participants(ms: Seq<GameMatch>) -> Seq<PlayerId>
    decreases ms.len(),
{
    if ms.len() == 0 {
        Seq::empty()
    } else {
        participants(ms.drop_last()) + ms.last().team_1@ + ms.last().team_2@
    }
}

impl GameMatch {
    /// A new unplayed match with a fresh id.
    pub fn new(team_1: Vec<PlayerId>, team_2: Vec<PlayerId>, round: RoundType) -> (r: GameMatch)
        ensures
            r.team_1@ == team_1@,
            r.team_2@ == team_2@,
            r.winner is None,
            r.round == round,
    {
        GameMatch { id: new_id(), team_1, team_2, winner: None, round }
    }

    /// A copy of this match, equal in every field.
    pub fn duplicate(&self) -> (r: GameMatch)
        ensures
            r.id == self.id,
            r.team_1@ == self.team_1@,
            r.team_2@ == self.team_2@,
            r.winner == self.winner,
            r.round == self.round,
    {
        GameMatch {
            id: self.id,
            team_1: self.team_1.clone(),
            team_2: self.team_2.clone(),
            winner: self.winner,
            round: self.round,
        }
    }
}

} // verus!
