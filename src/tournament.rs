//! The tournament aggregate: roster, phase and the operations on them.
use crate::external::{ascii_alnum, eq_ignore_case, new_id, same_name, trim_name, trimmed};
use crate::game::{GameMatch, MatchId, Team};
use crate::player::{models, Player, PlayerId, PlayerModel};
use std::collections::HashMap;
use vstd::prelude::*;

verus! {

broadcast use vstd::std_specs::hash::group_hash_axioms;

/// Unique identifier of a tournament.
pub type TournamentId = u128;

/// Errors of tournament operations.
#[derive(Clone, Debug, PartialEq, Eq, Structural)]
pub enum TournamentError {
    /// Not every match has a result.
    IncompleteResults,
    /// Too few players to generate matches.
    NotEnoughPlayers,
    /// Too few players to start; `required` are needed.
    NotEnoughPlayersToStart { required: usize },
    /// The operation is not allowed in the current phase.
    InvalidState,
    /// No player with this id in the searched collections.
    PlayerNotFound(PlayerId),
    /// A player with this name (ignoring ASCII case) is already on the roster.
    DuplicatePlayerName,
    /// Final selection must pick exactly `needed` players.
    WrongNumberOfPlayers { needed: usize, selected: usize },
    /// The selected player was not eliminated in the last round.
    PlayerNotInLastEliminated(PlayerId),
}

/// Team size of the tournament's matches.
#[derive(Clone, Copy, Debug, Default, PartialEq, Eq, Structural)]
pub enum TournamentMode {
    OneVOne,
    #[default]
    TwoVTwo,
}

/// Phase of the tournament.
#[derive(Clone, Copy, Debug, Default, PartialEq, Eq, Structural)]
pub enum TournamentState {
    /// Adding players and setting max losses.
    #[default]
    Setup,
    /// Group play rounds.
    GroupPlay,
    /// The roster is brought to the bracket size.
    FinalSelection,
    /// Two semi-final matches.
    SemiFinals,
    /// One final match.
    Finals,
    /// Finished.
    Completed,
}

/// Full state of one tournament.
#[derive(Clone, Debug)]
pub struct Tournament {
    pub id: TournamentId,
    /// Active players.
    pub players: Vec<Player>,
    /// Every player eliminated so far.
    pub eliminated_players: Vec<Player>,
    /// Players eliminated in the most recent round.
    pub last_eliminated_players: Vec<Player>,
    /// Matches of the current round.
    pub matches: Vec<GameMatch>,
    /// Players sitting out the current group round.
    pub unused_players: Vec<Player>,
    /// Losses at which a player is eliminated.
    pub max_losses: u32,
    pub mode: TournamentMode,
    pub state: TournamentState,
    /// Winner of each current group match, before submission.
    pub match_results: HashMap<MatchId, Team>,
    /// Winner of each current final-round match, before submission.
    pub final_match_results: HashMap<MatchId, Team>,
    pub bracket_semi_final_matches: Option<Vec<GameMatch>>,
    pub bracket_semi_final_results: Option<HashMap<MatchId, Team>>,
    pub bracket_finals_match: Option<GameMatch>,
    pub bracket_finals_result: Option<Team>,
    pub bracket_semi_final_players: Option<Vec<Player>>,
}

/// Roster size needed to start, and the size of the final bracket.
pub open spec fn bracket_size(mode: TournamentMode) -> nat {
    match mode {
        TournamentMode::OneVOne => 4,
        TournamentMode::TwoVTwo => 8,
    }
}

/// Number of players in one match.
pub open spec fn match_size(mode: TournamentMode) -> nat {
    match mode {
        TournamentMode::OneVOne => 2,
        TournamentMode::TwoVTwo => 4,
    }
}

/// Position of a phase along the tournament's single path.
pub open spec fn phase_rank(s: TournamentState) -> nat {
    match s {
        TournamentState::Setup => 0,
        TournamentState::GroupPlay => 1,
        TournamentState::FinalSelection => 2,
        TournamentState::SemiFinals => 3,
        TournamentState::Finals => 4,
        TournamentState::Completed => 5,
    }
}

/// A phase change that the state machine allows outside a restart: none,
/// one step along the path, or the shortcut from setup to final selection.
pub open spec fn forward_step(a: TournamentState, b: TournamentState) -> bool {
    a == b || phase_rank(b) == phase_rank(a) + 1 || (a == TournamentState::Setup && b
        == TournamentState::FinalSelection)
}

/// Phases in which players may join.
pub open spec fn roster_open(s: TournamentState) -> bool {
    s == TournamentState::Setup || s == TournamentState::GroupPlay || s
        == TournamentState::FinalSelection
}

/// Phases in which losses may be edited and players eliminated by hand.
pub open spec fn in_play(s: TournamentState) -> bool {
    s == TournamentState::GroupPlay || s == TournamentState::FinalSelection
}

/// `m` with its loss count set to `losses`, and flagged eliminated if `flag`.
pub open spec fn with_losses(m: PlayerModel, losses: u32, flag: bool) -> PlayerModel {
    PlayerModel { losses, eliminated: m.eliminated || flag, ..m }
}

/// `k` is the first position of a player with id `id` in `s`.
pub open spec fn first_with_id(s: Seq<Player>, id: PlayerId, k: int) -> bool {
    &&& 0 <= k < s.len()
    &&& s[k].id == id
    &&& forall|j: int| 0 <= j < k ==> s[j].id != id
}

/// Some player in `s` has id `id`.
pub open spec fn has_id(s: Seq<Player>, id: PlayerId) -> bool {
    exists|k: int| 0 <= k < s.len() && s[k].id == id
}

/// Some player in `s` has a name equal to `name` ignoring ASCII case.
pub open spec fn has_name(s: Seq<Player>, name: Seq<char>) -> bool {
    exists|k: int| 0 <= k < s.len() && same_name(s[k].name@, name)
}

/// No two players in `s` have names equal ignoring ASCII case.
pub open spec fn names_distinct(s: Seq<Player>) -> bool {
    forall|i: int, j: int|
        0 <= i < s.len() && 0 <= j < s.len() && i != j ==> !same_name(
            #[trigger] s[i].name@,
            #[trigger] s[j].name@,
        )
}

/// A player named `name` with zeroed statistics.
pub open spec fn fresh_player(p: PlayerModel, name: Seq<char>) -> bool {
    &&& p.name == name
    &&& p.losses == 0
    &&& p.wins == 0
    &&& p.times_sat_out == 0
    &&& p.internal_times_sat_out == 0
    &&& p.seed == 0
    &&& !p.eliminated
}

/// The names on the roster after adding each of `names` in turn to an
/// empty roster, skipping the blank ones and the duplicates.
pub open spec fn roster_names(names: Seq<Seq<char>>) -> Seq<Seq<char>>
    decreases names.len(),
{
    if names.len() == 0 {
        Seq::empty()
    } else {
        let prev = roster_names(names.drop_last());
        let t = trimmed(names.last());
        if t.len() == 0 || exists|j: int| 0 <= j < prev.len() && same_name(prev[j], t) {
            prev
        } else {
            prev.push(t)
        }
    }
}

/// The names of a sequence of players.
pub open spec fn names_of(s: Seq<Player>) -> Seq<Seq<char>> {
    s.map_values(|p: Player| p.name@)
}

/// `t` is a tournament as just created, but for its roster.
pub open spec fn is_fresh(t: Tournament, max_losses: u32, mode: TournamentMode) -> bool {
    &&& t.eliminated_players@.len() == 0
    &&& t.last_eliminated_players@.len() == 0
    &&& t.matches@.len() == 0
    &&& t.unused_players@.len() == 0
    &&& t.max_losses == max_losses
    &&& t.mode == mode
    &&& t.state == TournamentState::Setup
    &&& t.match_results@ == Map::<MatchId, Team>::empty()
    &&& t.final_match_results@ == Map::<MatchId, Team>::empty()
    &&& t.bracket_semi_final_matches is None
    &&& t.bracket_semi_final_results is None
    &&& t.bracket_finals_match is None
    &&& t.bracket_finals_result is None
    &&& t.bracket_semi_final_players is None
}

/// Position of the first player with id `id` in `s`, if any.
pub fn find_player(s: &Vec<Player>, id: PlayerId) -> (r: Option<usize>)
    ensures
        match r {
            Some(k) => first_with_id(s@, id, k as int),
            None => !has_id(s@, id),
        },
{
    let mut i: usize = 0;
    while i < s.len()
        invariant
            i <= s.len(),
            forall|j: int| 0 <= j < i ==> s@[j].id != id,
        decreases s.len() - i,
    {
        if s[i].id == id {
            return Some(i);
        }
        i = i + 1;
    }
    None
}

/// Copies of the players of `s` whose id is not `id`, in order.
pub fn without_id(s: &Vec<Player>, id: PlayerId) -> (r: Vec<Player>)
    ensures
        models(r@) == models(s@).filter(|m: PlayerModel| m.id != id),
{
    let ghost pred = |m: PlayerModel| m.id != id;
    let mut r: Vec<Player> = Vec::new();
    let mut i: usize = 0;
    while i < s.len()
        invariant
            i <= s.len(),
            pred == (|m: PlayerModel| m.id != id),
            models(r@) == models(s@.subrange(0, i as int)).filter(pred),
        decreases s.len() - i,
    {
        let ghost prefix = models(s@.subrange(0, i as int));
        let ghost x = s@[i as int]@;
        proof {
            assert(models(s@.subrange(0, i + 1)) =~= prefix.push(x));
            prefix.lemma_filter_push(x, pred);
        }
        if s[i].id != id {
            let p = s[i].duplicate();
            r.push(p);
            proof {
                assert(models(r@) =~= prefix.filter(pred).push(x));
            }
        } else {
            assert(!pred(x));
        }
        i = i + 1;
    }
    proof {
        assert(s@.subrange(0, s@.len() as int) =~= s@);
    }
    r
}

/// The views of a sequence of strings.
pub open spec fn str_views(s: Seq<String>) -> Seq<Seq<char>> {
    s.map_values(|x: String| x@)
}

/// Appends a copy of the name of each player of `from` to `names`.
fn collect_names(names: &mut Vec<String>, from: &Vec<Player>)
    ensures
        str_views(final(names)@) == str_views(old(names)@) + names_of(from@),
{
    let ghost start = str_views(names@);
    let mut i: usize = 0;
    while i < from.len()
        invariant
            i <= from.len(),
            str_views(names@) == start + names_of(from@.subrange(0, i as int)),
        decreases from.len() - i,
    {
        let c = from[i].name.clone();
        let ghost prev = names@;
        names.push(c);
        proof {
            assert(names@ == prev.push(c));
            assert(str_views(prev.push(c)) =~= str_views(prev).push(c@));
            assert(names_of(from@.subrange(0, i + 1)) =~= names_of(from@.subrange(0, i as int)).push(
                c@,
            ));
            assert(str_views(names@) =~= start + names_of(from@.subrange(0, i + 1)));
        }
        i = i + 1;
    }
    proof {
        assert(from@.subrange(0, from@.len() as int) =~= from@);
    }
}

impl Tournament {
    /// A new tournament in the setup phase, with no players.
    pub fn new(max_losses: u32, mode: TournamentMode) -> (r: Tournament)
        ensures
            r.players@.len() == 0,
            is_fresh(r, max_losses, mode),
    {
        Tournament {
            id: new_id(),
            players: Vec::new(),
            eliminated_players: Vec::new(),
            last_eliminated_players: Vec::new(),
            matches: Vec::new(),
            unused_players: Vec::new(),
            max_losses,
            mode,
            state: TournamentState::Setup,
            match_results: HashMap::new(),
            final_match_results: HashMap::new(),
            bracket_semi_final_matches: None,
            bracket_semi_final_results: None,
            bracket_finals_match: None,
            bracket_finals_result: None,
            bracket_semi_final_players: None,
        }
    }

    /// A new tournament in the setup phase whose roster is `players`.
    pub fn with_players(players: Vec<Player>, max_losses: u32, mode: TournamentMode) -> (r:
        Tournament)
        ensures
            r.players@ == players@,
            is_fresh(r, max_losses, mode),
    {
        let mut t = Tournament::new(max_losses, mode);
        t.players = players;
        t
    }

    /// Roster size needed to start the tournament.
    pub fn players_required_to_start(&self) -> (r: usize)
        ensures
            r == bracket_size(self.mode),
    {
        match self.mode {
            TournamentMode::OneVOne => 4,
            TournamentMode::TwoVTwo => 8,
        }
    }

    /// Roster size of the semi-final bracket.
    pub fn players_required_for_semi(&self) -> (r: usize)
        ensures
            r == bracket_size(self.mode),
    {
        match self.mode {
            TournamentMode::OneVOne => 4,
            TournamentMode::TwoVTwo => 8,
        }
    }

    /// Adds a player named `name` with leading and trailing white space
    /// removed. Allowed in setup, group play and final selection.
    pub fn add_player(&mut self, name: &str) -> (r: Result<(), TournamentError>)
        ensures
            !roster_open(old(self).state) ==> r == Err::<(), TournamentError>(
                TournamentError::InvalidState,
            ),
            roster_open(old(self).state) && trimmed(name@).len() == 0 ==> r == Err::<
                (),
                TournamentError,
            >(TournamentError::InvalidState),
            roster_open(old(self).state) && trimmed(name@).len() > 0 && has_name(
                old(self).players@,
                trimmed(name@),
            ) ==> r == Err::<(), TournamentError>(TournamentError::DuplicatePlayerName),
            roster_open(old(self).state) && trimmed(name@).len() > 0 && !has_name(
                old(self).players@,
                trimmed(name@),
            ) ==> r is Ok,
            r is Err ==> *final(self) == *old(self),
            r is Ok ==> final(self).players@.drop_last() == old(self).players@,
            r is Ok ==> final(self).players@.len() == old(self).players@.len() + 1,
            r is Ok ==> fresh_player(final(self).players@.last()@, trimmed(name@)),
            r is Ok ==> *final(self) == (Tournament { players: final(self).players, ..*old(self) }),
            names_distinct(old(self).players@) ==> names_distinct(final(self).players@),
            name@.len() > 0 && ascii_alnum(name@[0]) && ascii_alnum(name@.last()) ==> trimmed(
                name@,
            ) == name@,
    {
        let t = trim_name(name);
        match self.state {
            TournamentState::Setup | TournamentState::GroupPlay
            | TournamentState::FinalSelection => {},
            _ => return Err(TournamentError::InvalidState),
        }
        if t.as_str().is_empty() {
            return Err(TournamentError::InvalidState);
        }
        let mut i: usize = 0;
        while i < self.players.len()
            invariant
                *self == *old(self),
                roster_open(self.state),
                t@ == trimmed(name@),
                t@.len() > 0,
                name@.len() > 0 && ascii_alnum(name@[0]) && ascii_alnum(name@.last()) ==> t@
                    == name@,
                i <= self.players.len(),
                forall|j: int| 0 <= j < i ==> !same_name(self.players@[j].name@, t@),
            decreases self.players.len() - i,
        {
            if eq_ignore_case(self.players[i].name.as_str(), t.as_str()) {
                assert(same_name(self.players@[i as int].name@, t@));
                return Err(TournamentError::DuplicatePlayerName);
            }
            i = i + 1;
        }
        let ghost before = self.players@;
        self.players.push(Player::new(t));
        proof {
            assert(self.players@.drop_last() =~= before);
            assert forall|a: int, b: int|
                names_distinct(before) && 0 <= a < self.players@.len() && 0 <= b
                    < self.players@.len() && a != b implies !same_name(
                self.players@[a].name@,
                self.players@[b].name@,
            ) by {
                if a == before.len() {
                    assert(!same_name(before[b].name@, t@));
                } else if b == before.len() {
                    assert(!same_name(before[a].name@, t@));
                }
            }
        }
        Ok(())
    }

    /// Removes the first player with id `player_id`. Allowed only in setup.
    pub fn remove_player(&mut self, player_id: PlayerId) -> (r: Result<(), TournamentError>)
        ensures
            old(self).state != TournamentState::Setup ==> r == Err::<(), TournamentError>(
                TournamentError::InvalidState,
            ),
            old(self).state == TournamentState::Setup && !has_id(old(self).players@, player_id)
                ==> r == Err::<(), TournamentError>(TournamentError::PlayerNotFound(player_id)),
            old(self).state == TournamentState::Setup && has_id(old(self).players@, player_id)
                ==> r is Ok,
            r is Err ==> *final(self) == *old(self),
            r is Ok ==> exists|k: int|
                first_with_id(old(self).players@, player_id, k) && final(self).players@ == old(
                    self,
                ).players@.remove(k),
            r is Ok ==> *final(self) == (Tournament { players: final(self).players, ..*old(self) }),
    {
        if self.state != TournamentState::Setup {
            return Err(TournamentError::InvalidState);
        }
        match find_player(&self.players, player_id) {
            None => Err(TournamentError::PlayerNotFound(player_id)),
            Some(k) => {
                self.players.remove(k);
                Ok(())
            },
        }
    }

    /// Sets the number of losses that eliminates a player. Allowed only in setup.
    pub fn set_max_losses(&mut self, max_losses: u32) -> (r: Result<(), TournamentError>)
        ensures
            old(self).state != TournamentState::Setup ==> r == Err::<(), TournamentError>(
                TournamentError::InvalidState,
            ) && *final(self) == *old(self),
            old(self).state == TournamentState::Setup ==> r is Ok && *final(self) == (Tournament {
                max_losses,
                ..*old(self)
            }),
    {
        if self.state != TournamentState::Setup {
            return Err(TournamentError::InvalidState);
        }
        self.max_losses = max_losses;
        Ok(())
    }

    /// Sets the team size. Allowed only in setup.
    pub fn set_mode(&mut self, mode: TournamentMode) -> (r: Result<(), TournamentError>)
        ensures
            old(self).state != TournamentState::Setup ==> r == Err::<(), TournamentError>(
                TournamentError::InvalidState,
            ) && *final(self) == *old(self),
            old(self).state == TournamentState::Setup ==> r is Ok && *final(self) == (Tournament {
                mode,
                ..*old(self)
            }),
    {
        if self.state != TournamentState::Setup {
            return Err(TournamentError::InvalidState);
        }
        self.mode = mode;
        Ok(())
    }

    /// Sets the loss count of a player found on the roster or, failing that,
    /// among the players sitting out. Allowed in group play and final
    /// selection. The player is flagged eliminated only once a round has been
    /// generated and the count reaches the maximum.
    pub fn set_player_losses(&mut self, player_id: PlayerId, losses: u32) -> (r: Result<
        (),
        TournamentError,
    >)
        ensures
            !in_play(old(self).state) ==> r == Err::<(), TournamentError>(
                TournamentError::InvalidState,
            ),
            in_play(old(self).state) && !has_id(old(self).players@, player_id) && !has_id(
                old(self).unused_players@,
                player_id,
            ) ==> r == Err::<(), TournamentError>(TournamentError::PlayerNotFound(player_id)),
            in_play(old(self).state) && (has_id(old(self).players@, player_id) || has_id(
                old(self).unused_players@,
                player_id,
            )) ==> r is Ok,
            r is Err ==> *final(self) == *old(self),
            ({
                let flag = old(self).matches@.len() > 0 && losses >= old(self).max_losses;
                r is Ok && has_id(old(self).players@, player_id) ==> exists|k: int|
                    first_with_id(old(self).players@, player_id, k) && models(
                        final(self).players@,
                    ) == models(old(self).players@).update(
                        k,
                        with_losses(old(self).players@[k]@, losses, flag),
                    ) && *final(self) == (Tournament { players: final(self).players, ..*old(self) })
            }),
            ({
                let flag = old(self).matches@.len() > 0 && losses >= old(self).max_losses;
                r is Ok && !has_id(old(self).players@, player_id) ==> exists|k: int|
                    first_with_id(old(self).unused_players@, player_id, k) && models(
                        final(self).unused_players@,
                    ) == models(old(self).unused_players@).update(
                        k,
                        with_losses(old(self).unused_players@[k]@, losses, flag),
                    ) && *final(self) == (Tournament {
                        unused_players: final(self).unused_players,
                        ..*old(self)
                    })
            }),
    {
        if self.state != TournamentState::GroupPlay && self.state
            != TournamentState::FinalSelection {
            return Err(TournamentError::InvalidState);
        }
        let flag = self.matches.len() > 0 && losses >= self.max_losses;
        match find_player(&self.players, player_id) {
            Some(k) => {
                let mut p = self.players[k].duplicate();
                p.losses = losses;
                if flag {
                    p.eliminated = true;
                }
                let ghost before = self.players@;
                self.players.set(k, p);
                proof {
                    assert(models(self.players@) =~= models(before).update(
                        k as int,
                        with_losses(before[k as int]@, losses, flag),
                    ));
                }
                Ok(())
            },
            None => match find_player(&self.unused_players, player_id) {
                Some(k) => {
                    let mut p = self.unused_players[k].duplicate();
                    p.losses = losses;
                    if flag {
                        p.eliminated = true;
                    }
                    let ghost before = self.unused_players@;
                    self.unused_players.set(k, p);
                    proof {
                        assert(models(self.unused_players@) =~= models(before).update(
                            k as int,
                            with_losses(before[k as int]@, losses, flag),
                        ));
                    }
                    Ok(())
                },
                None => Err(TournamentError::PlayerNotFound(player_id)),
            },
        }
    }

    /// Moves a player from the roster or the sit-out list to the eliminated
    /// players, flagged eliminated. Allowed in group play and final selection.
    pub fn eliminate_player(&mut self, player_id: PlayerId) -> (r: Result<(), TournamentError>)
        ensures
            !in_play(old(self).state) ==> r == Err::<(), TournamentError>(
                TournamentError::InvalidState,
            ),
            in_play(old(self).state) && !has_id(old(self).players@, player_id) && !has_id(
                old(self).unused_players@,
                player_id,
            ) ==> r == Err::<(), TournamentError>(TournamentError::PlayerNotFound(player_id)),
            in_play(old(self).state) && (has_id(old(self).players@, player_id) || has_id(
                old(self).unused_players@,
                player_id,
            )) ==> r is Ok,
            r is Err ==> *final(self) == *old(self),
            r is Ok ==> models(final(self).players@) == models(old(self).players@).filter(
                |m: PlayerModel| m.id != player_id,
            ),
            r is Ok ==> models(final(self).unused_players@) == models(
                old(self).unused_players@,
            ).filter(|m: PlayerModel| m.id != player_id),
            r is Ok ==> final(self).eliminated_players@.drop_last()
                == old(self).eliminated_players@,
            r is Ok ==> final(self).eliminated_players@.len() == old(
                self,
            ).eliminated_players@.len() + 1,
            r is Ok && has_id(old(self).players@, player_id) ==> exists|k: int|
                first_with_id(old(self).players@, player_id, k)
                    && final(self).eliminated_players@.last()@ == (PlayerModel {
                    eliminated: true,
                    ..old(self).players@[k]@
                }),
            r is Ok && !has_id(old(self).players@, player_id) ==> exists|k: int|
                first_with_id(old(self).unused_players@, player_id, k)
                    && final(self).eliminated_players@.last()@ == (PlayerModel {
                    eliminated: true,
                    ..old(self).unused_players@[k]@
                }),
            r is Ok ==> *final(self) == (Tournament {
                players: final(self).players,
                unused_players: final(self).unused_players,
                eliminated_players: final(self).eliminated_players,
                ..*old(self)
            }),
    {
        if self.state != TournamentState::GroupPlay && self.state
            != TournamentState::FinalSelection {
            return Err(TournamentError::InvalidState);
        }
        let mut p = match find_player(&self.players, player_id) {
            Some(k) => self.players[k].duplicate(),
            None => match find_player(&self.unused_players, player_id) {
                Some(k) => self.unused_players[k].duplicate(),
                None => {
                    return Err(TournamentError::PlayerNotFound(player_id));
                },
            },
        };
        p.eliminate();
        self.players = without_id(&self.players, player_id);
        self.unused_players = without_id(&self.unused_players, player_id);
        let ghost before = self.eliminated_players@;
        self.eliminated_players.push(p);
        proof {
            assert(self.eliminated_players@.drop_last() =~= before);
        }
        Ok(())
    }

    /// Starts over in the setup phase with the same maximum and mode, and a
    /// roster made of the names of every active, sitting-out and eliminated
    /// player, added in that order. Allowed in group play and final selection.
    pub fn restart_tournament(&mut self) -> (r: Result<(), TournamentError>)
        ensures
            !in_play(old(self).state) ==> r == Err::<(), TournamentError>(
                TournamentError::InvalidState,
            ) && *final(self) == *old(self),
            in_play(old(self).state) ==> r is Ok,
            r is Ok ==> is_fresh(*final(self), old(self).max_losses, old(self).mode),
            r is Ok ==> names_of(final(self).players@) == roster_names(
                names_of(old(self).players@) + names_of(old(self).unused_players@) + names_of(
                    old(self).eliminated_players@,
                ),
            ),
            r is Ok ==> forall|i: int|
                0 <= i < final(self).players@.len() ==> fresh_player(
                    #[trigger] final(self).players@[i]@,
                    final(self).players@[i].name@,
                ),
            r is Ok ==> names_distinct(final(self).players@),
    {
        if self.state != TournamentState::GroupPlay && self.state
            != TournamentState::FinalSelection {
            return Err(TournamentError::InvalidState);
        }
        let ghost all = names_of(self.players@) + names_of(self.unused_players@) + names_of(
            self.eliminated_players@,
        );
        let mut names: Vec<String> = Vec::new();
        collect_names(&mut names, &self.players);
        collect_names(&mut names, &self.unused_players);
        collect_names(&mut names, &self.eliminated_players);
        assert(str_views(names@) =~= all);
        let max_losses = self.max_losses;
        let mode = self.mode;
        *self = Tournament::new(max_losses, mode);
        let mut i: usize = 0;
        while i < names.len()
            invariant
                i <= names.len(),
                str_views(names@) == all,
                is_fresh(*self, max_losses, mode),
                names_of(self.players@) == roster_names(all.subrange(0, i as int)),
                forall|j: int|
                    0 <= j < self.players@.len() ==> fresh_player(
                        #[trigger] self.players@[j]@,
                        self.players@[j].name@,
                    ),
                names_distinct(self.players@),
            decreases names.len() - i,
        {
            let ghost before = self.players@;
            proof {
                assert(all.subrange(0, i + 1).drop_last() =~= all.subrange(0, i as int));
                assert(all.subrange(0, i + 1).last() == names@[i as int]@);
            }
            let _ = self.add_player(names[i].as_str());
            proof {
                let t = trimmed(names@[i as int]@);
                let prev = roster_names(all.subrange(0, i as int));
                if has_name(before, t) {
                    let k = choose|k: int| 0 <= k < before.len() && same_name(before[k].name@, t);
                    assert(prev[k] == before[k].name@);
                }
                if exists|j: int| 0 <= j < prev.len() && same_name(prev[j], t) {
                    let j = choose|j: int| 0 <= j < prev.len() && same_name(prev[j], t);
                    assert(same_name(before[j].name@, t));
                }
                if self.players@.len() > before.len() {
                    assert(self.players@ =~= before.push(self.players@.last()));
                    assert(names_of(self.players@) =~= prev.push(t));
                }
            }
            i = i + 1;
        }
        proof {
            assert(all.subrange(0, all.len() as int) =~= all);
        }
        Ok(())
    }

    /// The first active player with id `id`, for changing it in place.
    pub fn get_player_mut(&mut self, id: PlayerId) -> (r: Option<&mut Player>)
        ensures
            match r {
                Some(p) => exists|k: int|
                    first_with_id(old(self).players@, id, k) && *p == old(self).players@[k]
                        && final(self).players@ == old(self).players@.update(k, *final(p))
                        && *final(self) == (Tournament {
                        players: final(self).players,
                        ..*old(self)
                    }),
                None => !has_id(old(self).players@, id) && *final(self) == *old(self),
            },
    {
        match find_player(&self.players, id) {
            Some(k) => Some(&mut self.players[k]),
            None => None,
        }
    }

    /// The first active player with id `id` or, failing that, the first such
    /// player sitting out, for changing it in place.
    pub fn get_player_mut_any(&mut self, id: PlayerId) -> (r: Option<&mut Player>)
        ensures
            match r {
                Some(p) => if has_id(old(self).players@, id) {
                    exists|k: int|
                        first_with_id(old(self).players@, id, k) && *p == old(self).players@[k]
                            && final(self).players@ == old(self).players@.update(k, *final(p))
                            && *final(self) == (Tournament {
                            players: final(self).players,
                            ..*old(self)
                        })
                } else {
                    exists|k: int|
                        first_with_id(old(self).unused_players@, id, k) && *p == old(
                            self,
                        ).unused_players@[k] && final(self).unused_players@ == old(
                            self,
                        ).unused_players@.update(k, *final(p)) && *final(self) == (Tournament {
                            unused_players: final(self).unused_players,
                            ..*old(self)
                        })
                },
                None => !has_id(old(self).players@, id) && !has_id(old(self).unused_players@, id)
                    && *final(self) == *old(self),
            },
    {
        match find_player(&self.players, id) {
            Some(k) => Some(&mut self.players[k]),
            None => match find_player(&self.unused_players, id) {
                Some(k) => Some(&mut self.unused_players[k]),
                None => None,
            },
        }
    }
}

} // verus!
