//! The final bracket: semi-finals and finals.
use crate::external::shuffle;
use crate::game::{winners_of, GameMatch, MatchId, RoundType, Team};
use crate::group_play::{
    loses_round, losses_kept_from, participants_listed, results_complete, wins_round,
};
use crate::player::{models, Player, PlayerId, PlayerModel};
use crate::tournament::{forward_step, has_id, Tournament, TournamentError, TournamentState};
use std::collections::HashMap;
use vstd::prelude::*;

verus! {

broadcast use vstd::std_specs::hash::group_hash_axioms;

/// A player after a bracket match: one more win or loss, never eliminated
/// for it.
pub open spec fn after_playoff(m: PlayerModel, win: bool, lose: bool) -> PlayerModel {
    PlayerModel {
        wins: if win {
            (m.wins + 1) as u32
        } else {
            m.wins
        },
        losses: if lose {
            (m.losses + 1) as u32
        } else {
            m.losses
        },
        ..m
    }
}

/// The roster `s` after the bracket matches `ms` with winners `res`.
pub open spec fn playoff_roster(s: Seq<Player>, ms: Seq<GameMatch>, res: Map<MatchId, Team>) -> Seq<
    PlayerModel,
> {
    Seq::new(
        s.len(),
        |j: int| after_playoff(s[j]@, wins_round(ms, res, s[j].id), loses_round(ms, res, s[j].id)),
    )
}

/// The counters of the players of `s` who play in `ms` can grow by one.
pub open spec fn playoff_room(s: Seq<Player>, ms: Seq<GameMatch>, res: Map<MatchId, Team>) -> bool {
    forall|j: int|
        0 <= j < s.len() ==> (wins_round(ms, res, #[trigger] s[j].id) ==> s[j].wins < u32::MAX) && (
        loses_round(ms, res, s[j].id) ==> s[j].losses < u32::MAX)
}

/// `a` and `b` are the same match.
pub open spec fn same_match(a: GameMatch, b: GameMatch) -> bool {
    &&& a.id == b.id
    &&& a.team_1@ == b.team_1@
    &&& a.team_2@ == b.team_2@
    &&& a.winner == b.winner
    &&& a.round == b.round
}

/// `ms` and `ns` hold the same matches in the same order.
pub open spec fn same_matches(ms: Seq<GameMatch>, ns: Seq<GameMatch>) -> bool {
    ms.len() == ns.len() && forall|i: int| 0 <= i < ms.len() ==> same_match(#[trigger] ms[i], ns[i])
}

/// `m` is an unplayed match of round `round`, players `a, b` against `c, d`.
pub open spec fn pairing(
    m: GameMatch,
    round: RoundType,
    a: PlayerId,
    b: PlayerId,
    c: PlayerId,
    d: PlayerId,
) -> bool {
    &&& m.team_1@ == seq![a, b]
    &&& m.team_2@ == seq![c, d]
    &&& m.winner is None
    &&& m.round == round
}

/// An unplayed match of round `round`, players `a, b` against `c, d`.
fn two_against_two(a: PlayerId, b: PlayerId, c: PlayerId, d: PlayerId, round: RoundType) -> (r:
    GameMatch)
    ensures
        pairing(r, round, a, b, c, d),
{
    let mut team_1: Vec<PlayerId> = Vec::new();
    team_1.push(a);
    team_1.push(b);
    let mut team_2: Vec<PlayerId> = Vec::new();
    team_2.push(c);
    team_2.push(d);
    let r = GameMatch::new(team_1, team_2, round);
    assert(r.team_1@ =~= seq![a, b]);
    assert(r.team_2@ =~= seq![c, d]);
    r
}

/// Draws the semi-finals: the eight players are shuffled, then the first
/// four and the last four each form a match, two against two.
pub fn generate_semi_final_matches(tournament: &mut Tournament) -> (r: Result<(), TournamentError>)
    ensures
        old(tournament).state != TournamentState::SemiFinals || old(tournament).players@.len()
            != 8 ==> r == Err::<(), TournamentError>(TournamentError::InvalidState),
        old(tournament).state == TournamentState::SemiFinals && old(tournament).players@.len()
            == 8 ==> r is Ok,
        r is Err ==> *final(tournament) == *old(tournament),
        r is Ok ==> ({
            let p = final(tournament).players@;
            let ms = final(tournament).matches@;
            &&& p.len() == 8
            &&& p.to_multiset() == old(tournament).players@.to_multiset()
            &&& ms.len() == 2
            &&& pairing(ms[0], RoundType::SemiFinals, p[0].id, p[1].id, p[2].id, p[3].id)
            &&& pairing(ms[1], RoundType::SemiFinals, p[4].id, p[5].id, p[6].id, p[7].id)
            &&& final(tournament).final_match_results@ == Map::<MatchId, Team>::empty()
            &&& *final(tournament) == (Tournament {
                players: final(tournament).players,
                matches: final(tournament).matches,
                final_match_results: final(tournament).final_match_results,
                ..*old(tournament)
            })
        }),
        forward_step(old(tournament).state, final(tournament).state),
{
    if tournament.state != TournamentState::SemiFinals {
        return Err(TournamentError::InvalidState);
    }
    if tournament.players.len() != 8 {
        return Err(TournamentError::InvalidState);
    }
    shuffle(&mut tournament.players);
    let p = &tournament.players;
    let mut matches: Vec<GameMatch> = Vec::new();
    matches.push(two_against_two(p[0].id, p[1].id, p[2].id, p[3].id, RoundType::SemiFinals));
    matches.push(two_against_two(p[4].id, p[5].id, p[6].id, p[7].id, RoundType::SemiFinals));
    tournament.matches = matches;
    tournament.final_match_results.clear();
    Ok(())
}

/// `f` is `o` with `team` recorded as the winner of match `match_id`.
pub open spec fn winner_recorded(o: Tournament, f: Tournament, match_id: MatchId, team: Team) -> bool {
    f == (Tournament {
        final_match_results: f.final_match_results,
        ..o
    }) && f.final_match_results@ == o.final_match_results@.insert(match_id, team)
}

/// Records (or replaces) `team` as the winner of the current match `match_id`.
pub fn set_finals_match_winner(tournament: &mut Tournament, match_id: MatchId, team: Team) -> (r:
    Result<(), TournamentError>)
    ensures
        (exists|i: int|
            0 <= i < old(tournament).matches@.len() && old(tournament).matches@[i].id == match_id)
            ==> r is Ok && winner_recorded(*old(tournament), *final(tournament), match_id, team),
        !(exists|i: int|
            0 <= i < old(tournament).matches@.len() && old(tournament).matches@[i].id == match_id)
            ==> r == Err::<(), TournamentError>(TournamentError::InvalidState) && *final(tournament)
            == *old(tournament),
{
    let mut i: usize = 0;
    while i < tournament.matches.len()
        invariant
            *tournament == *old(tournament),
            i <= tournament.matches@.len(),
            forall|x: int| 0 <= x < i ==> tournament.matches@[x].id != match_id,
        decreases tournament.matches@.len() - i,
    {
        if tournament.matches[i].id == match_id {
            assert(old(tournament).matches@[i as int].id == match_id);
            tournament.final_match_results.insert(match_id, team);
            return Ok(());
        }
        i = i + 1;
    }
    Err(TournamentError::InvalidState)
}

/// Recording a winner twice for one match keeps only the second: the
/// earlier choice leaves no trace.
pub proof fn lemma_last_winner_counts(
    t0: Tournament,
    t1: Tournament,
    t2: Tournament,
    match_id: MatchId,
    first: Team,
    second: Team,
)
    requires
        winner_recorded(t0, t1, match_id, first),
        winner_recorded(t1, t2, match_id, second),
    ensures
        winner_recorded(t0, t2, match_id, second),
        t2.final_match_results@[match_id] == second,
{
    assert(t2.final_match_results@ =~= t0.final_match_results@.insert(match_id, second));
}

/// Copies of the matches of `ms`.
fn copy_matches(ms: &Vec<GameMatch>) -> (r: Vec<GameMatch>)
    ensures
        same_matches(r@, ms@),
{
    let mut r: Vec<GameMatch> = Vec::new();
    let mut i: usize = 0;
    while i < ms.len()
        invariant
            i <= ms@.len(),
            r@.len() == i,
            forall|x: int| 0 <= x < i ==> same_match(#[trigger] r@[x], ms@[x]),
        decreases ms@.len() - i,
    {
        r.push(ms[i].duplicate());
        i = i + 1;
    }
    r
}

/// Copies of the players of `s`.
fn copy_players(s: &Vec<Player>) -> (r: Vec<Player>)
    ensures
        models(r@) == models(s@),
{
    let mut r: Vec<Player> = Vec::new();
    let mut i: usize = 0;
    while i < s.len()
        invariant
            i <= s@.len(),
            r@.len() == i,
            forall|x: int| 0 <= x < i ==> (#[trigger] r@[x])@ == s@[x]@,
        decreases s@.len() - i,
    {
        r.push(s[i].duplicate());
        i = i + 1;
    }
    assert(models(r@) =~= models(s@));
    r
}

/// The roster `s` with the wins and losses of the bracket matches `ms` applied.
fn apply_playoff_results(s: &Vec<Player>, ms: &Vec<GameMatch>, res: &HashMap<MatchId, Team>) -> (r:
    Vec<Player>)
    requires
        results_complete(ms@, res@),
        playoff_room(s@, ms@, res@),
    ensures
        models(r@) == playoff_roster(s@, ms@, res@),
{
    let mut r: Vec<Player> = Vec::new();
    let mut j: usize = 0;
    while j < s.len()
        invariant
            j <= s@.len(),
            results_complete(ms@, res@),
            playoff_room(s@, ms@, res@),
            r@.len() == j,
            forall|x: int|
                0 <= x < j ==> (#[trigger] r@[x])@ == playoff_roster(s@, ms@, res@)[x],
        decreases s@.len() - j,
    {
        let mut p = s[j].duplicate();
        if crate::group_play::on_side(ms, res, p.id, false) {
            p.add_loss();
        }
        if crate::group_play::on_side(ms, res, p.id, true) {
            p.add_win();
        }
        r.push(p);
        j = j + 1;
    }
    assert(models(r@) =~= playoff_roster(s@, ms@, res@));
    r
}

/// Copies of the players of `s` whose id is in `ids`, in roster order.
fn players_with_ids(s: &Vec<Player>, ids: &Vec<PlayerId>) -> (r: Vec<Player>)
    ensures
        models(r@) == models(s@).filter(|m: PlayerModel| ids@.contains(m.id)),
{
    let ghost pred = |m: PlayerModel| ids@.contains(m.id);
    let mut r: Vec<Player> = Vec::new();
    let mut i: usize = 0;
    while i < s.len()
        invariant
            i <= s@.len(),
            pred == (|m: PlayerModel| ids@.contains(m.id)),
            models(r@) == models(s@.subrange(0, i as int)).filter(pred),
        decreases s@.len() - i,
    {
        let ghost prefix = models(s@.subrange(0, i as int));
        let ghost x = s@[i as int]@;
        proof {
            assert(models(s@.subrange(0, i + 1)) =~= prefix.push(x));
            prefix.lemma_filter_push(x, pred);
        }
        if crate::final_selection::holds(ids.as_slice(), s[i].id) {
            let p = s[i].duplicate();
            let ghost before = r@;
            r.push(p);
            proof {
                assert(models(r@) =~= models(before).push(p@));
            }
        } else {
            assert(!pred(x));
        }
        i = i + 1;
    }
    proof {
        assert(s@.subrange(0, s@.len() as int) =~= s@);
    }
    r
}

/// The winning ids of the two semi-finals `ms`, first match first.
pub open spec fn semi_winners(ms: Seq<GameMatch>, res: Map<MatchId, Team>) -> Seq<PlayerId> {
    winners_of(ms[0], res[ms[0].id]) + winners_of(ms[1], res[ms[1].id])
}

/// The players who advance from the semi-finals of `t`, after the results.
pub open spec fn advancing(t: Tournament) -> Seq<PlayerModel> {
    let w = semi_winners(t.matches@, t.final_match_results@);
    playoff_roster(t.players@, t.matches@, t.final_match_results@).filter(
        |m: PlayerModel| w.contains(m.id),
    )
}

/// `f` is `o` after its semi-final results were processed.
pub open spec fn semis_processed(o: Tournament, f: Tournament) -> bool {
    let a = advancing(o);
    let w = semi_winners(o.matches@, o.final_match_results@);
    &&& models(f.players@) == a
    &&& f.bracket_semi_final_players matches Some(s) && models(s@) == playoff_roster(
        o.players@,
        o.matches@,
        o.final_match_results@,
    )
    &&& f.bracket_semi_final_matches matches Some(ms) && same_matches(ms@, o.matches@)
    &&& f.bracket_semi_final_results matches Some(rs) && rs@ == o.final_match_results@
    &&& f.matches@.len() == 1
    &&& pairing(f.matches@[0], RoundType::Finals, w[0], w[1], w[2], w[3])
    &&& f.final_match_results@ == Map::<MatchId, Team>::empty()
    &&& f.state == TournamentState::Finals
    &&& f == (Tournament {
        players: f.players,
        bracket_semi_final_players: f.bracket_semi_final_players,
        bracket_semi_final_matches: f.bracket_semi_final_matches,
        bracket_semi_final_results: f.bracket_semi_final_results,
        matches: f.matches,
        final_match_results: f.final_match_results,
        state: f.state,
        ..o
    })
}

/// Processes the two semi-finals: every participant gets a win or a loss,
/// the bracket records the semi-final roster, matches and results, and the
/// roster keeps the winners only. The final pairs the first two winning ids
/// (those of the first match) against the next two.
pub fn process_semi_final_results(tournament: &mut Tournament) -> (r: Result<(), TournamentError>)
    requires
        playoff_room(
            old(tournament).players@,
            old(tournament).matches@,
            old(tournament).final_match_results@,
        ),
    ensures
        old(tournament).state != TournamentState::SemiFinals || old(tournament).matches@.len()
            != 2 ==> r == Err::<(), TournamentError>(TournamentError::InvalidState),
        old(tournament).state == TournamentState::SemiFinals && old(tournament).matches@.len() == 2
            && !results_complete(old(tournament).matches@, old(tournament).final_match_results@)
            ==> r == Err::<(), TournamentError>(TournamentError::IncompleteResults),
        old(tournament).state == TournamentState::SemiFinals && old(tournament).matches@.len() == 2
            && results_complete(old(tournament).matches@, old(tournament).final_match_results@)
            && !participants_listed(old(tournament).matches@, old(tournament).players@) ==> exists|
            x: PlayerId,
        | r == Err::<(), TournamentError>(TournamentError::PlayerNotFound(x)) && !has_id(
            old(tournament).players@,
            x,
        ),
        old(tournament).state == TournamentState::SemiFinals && old(tournament).matches@.len() == 2
            && results_complete(old(tournament).matches@, old(tournament).final_match_results@)
            && participants_listed(old(tournament).matches@, old(tournament).players@) ==> if semi_winners(
            old(tournament).matches@,
            old(tournament).final_match_results@,
        ).len() < 4 {
            r == Err::<(), TournamentError>(TournamentError::InvalidState)
        } else {
            r is Ok
        },
        r is Err ==> *final(tournament) == *old(tournament),
        r is Ok ==> semis_processed(*old(tournament), *final(tournament)),
        forward_step(old(tournament).state, final(tournament).state),
{
    if tournament.state != TournamentState::SemiFinals {
        return Err(TournamentError::InvalidState);
    }
    if tournament.matches.len() != 2 {
        return Err(TournamentError::InvalidState);
    }
    if !crate::group_play::all_results_in(&tournament.matches, &tournament.final_match_results) {
        return Err(TournamentError::IncompleteResults);
    }
    match crate::group_play::unlisted_player(&tournament.matches, &tournament.players) {
        Some(x) => {
            return Err(TournamentError::PlayerNotFound(x));
        },
        None => {},
    }
    let ghost o = *tournament;
    let updated = apply_playoff_results(
        &tournament.players,
        &tournament.matches,
        &tournament.final_match_results,
    );
    let mut winner_ids: Vec<PlayerId> = Vec::new();
    let mut i: usize = 0;
    while i < 2
        invariant
            *tournament == o,
            o.matches@.len() == 2,
            results_complete(o.matches@, o.final_match_results@),
            i <= 2,
            i == 0 ==> winner_ids@ == Seq::<PlayerId>::empty(),
            i == 1 ==> winner_ids@ == winners_of(o.matches@[0], o.final_match_results@[o.matches@[0].id]),
            i == 2 ==> winner_ids@ == semi_winners(o.matches@, o.final_match_results@),
        decreases 2 - i,
    {
        let m = &tournament.matches[i];
        let w = match tournament.final_match_results.get(&m.id) {
            Some(w) => *w,
            None => {
                return Err(TournamentError::IncompleteResults);
            },
        };
        let ghost before = winner_ids@;
        let mut side = match w {
            Team::One => m.team_1.clone(),
            Team::Two => m.team_2.clone(),
        };
        winner_ids.append(&mut side);
        proof {
            assert(o.final_match_results@.contains_key(o.matches@[i as int].id));
            if i == 0 {
                assert(winner_ids@ =~= winners_of(o.matches@[0], o.final_match_results@[o.matches@[0].id]));
            } else {
                assert(winner_ids@ =~= semi_winners(o.matches@, o.final_match_results@));
            }
        }
        i = i + 1;
    }
    if winner_ids.len() < 4 {
        return Err(TournamentError::InvalidState);
    }
    let adv = players_with_ids(&updated, &winner_ids);
    let final_match = two_against_two(
        winner_ids[0],
        winner_ids[1],
        winner_ids[2],
        winner_ids[3],
        RoundType::Finals,
    );
    tournament.bracket_semi_final_players = Some(updated);
    tournament.bracket_semi_final_matches = Some(copy_matches(&tournament.matches));
    tournament.bracket_semi_final_results = Some(tournament.final_match_results.clone());
    tournament.players = adv;
    let mut matches: Vec<GameMatch> = Vec::new();
    matches.push(final_match);
    tournament.matches = matches;
    tournament.final_match_results.clear();
    tournament.state = TournamentState::Finals;
    Ok(())
}

/// `f` is `o` after its final result was processed.
pub open spec fn finals_processed(o: Tournament, f: Tournament) -> bool {
    let m = o.matches@[0];
    &&& models(f.players@) == playoff_roster(o.players@, o.matches@, o.final_match_results@)
    &&& f.bracket_finals_match matches Some(b) && same_match(b, m)
    &&& f.bracket_finals_result == Some(o.final_match_results@[m.id])
    &&& f.matches@.len() == 0
    &&& f.final_match_results@ == Map::<MatchId, Team>::empty()
    &&& f.state == TournamentState::Completed
    &&& f == (Tournament {
        players: f.players,
        bracket_finals_match: f.bracket_finals_match,
        bracket_finals_result: f.bracket_finals_result,
        matches: f.matches,
        final_match_results: f.final_match_results,
        state: f.state,
        ..o
    })
}

/// Processes the final: every participant gets a win or a loss, the bracket
/// records the match and its result, and the tournament is completed; the
/// winning side are the champions.
pub fn process_finals_results(tournament: &mut Tournament) -> (r: Result<(), TournamentError>)
    requires
        playoff_room(
            old(tournament).players@,
            old(tournament).matches@,
            old(tournament).final_match_results@,
        ),
    ensures
        old(tournament).state != TournamentState::Finals || old(tournament).matches@.len() != 1
            ==> r == Err::<(), TournamentError>(TournamentError::InvalidState),
        old(tournament).state == TournamentState::Finals && old(tournament).matches@.len() == 1
            && !results_complete(old(tournament).matches@, old(tournament).final_match_results@)
            ==> r == Err::<(), TournamentError>(TournamentError::IncompleteResults),
        old(tournament).state == TournamentState::Finals && old(tournament).matches@.len() == 1
            && results_complete(old(tournament).matches@, old(tournament).final_match_results@)
            && !participants_listed(old(tournament).matches@, old(tournament).players@) ==> exists|
            x: PlayerId,
        | r == Err::<(), TournamentError>(TournamentError::PlayerNotFound(x)) && !has_id(
            old(tournament).players@,
            x,
        ),
        old(tournament).state == TournamentState::Finals && old(tournament).matches@.len() == 1
            && results_complete(old(tournament).matches@, old(tournament).final_match_results@)
            && participants_listed(old(tournament).matches@, old(tournament).players@) ==> r is Ok,
        r is Err ==> *final(tournament) == *old(tournament),
        r is Ok ==> finals_processed(*old(tournament), *final(tournament)),
        forward_step(old(tournament).state, final(tournament).state),
{
    if tournament.state != TournamentState::Finals {
        return Err(TournamentError::InvalidState);
    }
    if tournament.matches.len() != 1 {
        return Err(TournamentError::InvalidState);
    }
    let w = match tournament.final_match_results.get(&tournament.matches[0].id) {
        Some(w) => *w,
        None => {
            return Err(TournamentError::IncompleteResults);
        },
    };
    match crate::group_play::unlisted_player(&tournament.matches, &tournament.players) {
        Some(x) => {
            return Err(TournamentError::PlayerNotFound(x));
        },
        None => {},
    }
    let updated = apply_playoff_results(
        &tournament.players,
        &tournament.matches,
        &tournament.final_match_results,
    );
    tournament.players = updated;
    tournament.bracket_finals_match = Some(tournament.matches[0].duplicate());
    tournament.bracket_finals_result = Some(w);
    tournament.matches = Vec::new();
    tournament.final_match_results.clear();
    tournament.state = TournamentState::Completed;
    Ok(())
}

/// When the winner of the final is recorded twice before submission, the
/// completed bracket shows the second choice.
pub proof fn lemma_final_uses_last_winner(
    t0: Tournament,
    t1: Tournament,
    t2: Tournament,
    t3: Tournament,
    first: Team,
    second: Team,
)
    requires
        t0.matches@.len() == 1,
        winner_recorded(t0, t1, t0.matches@[0].id, first),
        winner_recorded(t1, t2, t0.matches@[0].id, second),
        finals_processed(t2, t3),
    ensures
        t3.bracket_finals_result == Some(second),
{
    lemma_last_winner_counts(t0, t1, t2, t0.matches@[0].id, first, second);
}

/// Bracket rounds never lower a loss count: after the semi-finals each
/// advancing player, and after the final each player, has at least the
/// losses of the roster player with the same id before.
pub proof fn lemma_bracket_keeps_losses(o: Tournament, f: Tournament)
    requires
        semis_processed(o, f) || finals_processed(o, f),
        playoff_room(o.players@, o.matches@, o.final_match_results@),
    ensures
        forall|i: int|
            0 <= i < f.players@.len() ==> losses_kept_from(o.players@, #[trigger] f.players@[i]),
{
    let upd = playoff_roster(o.players@, o.matches@, o.final_match_results@);
    let w = semi_winners(o.matches@, o.final_match_results@);
    let pred = |m: PlayerModel| w.contains(m.id);
    assert forall|i: int| 0 <= i < f.players@.len() implies losses_kept_from(
        o.players@,
        #[trigger] f.players@[i],
    ) by {
        let m = models(f.players@)[i];
        assert(m == f.players@[i]@);
        if semis_processed(o, f) {
            assert(upd.filter(pred).contains(m));
            upd.lemma_filter_contains_rev(pred, m);
            let j = choose|j: int| 0 <= j < upd.len() && upd[j] == m;
            assert(f.players@[i].id == o.players@[j].id);
        } else {
            assert(upd[i] == m);
            assert(f.players@[i].id == o.players@[i].id);
        }
    }
}

} // verus!
