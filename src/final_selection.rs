//! Final selection: bringing the roster to the bracket size.
use crate::player::{models, Player, PlayerId, PlayerModel};
use crate::tournament::{
    bracket_size, find_player, forward_step, has_id, Tournament, TournamentError,
    TournamentState,
};
use vstd::prelude::*;

verus! {

/// `m` with its elimination reversed; every counter is kept.
pub open spec fn reinstated(m: PlayerModel) -> PlayerModel {
    PlayerModel { eliminated: false, ..m }
}

/// `f` is `o` after the players of `o`'s last eliminated with an id in
/// `ids` rejoined the roster.
pub open spec fn added_back(o: Tournament, f: Tournament, ids: Seq<PlayerId>) -> bool {
    let picked = models(o.last_eliminated_players@).filter(|m: PlayerModel| ids.contains(m.id));
    &&& models(f.players@) == models(o.players@) + picked.map_values(
        |m: PlayerModel| reinstated(m),
    )
    &&& models(f.last_eliminated_players@) == models(o.last_eliminated_players@).filter(
        |m: PlayerModel| !ids.contains(m.id),
    )
    &&& models(f.eliminated_players@) == models(o.eliminated_players@).filter(
        |m: PlayerModel| !ids.contains(m.id),
    )
    &&& f.state == if f.players@.len() == bracket_size(o.mode) {
        TournamentState::SemiFinals
    } else {
        o.state
    }
    &&& f == (Tournament {
        players: f.players,
        last_eliminated_players: f.last_eliminated_players,
        eliminated_players: f.eliminated_players,
        state: f.state,
        ..o
    })
}

/// Whether `v` holds `x`.
pub fn holds(v: &[PlayerId], x: PlayerId) -> (r: bool)
    ensures
        r == v@.contains(x),
{
    let mut q: usize = 0;
    while q < v.len()
        invariant
            q <= v@.len(),
            forall|y: int| 0 <= y < q ==> v@[y] != x,
        decreases v@.len() - q,
    {
        if v[q] == x {
            return true;
        }
        q = q + 1;
    }
    false
}

/// Copies of the players of `s` whose id is (`picked`) or is not in `ids`;
/// picked ones have their elimination reversed.
fn split_by_ids(s: &Vec<Player>, ids: &[PlayerId], picked: bool) -> (r: Vec<Player>)
    ensures
        picked ==> models(r@) == models(s@).filter(|m: PlayerModel| ids@.contains(m.id)).map_values(
            |m: PlayerModel| reinstated(m),
        ),
        !picked ==> models(r@) == models(s@).filter(|m: PlayerModel| !ids@.contains(m.id)),
{
    let ghost pred = |m: PlayerModel| ids@.contains(m.id) == picked;
    let mut r: Vec<Player> = Vec::new();
    let mut i: usize = 0;
    while i < s.len()
        invariant
            i <= s@.len(),
            pred == (|m: PlayerModel| ids@.contains(m.id) == picked),
            picked ==> models(r@) == models(s@.subrange(0, i as int)).filter(pred).map_values(
                |m: PlayerModel| reinstated(m),
            ),
            !picked ==> models(r@) == models(s@.subrange(0, i as int)).filter(pred),
        decreases s@.len() - i,
    {
        let ghost prefix = models(s@.subrange(0, i as int));
        let ghost x = s@[i as int]@;
        proof {
            assert(models(s@.subrange(0, i + 1)) =~= prefix.push(x));
            prefix.lemma_filter_push(x, pred);
        }
        if holds(ids, s[i].id) == picked {
            let mut p = s[i].duplicate();
            if picked {
                p.eliminated = false;
            }
            let ghost before = r@;
            r.push(p);
            proof {
                assert(models(r@) =~= models(before).push(p@));
                if picked {
                    assert(prefix.filter(pred).push(x).map_values(|m: PlayerModel| reinstated(m))
                        =~= prefix.filter(pred).map_values(|m: PlayerModel| reinstated(m)).push(
                        reinstated(x),
                    ));
                }
            }
        } else {
            assert(!pred(x));
        }
        i = i + 1;
    }
    proof {
        assert(s@.subrange(0, s@.len() as int) =~= s@);
        let f = |m: PlayerModel| ids@.contains(m.id);
        let g = |m: PlayerModel| !ids@.contains(m.id);
        if picked {
            assert(pred =~= f);
        } else {
            assert(pred =~= g);
        }
    }
    r
}

/// Brings back the players with ids `player_ids` from the last eliminated,
/// with their elimination reversed and their counters kept. Exactly as many
/// as the roster lacks of the bracket size must be named, each from the last
/// eliminated. They leave the last eliminated list; a full roster moves the
/// tournament to the semi-finals.
pub fn add_players_back_from_last_eliminated(tournament: &mut Tournament, player_ids: &[PlayerId]) -> (r:
    Result<(), TournamentError>)
    ensures
        old(tournament).state != TournamentState::FinalSelection ==> r == Err::<
            (),
            TournamentError,
        >(TournamentError::InvalidState),
        old(tournament).state == TournamentState::FinalSelection && old(tournament).players@.len()
            >= bracket_size(old(tournament).mode) ==> r == Err::<(), TournamentError>(
            TournamentError::InvalidState,
        ),
        old(tournament).state == TournamentState::FinalSelection && old(tournament).players@.len()
            < bracket_size(old(tournament).mode) && player_ids@.len() != bracket_size(
            old(tournament).mode,
        ) - old(tournament).players@.len() ==> r == Err::<(), TournamentError>(
            TournamentError::WrongNumberOfPlayers {
                needed: (bracket_size(old(tournament).mode) - old(tournament).players@.len()) as usize,
                selected: player_ids@.len() as usize,
            },
        ),
        old(tournament).state == TournamentState::FinalSelection && old(tournament).players@.len()
            < bracket_size(old(tournament).mode) && player_ids@.len() == bracket_size(
            old(tournament).mode,
        ) - old(tournament).players@.len() ==> {
            ||| (exists|k: int|
                0 <= k < player_ids@.len() && !has_id(
                    old(tournament).last_eliminated_players@,
                    player_ids@[k],
                ) && (forall|x: int|
                    0 <= x < k ==> has_id(
                        old(tournament).last_eliminated_players@,
                        #[trigger] player_ids@[x],
                    )) && r == Err::<(), TournamentError>(
                    TournamentError::PlayerNotInLastEliminated(player_ids@[k]),
                ))
            ||| (forall|k: int|
                0 <= k < player_ids@.len() ==> has_id(
                    old(tournament).last_eliminated_players@,
                    #[trigger] player_ids@[k],
                )) && r is Ok
        },
        r is Err ==> *final(tournament) == *old(tournament),
        r is Ok ==> added_back(*old(tournament), *final(tournament), player_ids@),
        forward_step(old(tournament).state, final(tournament).state),
{
    if tournament.state != TournamentState::FinalSelection {
        return Err(TournamentError::InvalidState);
    }
    let required = tournament.players_required_for_semi();
    let current = tournament.players.len();
    if current >= required {
        return Err(TournamentError::InvalidState);
    }
    let needed = required - current;
    if player_ids.len() != needed {
        return Err(TournamentError::WrongNumberOfPlayers { needed, selected: player_ids.len() });
    }
    let mut k: usize = 0;
    while k < player_ids.len()
        invariant
            *tournament == *old(tournament),
            tournament.state == TournamentState::FinalSelection,
            tournament.players@.len() < bracket_size(tournament.mode),
            player_ids@.len() == bracket_size(tournament.mode) - tournament.players@.len(),
            k <= player_ids@.len(),
            forall|x: int|
                0 <= x < k ==> has_id(tournament.last_eliminated_players@, #[trigger] player_ids@[x]),
        decreases player_ids@.len() - k,
    {
        if find_player(&tournament.last_eliminated_players, player_ids[k]).is_none() {
            return Err(TournamentError::PlayerNotInLastEliminated(player_ids[k]));
        }
        k = k + 1;
    }
    let ghost o = *tournament;
    let mut to_add = split_by_ids(&tournament.last_eliminated_players, player_ids, true);
    let remaining = split_by_ids(&tournament.eliminated_players, player_ids, false);
    let still_out = split_by_ids(&tournament.last_eliminated_players, player_ids, false);
    let ghost roster0 = tournament.players@;
    let ghost added = to_add@;
    tournament.players.append(&mut to_add);
    proof {
        assert(models(tournament.players@) =~= models(roster0) + models(added));
    }
    tournament.last_eliminated_players = still_out;
    tournament.eliminated_players = remaining;
    if tournament.players.len() == required {
        tournament.state = TournamentState::SemiFinals;
    }
    Ok(())
}

/// Moves from final selection to the semi-finals when the roster already
/// has the bracket size.
pub fn start_semi_finals(tournament: &mut Tournament) -> (r: Result<(), TournamentError>)
    ensures
        old(tournament).state == TournamentState::FinalSelection && old(tournament).players@.len()
            == bracket_size(old(tournament).mode) ==> r is Ok && *final(tournament) == (Tournament {
            state: TournamentState::SemiFinals,
            ..*old(tournament)
        }),
        !(old(tournament).state == TournamentState::FinalSelection && old(
            tournament,
        ).players@.len() == bracket_size(old(tournament).mode)) ==> r == Err::<
            (),
            TournamentError,
        >(TournamentError::InvalidState) && *final(tournament) == *old(tournament),
        forward_step(old(tournament).state, final(tournament).state),
{
    if tournament.state != TournamentState::FinalSelection {
        return Err(TournamentError::InvalidState);
    }
    let required = tournament.players_required_for_semi();
    if tournament.players.len() != required {
        return Err(TournamentError::InvalidState);
    }
    tournament.state = TournamentState::SemiFinals;
    Ok(())
}

/// `p` is a player of `last` whose id is in `ids`, with its elimination
/// reversed and every counter kept.
pub open spec fn rejoined_from(last: Seq<Player>, ids: Seq<PlayerId>, p: Player) -> bool {
    exists|j: int| 0 <= j < last.len() && p@ == reinstated(last[j]@) && ids.contains(p.id)
}

/// Adding players back keeps the roster as it was and reverses only the
/// elimination of those who rejoin: each keeps every counter, losses included,
/// of its record among the last eliminated.
pub proof fn lemma_add_back_keeps_losses(o: Tournament, f: Tournament, ids: Seq<PlayerId>)
    requires
        added_back(o, f, ids),
    ensures
        forall|i: int| 0 <= i < o.players@.len() ==> (#[trigger] f.players@[i])@ == o.players@[i]@,
        forall|i: int|
            o.players@.len() <= i < f.players@.len() ==> rejoined_from(
                o.last_eliminated_players@,
                ids,
                #[trigger] f.players@[i],
            ),
{
    let pred = |m: PlayerModel| ids.contains(m.id);
    let picked = models(o.last_eliminated_players@).filter(pred);
    let back = picked.map_values(|m: PlayerModel| reinstated(m));
    assert(models(f.players@) == models(o.players@) + back);
    assert(models(f.players@).len() == f.players@.len());
    assert(back.len() == picked.len());
    assert forall|i: int| 0 <= i < o.players@.len() implies (#[trigger] f.players@[i])@
        == o.players@[i]@ by {
        assert(models(f.players@)[i] == f.players@[i]@);
        assert(models(o.players@)[i] == o.players@[i]@);
    }
    assert forall|i: int| o.players@.len() <= i < f.players@.len() implies rejoined_from(
        o.last_eliminated_players@,
        ids,
        #[trigger] f.players@[i],
    ) by {
        let q = i - o.players@.len();
        assert(models(f.players@)[i] == f.players@[i]@);
        assert(models(f.players@)[i] == back[q]);
        let m = picked[q];
        assert(back[q] == reinstated(m));
        assert(picked.contains(m));
        models(o.last_eliminated_players@).lemma_filter_contains_rev(pred, m);
        models(o.last_eliminated_players@).lemma_filter_pred(pred, q);
        let j = choose|j: int|
            0 <= j < o.last_eliminated_players@.len() && models(o.last_eliminated_players@)[j] == m;
        assert(o.last_eliminated_players@[j]@ == m);
    }
}

/// The ids of the player models `s`.
pub open spec fn model_ids(s: Seq<PlayerModel>) -> Seq<PlayerId> {
    s.map_values(|m: PlayerModel| m.id)
}

proof fn lemma_picked_ids_distinct(l: Seq<PlayerModel>, ids: Seq<PlayerId>)
    requires
        model_ids(l).no_duplicates(),
    ensures
        model_ids(l.filter(|m: PlayerModel| ids.contains(m.id))).no_duplicates(),
    decreases l.len(),
{
    let pred = |m: PlayerModel| ids.contains(m.id);
    if l.len() > 0 {
        let lp = l.drop_last();
        let x = l.last();
        assert forall|a: int, b: int|
            0 <= a < model_ids(lp).len() && 0 <= b < model_ids(lp).len() && a != b implies model_ids(
            lp,
        )[a] != model_ids(lp)[b] by {
            assert(model_ids(l)[a] != model_ids(l)[b]);
        }
        lemma_picked_ids_distinct(lp, ids);
        assert(l =~= lp.push(x));
        lp.lemma_filter_push(x, pred);
        let f = lp.filter(pred);
        if pred(x) {
            assert forall|a: int, b: int|
                0 <= a < f.len() + 1 && 0 <= b < f.len() + 1 && a != b implies model_ids(
                f.push(x),
            )[a] != model_ids(f.push(x))[b] by {
                if a < f.len() && b < f.len() {
                    assert(model_ids(f)[a] != model_ids(f)[b]);
                } else {
                    let c = if a < f.len() {
                        a
                    } else {
                        b
                    };
                    assert(f.contains(f[c]));
                    lp.lemma_filter_contains_rev(pred, f[c]);
                    let j = choose|j: int| 0 <= j < lp.len() && lp[j] == f[c];
                    assert(model_ids(l)[j] != model_ids(l)[l.len() - 1]);
                }
            }
        }
    }
}

/// Naming, once each, as many players of the last eliminated (whose ids are
/// distinct) as the roster lacks fills the roster to the bracket size and
/// starts the semi-finals.
pub proof fn lemma_full_add_back_reaches_semis(o: Tournament, f: Tournament, ids: Seq<PlayerId>)
    requires
        added_back(o, f, ids),
        ids.no_duplicates(),
        crate::player::ids_of(o.last_eliminated_players@).no_duplicates(),
        forall|k: int| 0 <= k < ids.len() ==> has_id(o.last_eliminated_players@, #[trigger] ids[k]),
        o.players@.len() + ids.len() == bracket_size(o.mode),
    ensures
        f.players@.len() == bracket_size(o.mode),
        f.state == TournamentState::SemiFinals,
{
    let pred = |m: PlayerModel| ids.contains(m.id);
    let l = models(o.last_eliminated_players@);
    let picked = l.filter(pred);
    assert(model_ids(l) =~= crate::player::ids_of(o.last_eliminated_players@));
    lemma_picked_ids_distinct(l, ids);
    model_ids(picked).unique_seq_to_set();
    ids.unique_seq_to_set();
    assert(model_ids(picked).to_set() =~= ids.to_set()) by {
        assert forall|x: PlayerId| model_ids(picked).to_set().contains(x) implies ids.to_set().contains(
            x,
        ) by {
            let i = choose|i: int| 0 <= i < model_ids(picked).len() && model_ids(picked)[i] == x;
            l.lemma_filter_pred(pred, i);
        }
        assert forall|x: PlayerId| ids.to_set().contains(x) implies model_ids(
            picked,
        ).to_set().contains(x) by {
            let k = choose|k: int| 0 <= k < ids.len() && ids[k] == x;
            assert(has_id(o.last_eliminated_players@, ids[k]));
            let j = choose|j: int|
                0 <= j < o.last_eliminated_players@.len() && o.last_eliminated_players@[j].id == x;
            assert(l[j].id == x);
            l.lemma_filter_contains(pred, j);
            let i = choose|i: int| 0 <= i < picked.len() && picked[i] == l[j];
            assert(model_ids(picked)[i] == x);
        }
    }
    assert(models(f.players@).len() == f.players@.len());
}

} // verus!
