//! Leaving the setup phase.
use crate::tournament::{
    bracket_size, forward_step, Tournament, TournamentError, TournamentState,
};
use vstd::prelude::*;

verus! {

/// Starts the tournament. With more players than the bracket holds it moves
/// to group play; with exactly that many it goes straight to final selection.
pub fn start_tournament(tournament: &mut Tournament) -> (r: Result<(), TournamentError>)
    ensures
        old(tournament).state != TournamentState::Setup ==> r == Err::<(), TournamentError>(
            TournamentError::InvalidState,
        ),
        old(tournament).state == TournamentState::Setup && old(tournament).players@.len()
            < bracket_size(old(tournament).mode) ==> r == Err::<(), TournamentError>(
            TournamentError::NotEnoughPlayersToStart {
                required: bracket_size(old(tournament).mode) as usize,
            },
        ),
        old(tournament).state == TournamentState::Setup && old(tournament).players@.len()
            > bracket_size(old(tournament).mode) ==> r is Ok && *final(tournament) == (Tournament {
            state: TournamentState::GroupPlay,
            ..*old(tournament)
        }),
        old(tournament).state == TournamentState::Setup && old(tournament).players@.len()
            == bracket_size(old(tournament).mode) ==> r is Ok && *final(tournament) == (
        Tournament { state: TournamentState::FinalSelection, ..*old(tournament) }),
        r is Err ==> *final(tournament) == *old(tournament),
        forward_step(old(tournament).state, final(tournament).state),
{
    if tournament.state != TournamentState::Setup {
        return Err(TournamentError::InvalidState);
    }
    let required = tournament.players_required_to_start();
    if tournament.players.len() < required {
        return Err(TournamentError::NotEnoughPlayersToStart { required });
    }
    tournament.state = if tournament.players.len() > required {
        TournamentState::GroupPlay
    } else {
        TournamentState::FinalSelection
    };
    Ok(())
}

} // verus!
