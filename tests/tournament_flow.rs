use dart_tournament_web::{
    add_players_back_from_last_eliminated, GameMatch, Player, generate_group_play_matches,
    generate_semi_final_matches, process_finals_results, process_group_play_results,
    process_semi_final_results, set_finals_match_winner, start_semi_finals, start_tournament,
    PlayerId, RoundType, Team, Tournament, TournamentError, TournamentMode, TournamentState,
};

fn with_named(n: usize, max_losses: u32, mode: TournamentMode) -> Tournament {
    let mut t = Tournament::new(max_losses, mode);
    for i in 0..n {
        t.add_player(&format!("Player {i}")).unwrap();
    }
    t
}

fn winners(t: &Tournament, team: Team) -> Vec<PlayerId> {
    let m = &t.matches[0];
    match team {
        Team::One => m.team_1.clone(),
        Team::Two => m.team_2.clone(),
    }
}

#[test]
fn ten_players_first_round_team_one_wins_all() {
    let mut t = with_named(10, 2, TournamentMode::TwoVTwo);
    start_tournament(&mut t).unwrap();
    assert_eq!(t.state, TournamentState::GroupPlay);
    generate_group_play_matches(&mut t).unwrap();
    assert_eq!(t.unused_players.len(), 2);
    assert_eq!(t.matches.len(), 2);
    let ids: Vec<u128> = t.matches.iter().map(|m| m.id).collect();
    for id in ids {
        t.match_results.insert(id, Team::One);
    }
    let mut winners_ids = Vec::new();
    let mut losers_ids = Vec::new();
    for m in &t.matches {
        winners_ids.extend(m.team_1.iter().copied());
        losers_ids.extend(m.team_2.iter().copied());
    }
    process_group_play_results(&mut t).unwrap();
    assert_eq!(t.players.len(), 10);
    assert_eq!(t.eliminated_players.len(), 0);
    assert_eq!(t.state, TournamentState::GroupPlay);
    for p in &t.players {
        if winners_ids.contains(&p.id) {
            assert_eq!((p.wins, p.losses), (1, 0));
        } else if losers_ids.contains(&p.id) {
            assert_eq!((p.wins, p.losses), (0, 1));
        } else {
            assert_eq!((p.wins, p.losses), (0, 0));
            assert_eq!(p.times_sat_out, 1);
            assert_eq!(p.internal_times_sat_out, 1);
        }
    }
    assert!(t.matches.is_empty());
    assert!(t.unused_players.is_empty());
    assert!(t.match_results.is_empty());
}

#[test]
fn four_players_cannot_start_two_v_two() {
    let mut t = with_named(4, 2, TournamentMode::TwoVTwo);
    assert_eq!(
        start_tournament(&mut t),
        Err(TournamentError::NotEnoughPlayersToStart { required: 8 })
    );
    assert_eq!(t.state, TournamentState::Setup);
}

#[test]
fn one_v_one_thresholds_are_four() {
    let mut t = with_named(3, 2, TournamentMode::OneVOne);
    assert_eq!(
        start_tournament(&mut t),
        Err(TournamentError::NotEnoughPlayersToStart { required: 4 })
    );
    let mut t = with_named(5, 2, TournamentMode::OneVOne);
    start_tournament(&mut t).unwrap();
    assert_eq!(t.state, TournamentState::GroupPlay);
    generate_group_play_matches(&mut t).unwrap();
    assert_eq!(t.unused_players.len(), 1);
    assert_eq!(t.matches.len(), 2);
    for m in &t.matches {
        assert_eq!(m.team_1.len(), 1);
        assert_eq!(m.team_2.len(), 1);
    }
}

#[test]
fn eight_players_run_the_whole_bracket() {
    let mut t = with_named(8, 2, TournamentMode::TwoVTwo);
    start_tournament(&mut t).unwrap();
    assert_eq!(t.state, TournamentState::FinalSelection);
    start_semi_finals(&mut t).unwrap();
    assert_eq!(t.state, TournamentState::SemiFinals);
    generate_semi_final_matches(&mut t).unwrap();
    assert_eq!(t.matches.len(), 2);
    let mut seen: Vec<u128> = Vec::new();
    for m in &t.matches {
        assert_eq!(m.team_1.len(), 2);
        assert_eq!(m.team_2.len(), 2);
        assert_eq!(m.round, RoundType::SemiFinals);
        seen.extend(m.team_1.iter().chain(m.team_2.iter()).copied());
    }
    seen.sort();
    seen.dedup();
    assert_eq!(seen.len(), 8);
    let first = t.matches[0].id;
    let second = t.matches[1].id;
    let mut advancing = t.matches[0].team_1.clone();
    advancing.extend(t.matches[1].team_2.iter().copied());
    set_finals_match_winner(&mut t, first, Team::One).unwrap();
    set_finals_match_winner(&mut t, second, Team::Two).unwrap();
    process_semi_final_results(&mut t).unwrap();
    assert_eq!(t.state, TournamentState::Finals);
    assert_eq!(t.matches.len(), 1);
    assert_eq!(t.players.len(), 4);
    assert_eq!(t.bracket_semi_final_players.as_ref().unwrap().len(), 8);
    assert_eq!(t.bracket_semi_final_matches.as_ref().unwrap().len(), 2);
    let fm = &t.matches[0];
    assert_eq!(fm.round, RoundType::Finals);
    assert_eq!(fm.team_1.len(), 2);
    assert_eq!(fm.team_2.len(), 2);
    assert_eq!(fm.team_1, advancing[0..2].to_vec());
    assert_eq!(fm.team_2, advancing[2..4].to_vec());
    let champions = winners(&t, Team::Two);
    let final_id = t.matches[0].id;
    set_finals_match_winner(&mut t, final_id, Team::Two).unwrap();
    process_finals_results(&mut t).unwrap();
    assert_eq!(t.state, TournamentState::Completed);
    assert_eq!(t.bracket_finals_result, Some(Team::Two));
    assert!(t.bracket_finals_match.is_some());
    assert!(t.matches.is_empty());
    for p in &t.players {
        if champions.contains(&p.id) {
            assert_eq!(p.wins, 2);
            assert_eq!(p.losses, 0);
        } else {
            assert_eq!(p.wins, 1);
            assert_eq!(p.losses, 1);
        }
    }
}

#[test]
fn last_recorded_final_winner_counts() {
    let mut t = with_named(8, 2, TournamentMode::TwoVTwo);
    start_tournament(&mut t).unwrap();
    start_semi_finals(&mut t).unwrap();
    generate_semi_final_matches(&mut t).unwrap();
    let first = t.matches[0].id;
    let second = t.matches[1].id;
    set_finals_match_winner(&mut t, first, Team::One).unwrap();
    set_finals_match_winner(&mut t, first, Team::Two).unwrap();
    assert_eq!(t.final_match_results.get(&first), Some(&Team::Two));
    assert_eq!(t.final_match_results.len(), 1);
    set_finals_match_winner(&mut t, second, Team::One).unwrap();
    let expected_winners = t.matches[0].team_2.clone();
    process_semi_final_results(&mut t).unwrap();
    for id in &expected_winners {
        assert!(t.players.iter().any(|p| p.id == *id));
    }
    assert_eq!(
        set_finals_match_winner(&mut t, 12345, Team::One),
        Err(TournamentError::InvalidState)
    );
}

#[test]
fn submit_requires_every_result() {
    let mut t = with_named(9, 3, TournamentMode::TwoVTwo);
    start_tournament(&mut t).unwrap();
    generate_group_play_matches(&mut t).unwrap();
    assert_eq!(t.matches.len(), 2);
    let first = t.matches[0].id;
    t.match_results.insert(first, Team::Two);
    assert_eq!(
        process_group_play_results(&mut t),
        Err(TournamentError::IncompleteResults)
    );
    assert_eq!(t.matches.len(), 2);
}

#[test]
fn elimination_moves_players_and_keeps_totals() {
    let mut t = with_named(9, 1, TournamentMode::TwoVTwo);
    start_tournament(&mut t).unwrap();
    generate_group_play_matches(&mut t).unwrap();
    assert_eq!(t.unused_players.len(), 1);
    let before = t.players.len() + t.eliminated_players.len();
    let ids: Vec<u128> = t.matches.iter().map(|m| m.id).collect();
    for id in ids {
        t.match_results.insert(id, Team::One);
    }
    process_group_play_results(&mut t).unwrap();
    assert_eq!(t.players.len() + t.eliminated_players.len(), before);
    assert_eq!(t.players.len(), 5);
    assert_eq!(t.eliminated_players.len(), 4);
    assert_eq!(t.last_eliminated_players.len(), 4);
    assert!(t.eliminated_players.iter().all(|p| p.eliminated && p.losses == 1));
    assert_eq!(t.state, TournamentState::FinalSelection);

    // Three more are needed to reach eight.
    let back: Vec<u128> = t.last_eliminated_players.iter().take(2).map(|p| p.id).collect();
    assert_eq!(
        add_players_back_from_last_eliminated(&mut t, &back),
        Err(TournamentError::WrongNumberOfPlayers { needed: 3, selected: 2 })
    );
    let stranger: Vec<u128> = vec![back[0], back[1], 7];
    assert_eq!(
        add_players_back_from_last_eliminated(&mut t, &stranger),
        Err(TournamentError::PlayerNotInLastEliminated(7))
    );
    let back: Vec<u128> = t.last_eliminated_players.iter().take(3).map(|p| p.id).collect();
    add_players_back_from_last_eliminated(&mut t, &back).unwrap();
    assert_eq!(t.players.len(), 8);
    assert_eq!(t.state, TournamentState::SemiFinals);
    assert_eq!(t.eliminated_players.len(), 1);
    assert_eq!(t.last_eliminated_players.len(), 1);
    assert!(!back.contains(&t.last_eliminated_players[0].id));
    assert_eq!(t.last_eliminated_players[0].id, t.eliminated_players[0].id);
    for id in &back {
        let p = t.players.iter().find(|p| p.id == *id).unwrap();
        assert!(!p.eliminated);
        assert_eq!(p.losses, 1);
    }
    assert_eq!(start_semi_finals(&mut t), Err(TournamentError::InvalidState));
}

#[test]
fn sit_outs_rotate_to_players_who_sat_out_least() {
    let mut t = with_named(9, 10, TournamentMode::TwoVTwo);
    start_tournament(&mut t).unwrap();
    for p in t.players.iter_mut().skip(1) {
        p.internal_times_sat_out = 1;
    }
    let fresh = t.players[0].id;
    generate_group_play_matches(&mut t).unwrap();
    assert_eq!(t.unused_players.len(), 1);
    assert_eq!(t.unused_players[0].id, fresh);
    assert_eq!(t.players[0].times_sat_out, 1);
    assert_eq!(t.players[0].internal_times_sat_out, 1);
    let mut all: Vec<u128> = t.unused_players.iter().map(|p| p.id).collect();
    for m in &t.matches {
        all.extend(m.team_1.iter().chain(m.team_2.iter()).copied());
    }
    all.sort();
    let mut roster: Vec<u128> = t.players.iter().map(|p| p.id).collect();
    roster.sort();
    assert_eq!(all, roster);
}

#[test]
fn flagged_players_do_not_play() {
    let mut t = with_named(9, 3, TournamentMode::TwoVTwo);
    start_tournament(&mut t).unwrap();
    t.players[0].eliminated = true;
    let out = t.players[0].id;
    generate_group_play_matches(&mut t).unwrap();
    assert!(t.unused_players.is_empty());
    assert_eq!(t.matches.len(), 2);
    for m in &t.matches {
        assert!(!m.team_1.contains(&out) && !m.team_2.contains(&out));
    }
}

#[test]
fn generate_only_in_group_play() {
    let mut t = with_named(10, 2, TournamentMode::TwoVTwo);
    assert_eq!(generate_group_play_matches(&mut t), Err(TournamentError::InvalidState));
    assert_eq!(process_group_play_results(&mut t), Err(TournamentError::InvalidState));
    assert_eq!(generate_semi_final_matches(&mut t), Err(TournamentError::InvalidState));
    assert_eq!(process_semi_final_results(&mut t), Err(TournamentError::InvalidState));
    assert_eq!(process_finals_results(&mut t), Err(TournamentError::InvalidState));
    assert_eq!(start_semi_finals(&mut t), Err(TournamentError::InvalidState));
    assert_eq!(
        add_players_back_from_last_eliminated(&mut t, &[]),
        Err(TournamentError::InvalidState)
    );
}

#[test]
fn group_winner_is_recorded_for_known_matches_only() {
    let mut t = with_named(8, 2, TournamentMode::TwoVTwo);
    t.add_player("Extra").unwrap();
    start_tournament(&mut t).unwrap();
    generate_group_play_matches(&mut t).unwrap();
    let first = t.matches[0].id;
    dart_tournament_web::set_match_winner(&mut t, first, Team::One).unwrap();
    dart_tournament_web::set_match_winner(&mut t, first, Team::Two).unwrap();
    assert_eq!(t.match_results.get(&first), Some(&Team::Two));
    assert_eq!(t.match_results.len(), 1);
    assert_eq!(
        dart_tournament_web::set_match_winner(&mut t, 42, Team::One),
        Err(TournamentError::InvalidState)
    );
}

fn roster_of_eight(state: TournamentState, max_losses: u32) -> (Tournament, Vec<PlayerId>) {
    let players: Vec<Player> = (1..=8).map(|i| Player::new(format!("Seat {i}"))).collect();
    let ids: Vec<PlayerId> = players.iter().map(|p| p.id).collect();
    let mut t = Tournament::with_players(players, max_losses, TournamentMode::TwoVTwo);
    t.state = state;
    (t, ids)
}

#[test]
fn eliminated_are_listed_match_by_match() {
    let (mut t, id) = roster_of_eight(TournamentState::GroupPlay, 1);
    t.matches = vec![
        GameMatch::new(vec![id[2], id[3]], vec![id[6], id[7]], RoundType::GroupPlay),
        GameMatch::new(vec![id[4], id[5]], vec![id[0], id[1]], RoundType::GroupPlay),
    ];
    let match_ids: Vec<u128> = t.matches.iter().map(|m| m.id).collect();
    for m in match_ids {
        t.match_results.insert(m, Team::One);
    }
    process_group_play_results(&mut t).unwrap();
    let expected = vec![id[6], id[7], id[0], id[1]];
    let listed: Vec<PlayerId> = t.last_eliminated_players.iter().map(|p| p.id).collect();
    assert_eq!(listed, expected);
    let recorded: Vec<PlayerId> = t.eliminated_players.iter().map(|p| p.id).collect();
    assert_eq!(recorded, expected);
    let kept: Vec<PlayerId> = t.players.iter().map(|p| p.id).collect();
    assert_eq!(kept, vec![id[2], id[3], id[4], id[5]]);
    assert_eq!(t.state, TournamentState::FinalSelection);
}

#[test]
fn final_pairs_first_match_winners_against_second() {
    let (mut t, id) = roster_of_eight(TournamentState::SemiFinals, 2);
    t.matches = vec![
        GameMatch::new(vec![id[4], id[5]], vec![id[6], id[7]], RoundType::SemiFinals),
        GameMatch::new(vec![id[0], id[1]], vec![id[2], id[3]], RoundType::SemiFinals),
    ];
    let match_ids: Vec<u128> = t.matches.iter().map(|m| m.id).collect();
    for m in match_ids {
        set_finals_match_winner(&mut t, m, Team::One).unwrap();
    }
    process_semi_final_results(&mut t).unwrap();
    assert_eq!(t.matches[0].team_1, vec![id[4], id[5]]);
    assert_eq!(t.matches[0].team_2, vec![id[0], id[1]]);
    let roster: Vec<PlayerId> = t.players.iter().map(|p| p.id).collect();
    assert_eq!(roster, vec![id[0], id[1], id[4], id[5]]);
}
