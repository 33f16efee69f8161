use dart_tournament_web::{
    start_tournament, Player, PlayerStats, Tournament, TournamentError, TournamentMode,
    TournamentState,
};

#[test]
fn names_are_trimmed_and_unique_ignoring_case() {
    let mut t = Tournament::new(3, TournamentMode::TwoVTwo);
    t.add_player("  Alice  ").unwrap();
    assert_eq!(t.players[0].name, "Alice");
    assert_eq!(t.add_player("ALICE"), Err(TournamentError::DuplicatePlayerName));
    assert_eq!(t.add_player(" alice\t"), Err(TournamentError::DuplicatePlayerName));
    assert_eq!(t.add_player("   "), Err(TournamentError::InvalidState));
    assert_eq!(t.add_player(""), Err(TournamentError::InvalidState));
    t.add_player("Alicia").unwrap();
    t.add_player("Ålice").unwrap();
    assert_eq!(t.players.len(), 3);
    let p = &t.players[1];
    assert_eq!((p.wins, p.losses, p.times_sat_out, p.eliminated), (0, 0, 0, false));
}

#[test]
fn new_players_get_distinct_ids() {
    let a = Player::new("A".to_string());
    let b = Player::new("B".to_string());
    assert_ne!(a.id, b.id);
    let t = Tournament::new(3, TournamentMode::TwoVTwo);
    let u = Tournament::new(3, TournamentMode::TwoVTwo);
    assert_ne!(t.id, u.id);
}

#[test]
fn setup_only_operations() {
    let mut t = Tournament::new(3, TournamentMode::TwoVTwo);
    for i in 0..9 {
        t.add_player(&format!("Player {i}")).unwrap();
    }
    let id = t.players[3].id;
    assert_eq!(t.remove_player(12345), Err(TournamentError::PlayerNotFound(12345)));
    t.remove_player(id).unwrap();
    assert_eq!(t.players.len(), 8);
    assert!(t.players.iter().all(|p| p.id != id));
    t.set_max_losses(5).unwrap();
    assert_eq!(t.max_losses, 5);
    t.set_mode(TournamentMode::OneVOne).unwrap();
    assert_eq!(t.players_required_to_start(), 4);
    assert_eq!(t.players_required_for_semi(), 4);
    t.set_mode(TournamentMode::TwoVTwo).unwrap();
    assert_eq!(t.players_required_to_start(), 8);
    t.add_player("Player 9").unwrap();
    start_tournament(&mut t).unwrap();
    assert_eq!(t.state, TournamentState::GroupPlay);
    assert_eq!(start_tournament(&mut t), Err(TournamentError::InvalidState));
    assert_eq!(t.set_max_losses(1), Err(TournamentError::InvalidState));
    assert_eq!(t.set_mode(TournamentMode::OneVOne), Err(TournamentError::InvalidState));
    assert_eq!(t.remove_player(t.players[0].id), Err(TournamentError::InvalidState));
    assert_eq!(t.max_losses, 5);
    t.add_player("Late").unwrap();
    assert_eq!(t.players.len(), 10);
}

#[test]
fn set_losses_flags_only_after_a_round_exists() {
    let mut t = Tournament::new(2, TournamentMode::TwoVTwo);
    for i in 0..9 {
        t.add_player(&format!("Player {i}")).unwrap();
    }
    let id = t.players[0].id;
    assert_eq!(t.set_player_losses(id, 3), Err(TournamentError::InvalidState));
    start_tournament(&mut t).unwrap();
    t.set_player_losses(id, 3).unwrap();
    assert_eq!(t.players[0].losses, 3);
    assert!(!t.players[0].eliminated);
    assert_eq!(t.set_player_losses(99, 1), Err(TournamentError::PlayerNotFound(99)));
    dart_tournament_web::generate_group_play_matches(&mut t).unwrap();
    let idx = t.players.iter().position(|p| p.id == id).unwrap();
    t.set_player_losses(id, 2).unwrap();
    assert_eq!(t.players[idx].losses, 2);
    assert!(t.players[idx].eliminated);
    t.set_player_losses(id, 0).unwrap();
    assert_eq!(t.players[idx].losses, 0);
}

#[test]
fn eliminate_player_moves_to_eliminated() {
    let mut t = Tournament::new(2, TournamentMode::TwoVTwo);
    for i in 0..9 {
        t.add_player(&format!("Player {i}")).unwrap();
    }
    let id = t.players[2].id;
    assert_eq!(t.eliminate_player(id), Err(TournamentError::InvalidState));
    start_tournament(&mut t).unwrap();
    t.eliminate_player(id).unwrap();
    assert_eq!(t.players.len(), 8);
    assert_eq!(t.eliminated_players.len(), 1);
    assert_eq!(t.eliminated_players[0].id, id);
    assert!(t.eliminated_players[0].eliminated);
    assert_eq!(t.eliminate_player(id), Err(TournamentError::PlayerNotFound(id)));
}

#[test]
fn restart_keeps_names_and_settings() {
    let mut t = Tournament::new(4, TournamentMode::TwoVTwo);
    for i in 0..9 {
        t.add_player(&format!("Player {i}")).unwrap();
    }
    assert_eq!(t.restart_tournament(), Err(TournamentError::InvalidState));
    start_tournament(&mut t).unwrap();
    let id = t.players[0].id;
    t.eliminate_player(id).unwrap();
    t.set_player_losses(t.players[0].id, 2).unwrap();
    let old_id = t.id;
    t.restart_tournament().unwrap();
    assert_eq!(t.state, TournamentState::Setup);
    assert_eq!(t.max_losses, 4);
    assert_eq!(t.mode, TournamentMode::TwoVTwo);
    assert_ne!(t.id, old_id);
    assert_eq!(t.players.len(), 9);
    assert!(t.eliminated_players.is_empty());
    assert_eq!(t.players[8].name, "Player 0");
    assert!(t.players.iter().all(|p| p.losses == 0 && !p.eliminated));
}

#[test]
fn player_accessors() {
    let mut t = Tournament::new(2, TournamentMode::TwoVTwo);
    t.add_player("A").unwrap();
    let id = t.players[0].id;
    t.get_player_mut(id).unwrap().add_win();
    assert_eq!(t.players[0].wins, 1);
    assert!(t.get_player_mut(5).is_none());
    t.get_player_mut_any(id).unwrap().add_loss();
    let stats: PlayerStats = t.players[0].stats();
    assert_eq!(stats, PlayerStats { losses: 1, wins: 1, times_sat_out: 0, eliminated_status: false });
    let mut p = t.players[0].duplicate();
    p.record_sat_out();
    p.eliminate();
    assert_eq!(PlayerStats::from_player(&p).times_sat_out, 1);
    assert!(p.eliminated);
}

#[test]
fn server_defaults() {
    assert_eq!(dart_tournament_web::default_max_losses(), 3);
    assert_eq!(dart_tournament_web::default_host(), "0.0.0.0");
    assert_eq!(dart_tournament_web::default_port(), 8080);
}
