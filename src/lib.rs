//! Multi-round elimination dart tournament: players, matches, and the
//! tournament state machine with its round generation and result processing.

pub mod config;
mod external;
pub mod final_selection;
pub mod finals;
pub mod game;
pub mod group_play;
pub mod player;
pub mod setup;
pub mod tournament;

pub use game::{GameMatch, MatchId, RoundType, Team};
pub use player::{Player, PlayerId, PlayerModel, PlayerStats};
pub use tournament::{Tournament, TournamentError, TournamentId, TournamentMode, TournamentState};
pub use setup::start_tournament;
pub use group_play::{generate_group_play_matches, process_group_play_results, set_match_winner};
pub use final_selection::{add_players_back_from_last_eliminated, start_semi_finals};
pub use finals::{generate_semi_final_matches, process_finals_results, process_semi_final_results, set_finals_match_winner};
pub use config::{default_host, default_max_losses, default_port};
