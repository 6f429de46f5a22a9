//! Lobby, team and game-session logic of a small MOBA: the lobby server's
//! state machine, the client's mirror of a lobby, champion and map
//! definitions, and the pure decision procedures of the game client.

pub mod ids;
pub mod teams;
pub mod champions;
pub mod protocol;
pub mod lobby;
pub mod names;
pub mod options;
pub mod server;
pub mod invariants;
pub mod membership;
pub mod text_edit;
pub mod scripts;
pub mod client;
pub mod effects;
pub mod states;
pub mod game_server;
pub mod address;
pub mod vision;
