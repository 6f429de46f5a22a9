//! The messages between clients, the lobby server and game servers, and the
//! lobby data they carry.

use vstd::prelude::*;
use crate::ids::{LobbyId, PlayerId, Team};
use crate::champions::ChampionId;

verus! {

/// What the lobby server sends to a client.
#[derive(Debug)]
pub enum LobbyToClient {
    Handshake { id: PlayerId },
    LobbyList(Vec<LobbyShortInfo>),
    LobbyInfo(LobbyInfo),
    YouJoinedLobby(LobbyId),
    YouLeftLobby,
    PlayerJoinedLobby(PlayerId),
    PlayerLeftLobby(PlayerId),
    PlayerInfo(PlayerInfo),
    PlayerChangedTeam(PlayerId, Team),
    PlayerChangedPositions(PlayerId, PlayerId),
    GoToChampSelect,
    ReturnFromChampSelect,
    PlayerSelectedChamp(PlayerId, ChampionId),
    PlayerLockedSelection(PlayerId),
    GameStarted(Vec<u8>),
}

/// What a client sends to the lobby server.
#[derive(Debug)]
pub enum ClientToLobby {
    Handshake { name: String },
    FetchLobbyList,
    CreateAndJoinLobby,
    JoinLobby(LobbyId),
    LeaveCurrentLobby,
    GetLobbyInfo(LobbyId),
    GetPlayerInfo(PlayerId),
    SetLobbySettings(LobbySettings),
    ChangePlayerTeam(PlayerId, Team),
    SwitchPlayerPositions(PlayerId, PlayerId),
    KickPlayer(PlayerId),
    GoToChampSelect,
    SelectChamp(ChampionId),
    LockSelection,
    Disconnect,
}

/// A lobby as the lobby list shows it.
#[derive(Debug)]
pub struct LobbyShortInfo {
    pub id: LobbyId,
    pub name: String,
    pub player_count: usize,
    pub max_player_count: usize,
}

/// Everything a client is told of a lobby.
#[derive(Debug)]
pub struct LobbyInfo {
    pub short: LobbyShortInfo,
    pub settings: LobbySettings,
    pub teams: Vec<Vec<PlayerId>>,
    pub leader: PlayerId,
    pub lobby_state: LobbyState,
    /// The champion selection of each player; no player occurs twice.
    pub selected_champs: Vec<(PlayerId, ChampionSelection)>,
}

/// Where a lobby is in its life.
#[derive(Debug, Clone, Copy, PartialEq, Eq, Hash, Structural)]
pub enum LobbyState {
    InLobby,
    InChampSelect,
    InGame,
}

/// A player's champion choice, and whether it is final.
#[derive(Debug)]
pub struct ChampionSelection {
    pub id: ChampionId,
    pub locked: bool,
}

impl Clone for ChampionSelection {
    fn clone(&self) -> (r: Self)
        ensures
            r == *self,
    {
        ChampionSelection { id: self.id.clone(), locked: self.locked }
    }
}

/// The settings of a lobby, which its leader chooses.
#[derive(Debug)]
pub struct LobbySettings {
    pub name: String,
    pub locked: bool,
    pub team_count: usize,
    pub max_players_per_team: usize,
}

impl Clone for LobbySettings {
    fn clone(&self) -> (r: Self)
        ensures
            r == *self,
    {
        LobbySettings {
            name: self.name.clone(),
            locked: self.locked,
            team_count: self.team_count,
            max_players_per_team: self.max_players_per_team,
        }
    }
}

/// The product `a * b` as a machine word computes it: modulo `usize::MAX + 1`.
pub open spec fn word_product(a: usize, b: usize) -> int {
    (a * b) % (usize::MAX as int + 1)
}

impl LobbySettings {
    /// How many players the lobby holds: teams times players per team
    /// (a machine-word product, which wraps around as a release build does).
    pub fn max_players(&self) -> (r: usize)
        ensures
            r == word_product(self.team_count, self.max_players_per_team),
    {
        self.team_count.wrapping_mul(self.max_players_per_team)
    }
}

/// A player as other players see it.
#[derive(Debug)]
pub struct PlayerInfo {
    pub id: PlayerId,
    pub name: String,
}

/// What the lobby server sends to a game server it has started.
#[derive(Debug)]
pub enum LobbyToServer {
    Handshake { settings: LobbySettings, players: Vec<PlayerGameInfo> },
}

/// What a game server answers the lobby server: a connect token per player.
#[derive(Debug)]
pub enum ServerToLobby {
    PlayerTokens { tokens: Vec<(PlayerId, Vec<u8>)> },
}

/// A player of a game that is about to start.
#[derive(Debug)]
pub struct PlayerGameInfo {
    pub id: PlayerId,
    pub name: String,
    pub team: Team,
    pub champ: ChampionId,
    pub is_ipv4: bool,
    pub is_local: bool,
}

} // verus!
