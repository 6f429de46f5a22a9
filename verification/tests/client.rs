use moba_lobby::champions::ChampionId;
use moba_lobby::client::{react, ClientReaction, LobbyMode};
use moba_lobby::ids::{LobbyId, PlayerId, Team};
use moba_lobby::protocol::{
    ClientToLobby, LobbyInfo, LobbySettings, LobbyShortInfo, LobbyState, LobbyToClient, PlayerInfo,
};

fn short(id: u128) -> LobbyShortInfo {
    LobbyShortInfo { id: LobbyId(id), name: "l".to_string(), player_count: 1, max_player_count: 10 }
}

fn info(teams: Vec<Vec<u128>>) -> LobbyInfo {
    LobbyInfo {
        short: short(1),
        settings: LobbySettings { name: "l".to_string(), locked: false, team_count: 2, max_players_per_team: 5 },
        teams: teams.into_iter().map(|t| t.into_iter().map(PlayerId).collect()).collect(),
        leader: PlayerId(1),
        lobby_state: LobbyState::InLobby,
        selected_champs: Vec::new(),
    }
}

fn team_ids(i: &LobbyInfo) -> Vec<Vec<u128>> {
    i.teams.iter().map(|t| t.iter().map(|p| p.0).collect()).collect()
}

#[test]
fn a_lobby_list_is_joined_shown_or_ignored() {
    let r = react(LobbyToClient::LobbyList(vec![short(7), short(8)]), true, false);
    assert!(matches!(r, ClientReaction::JoinLobby(LobbyId(7))));
    let r = react(LobbyToClient::LobbyList(vec![short(7)]), false, true);
    assert!(matches!(r, ClientReaction::ShowLobbyList(v) if v.len() == 1));
    let r = react(LobbyToClient::LobbyList(vec![]), true, true);
    assert!(matches!(r, ClientReaction::ShowLobbyList(v) if v.is_empty()));
    let r = react(LobbyToClient::LobbyList(vec![short(7)]), false, false);
    assert!(matches!(r, ClientReaction::Ignore));
}

#[test]
fn messages_become_events() {
    assert!(matches!(react(LobbyToClient::YouJoinedLobby(LobbyId(3)), false, false), ClientReaction::WeJoinedLobby(LobbyId(3))));
    assert!(matches!(react(LobbyToClient::YouLeftLobby, false, false), ClientReaction::WeLeftLobby));
    assert!(matches!(react(LobbyToClient::PlayerJoinedLobby(PlayerId(4)), false, false), ClientReaction::PlayerLeftLobby(PlayerId(4))));
    assert!(matches!(react(LobbyToClient::PlayerLeftLobby(PlayerId(4)), false, false), ClientReaction::PlayerLeftLobby(PlayerId(4))));
    let r = react(LobbyToClient::PlayerInfo(PlayerInfo { id: PlayerId(5), name: "e".to_string() }), false, false);
    assert!(matches!(r, ClientReaction::PlayerInfoReceived(i) if i.name == "e"));
    let r = react(LobbyToClient::PlayerChangedTeam(PlayerId(5), Team(1)), false, false);
    assert!(matches!(r, ClientReaction::PlayerChangedTeam(PlayerId(5), Team(1))));
    let r = react(LobbyToClient::PlayerChangedPositions(PlayerId(5), PlayerId(6)), false, false);
    assert!(matches!(r, ClientReaction::PlayerChangedPositions(PlayerId(5), PlayerId(6))));
    assert!(matches!(react(LobbyToClient::GoToChampSelect, false, false), ClientReaction::GoToChampSelect));
    assert!(matches!(react(LobbyToClient::ReturnFromChampSelect, false, false), ClientReaction::ReturnFromChampSelect));
    let r = react(LobbyToClient::PlayerSelectedChamp(PlayerId(5), ChampionId("c".to_string())), false, false);
    assert!(matches!(r, ClientReaction::PlayerSelectedChamp(PlayerId(5), c) if c.0 == "c"));
    let r = react(LobbyToClient::PlayerLockedSelection(PlayerId(5)), false, false);
    assert!(matches!(r, ClientReaction::PlayerLockedSelection(PlayerId(5))));
    let r = react(LobbyToClient::GameStarted(vec![9, 9]), false, false);
    assert!(matches!(r, ClientReaction::ConnectToGame(t) if t == vec![9, 9]));
    let r = react(LobbyToClient::LobbyInfo(info(vec![vec![1]])), false, false);
    assert!(matches!(r, ClientReaction::LobbyInfoReceived(i) if i.leader == PlayerId(1)));
}

#[test]
fn the_copy_of_the_lobby_follows_team_changes() {
    let mut i = info(vec![vec![1, 2], vec![3]]);
    i.on_player_changed_team(PlayerId(2), Team(1));
    assert_eq!(team_ids(&i), vec![vec![1], vec![3, 2]]);
    i.on_player_changed_team(PlayerId(9), Team(7));
    assert_eq!(team_ids(&i), vec![vec![1], vec![3, 2]]);
    i.on_players_traded_places(PlayerId(1), PlayerId(3));
    assert_eq!(team_ids(&i), vec![vec![3], vec![1, 2]]);
    i.on_players_traded_places(PlayerId(1), PlayerId(2));
    assert_eq!(team_ids(&i), vec![vec![3], vec![2, 1]]);
    i.on_players_traded_places(PlayerId(1), PlayerId(9));
    assert_eq!(team_ids(&i), vec![vec![3], vec![2, 1]]);
}

#[test]
fn lobby_modes() {
    assert_eq!(LobbyMode::Manual.name(), "none");
    assert_eq!(LobbyMode::AutoCreate.name(), "auto-create");
    assert_eq!(LobbyMode::AutoJoinFirst.name(), "auto-join-first");
    let mut m = LobbyMode::AutoCreate;
    assert!(matches!(m.on_lobby_list(), ClientToLobby::CreateAndJoinLobby));
    assert_eq!(m, LobbyMode::Manual);
    assert!(matches!(m.on_lobby_list(), ClientToLobby::FetchLobbyList));
    let mut m = LobbyMode::AutoJoinFirst;
    assert!(matches!(m.on_lobby_list(), ClientToLobby::FetchLobbyList));
    assert_eq!(m, LobbyMode::AutoJoinFirst);
}
