use moba_lobby::champions::ChampionId;
use moba_lobby::ids::{LobbyId, PlayerId, Team};
use moba_lobby::options::{LaunchMode, Options, PortRange};
use moba_lobby::protocol::{ClientToLobby, LobbySettings, LobbyState, LobbyToClient};
use moba_lobby::server::{Effect, InternalMessage, Outcome, Player, ServerError, State};

fn options() -> Options {
    Options {
        certificate: None,
        privkey: None,
        internal_ports: PortRange { first: 20000, last: 20001 },
        external_ports: PortRange { first: 54000, last: 54000 },
        public_ipv4_address: 0x7f000001,
        local_ipv4_address: 0x7f000001,
        ipv6_address: 1,
        launch_mode: LaunchMode::Executable,
    }
}

fn player(id: u128, name: &str) -> Player {
    Player { id: PlayerId(id), name: name.to_string(), current_lobby: None, is_ipv4: true, is_local: true }
}

fn connect(state: &mut State, id: u128, name: &str) {
    let out = state.handle(InternalMessage::NewPlayer(player(id, name)));
    assert_eq!(out.result, Ok(()));
    assert!(out.effects.is_empty());
}

fn say(state: &mut State, id: u128, message: ClientToLobby) -> Outcome {
    state.handle(InternalMessage::PlayerMessage { player: PlayerId(id), message })
}

fn create_lobby(state: &mut State, leader: u128, lobby: u128) {
    let out = state.on_create_lobby_with(PlayerId(leader), LobbyId(lobby));
    assert_eq!(out.result, Ok(()));
}

fn sent_to(out: &Outcome, to: u128) -> Vec<&LobbyToClient> {
    out.effects
        .iter()
        .filter_map(|e| match e {
            Effect::Send(p, m) if *p == PlayerId(to) => Some(m),
            _ => None,
        })
        .collect()
}

fn broadcasts(out: &Outcome) -> Vec<(&Vec<PlayerId>, &LobbyToClient)> {
    out.effects
        .iter()
        .filter_map(|e| match e {
            Effect::Broadcast(to, m) => Some((to, m)),
            _ => None,
        })
        .collect()
}

fn teams(state: &State) -> Vec<Vec<PlayerId>> {
    state.lobbies[0].teams.clone()
}

#[test]
fn a_taken_name_gets_the_least_free_number() {
    let mut state = State::new(options());
    connect(&mut state, 1, "alice");
    connect(&mut state, 2, "alice");
    connect(&mut state, 3, "alice");
    connect(&mut state, 4, "bob");
    let names: Vec<&str> = state.players.iter().map(|p| p.name.as_str()).collect();
    assert_eq!(names, vec!["alice", "alice 2", "alice 3", "bob"]);
    assert_eq!(state.used_player_names, vec!["alice", "alice 2", "alice 3", "bob"]);
}

#[test]
fn a_freed_name_is_used_again() {
    let mut state = State::new(options());
    connect(&mut state, 1, "alice");
    connect(&mut state, 2, "alice");
    let out = state.handle(InternalMessage::PlayerDisconnected(PlayerId(1)));
    assert_eq!(out.result, Ok(()));
    assert_eq!(state.used_player_names, vec!["alice 2"]);
    connect(&mut state, 3, "alice");
    assert_eq!(state.players[1].name, "alice");
}

#[test]
fn creating_a_lobby_makes_the_player_its_leader() {
    let mut state = State::new(options());
    connect(&mut state, 1, "alice");
    let out = say(&mut state, 1, ClientToLobby::CreateAndJoinLobby);
    assert_eq!(out.result, Ok(()));
    assert_eq!(state.lobbies.len(), 1);
    let lobby = &state.lobbies[0];
    assert_eq!(lobby.settings.name, "alice's lobby");
    assert_eq!(lobby.settings.team_count, 2);
    assert_eq!(lobby.settings.max_players_per_team, 5);
    assert!(!lobby.settings.locked);
    assert_eq!(lobby.teams, vec![vec![PlayerId(1)], vec![]]);
    assert_eq!(lobby.leader, PlayerId(1));
    assert_eq!(lobby.lobby_state, LobbyState::InLobby);
    assert_eq!(state.players[0].current_lobby, Some(lobby.id));
    let sent = sent_to(&out, 1);
    assert_eq!(sent.len(), 1);
    assert!(matches!(sent[0], LobbyToClient::YouJoinedLobby(id) if *id == lobby.id));
}

#[test]
fn a_player_in_a_lobby_cannot_create_another() {
    let mut state = State::new(options());
    connect(&mut state, 1, "alice");
    create_lobby(&mut state, 1, 100);
    let out = say(&mut state, 1, ClientToLobby::CreateAndJoinLobby);
    assert_eq!(out.result, Err(ServerError::PlayerAlreadyInLobby));
    assert_eq!(state.lobbies.len(), 1);
}

#[test]
fn an_unknown_player_cannot_create_a_lobby() {
    let mut state = State::new(options());
    let out = say(&mut state, 9, ClientToLobby::CreateAndJoinLobby);
    assert_eq!(out.result, Err(ServerError::InvalidPlayer));
}

#[test]
fn joining_fills_the_smallest_team_first() {
    let mut state = State::new(options());
    for id in 1..=4 {
        connect(&mut state, id, &format!("p{id}"));
    }
    create_lobby(&mut state, 1, 100);
    for id in 2..=4 {
        let out = say(&mut state, id, ClientToLobby::JoinLobby(LobbyId(100)));
        assert_eq!(out.result, Ok(()));
    }
    assert_eq!(teams(&state), vec![vec![PlayerId(1), PlayerId(3)], vec![PlayerId(2), PlayerId(4)]]);
    assert_eq!(state.players[3].current_lobby, Some(LobbyId(100)));
}

#[test]
fn joining_tells_the_player_and_the_others() {
    let mut state = State::new(options());
    connect(&mut state, 1, "a");
    connect(&mut state, 2, "b");
    create_lobby(&mut state, 1, 100);
    let out = say(&mut state, 2, ClientToLobby::JoinLobby(LobbyId(100)));
    let sent = sent_to(&out, 2);
    assert!(matches!(sent[0], LobbyToClient::YouJoinedLobby(LobbyId(100))));
    let b = broadcasts(&out);
    assert_eq!(b.len(), 1);
    assert_eq!(b[0].0, &vec![PlayerId(1)]);
    assert!(matches!(b[0].1, LobbyToClient::PlayerJoinedLobby(PlayerId(2))));
}

#[test]
fn joining_errors() {
    let mut state = State::new(options());
    for id in 1..=4 {
        connect(&mut state, id, &format!("p{id}"));
    }
    create_lobby(&mut state, 1, 100);
    assert_eq!(say(&mut state, 2, ClientToLobby::JoinLobby(LobbyId(7))).result, Err(ServerError::LobbyDoesntExist));
    assert_eq!(say(&mut state, 1, ClientToLobby::JoinLobby(LobbyId(100))).result, Err(ServerError::PlayerAlreadyInLobby));
    assert_eq!(say(&mut state, 9, ClientToLobby::JoinLobby(LobbyId(100))).result, Err(ServerError::InvalidPlayer));
    state.lobbies[0].settings.locked = true;
    assert_eq!(say(&mut state, 2, ClientToLobby::JoinLobby(LobbyId(100))).result, Err(ServerError::LobbyLocked));
    state.lobbies[0].settings.locked = false;
    state.lobbies[0].lobby_state = LobbyState::InChampSelect;
    assert_eq!(say(&mut state, 2, ClientToLobby::JoinLobby(LobbyId(100))).result, Err(ServerError::LobbyNotOpen));
    state.lobbies[0].lobby_state = LobbyState::InLobby;
    state.lobbies[0].settings.team_count = 1;
    state.lobbies[0].settings.max_players_per_team = 1;
    assert_eq!(say(&mut state, 2, ClientToLobby::JoinLobby(LobbyId(100))).result, Err(ServerError::LobbyFull));
    assert_eq!(teams(&state), vec![vec![PlayerId(1)], vec![]]);
}

#[test]
fn leaving_passes_the_lead_on() {
    let mut state = State::new(options());
    for id in 1..=3 {
        connect(&mut state, id, &format!("p{id}"));
    }
    create_lobby(&mut state, 1, 100);
    say(&mut state, 2, ClientToLobby::JoinLobby(LobbyId(100)));
    say(&mut state, 3, ClientToLobby::JoinLobby(LobbyId(100)));
    let out = say(&mut state, 1, ClientToLobby::LeaveCurrentLobby);
    assert_eq!(out.result, Ok(()));
    assert_eq!(state.lobbies[0].leader, PlayerId(3));
    assert_eq!(teams(&state), vec![vec![PlayerId(3)], vec![PlayerId(2)]]);
    assert_eq!(state.players[0].current_lobby, None);
    let b = broadcasts(&out);
    assert_eq!(b.len(), 1);
    assert!(matches!(b[0].1, LobbyToClient::PlayerLeftLobby(PlayerId(1))));
    assert!(matches!(sent_to(&out, 1)[0], LobbyToClient::YouLeftLobby));
}

#[test]
fn the_last_player_leaving_closes_the_lobby() {
    let mut state = State::new(options());
    connect(&mut state, 1, "a");
    create_lobby(&mut state, 1, 100);
    let out = say(&mut state, 1, ClientToLobby::LeaveCurrentLobby);
    assert_eq!(out.result, Ok(()));
    assert!(state.lobbies.is_empty());
    assert!(broadcasts(&out).is_empty());
    assert!(matches!(sent_to(&out, 1)[0], LobbyToClient::YouLeftLobby));
}

#[test]
fn leaving_without_a_lobby_is_no_error() {
    let mut state = State::new(options());
    connect(&mut state, 1, "a");
    let out = say(&mut state, 1, ClientToLobby::LeaveCurrentLobby);
    assert_eq!(out.result, Ok(()));
    assert!(out.effects.is_empty());
}

#[test]
fn leaving_champion_select_returns_the_lobby() {
    let mut state = State::new(options());
    connect(&mut state, 1, "a");
    connect(&mut state, 2, "b");
    create_lobby(&mut state, 1, 100);
    say(&mut state, 2, ClientToLobby::JoinLobby(LobbyId(100)));
    assert_eq!(say(&mut state, 1, ClientToLobby::GoToChampSelect).result, Ok(()));
    say(&mut state, 1, ClientToLobby::SelectChamp(ChampionId("champ1".to_string())));
    let out = say(&mut state, 2, ClientToLobby::LeaveCurrentLobby);
    assert_eq!(state.lobbies[0].lobby_state, LobbyState::InLobby);
    assert!(state.lobbies[0].selected_champs.is_empty());
    let b = broadcasts(&out);
    assert_eq!(b.len(), 2);
    assert!(matches!(b[0].1, LobbyToClient::ReturnFromChampSelect));
    assert!(matches!(b[1].1, LobbyToClient::PlayerLeftLobby(PlayerId(2))));
}

#[test]
fn settings_are_clamped_and_teams_readjusted() {
    let mut state = State::new(options());
    for id in 1..=4 {
        connect(&mut state, id, &format!("p{id}"));
    }
    create_lobby(&mut state, 1, 100);
    for id in 2..=4 {
        say(&mut state, id, ClientToLobby::JoinLobby(LobbyId(100)));
    }
    let settings = LobbySettings { name: "x".to_string(), locked: true, team_count: 0, max_players_per_team: 0 };
    let out = say(&mut state, 1, ClientToLobby::SetLobbySettings(settings));
    assert_eq!(out.result, Ok(()));
    let lobby = &state.lobbies[0];
    assert_eq!(lobby.settings.team_count, 1);
    assert_eq!(lobby.settings.max_players_per_team, 1);
    assert_eq!(lobby.settings.name, "x");
    // the second team was emptied into the first, and then dropped
    assert_eq!(lobby.teams, vec![vec![PlayerId(1), PlayerId(3), PlayerId(4), PlayerId(2)]]);
    let b = broadcasts(&out);
    assert!(matches!(b[0].1, LobbyToClient::LobbyInfo(_)));
}

#[test]
fn only_the_leader_sets_the_settings() {
    let mut state = State::new(options());
    connect(&mut state, 1, "a");
    connect(&mut state, 2, "b");
    connect(&mut state, 3, "c");
    create_lobby(&mut state, 1, 100);
    say(&mut state, 2, ClientToLobby::JoinLobby(LobbyId(100)));
    let settings = LobbySettings { name: "x".to_string(), locked: false, team_count: 3, max_players_per_team: 2 };
    assert_eq!(say(&mut state, 2, ClientToLobby::SetLobbySettings(settings.clone())).result, Err(ServerError::NotLobbyLeader));
    assert_eq!(say(&mut state, 3, ClientToLobby::SetLobbySettings(settings.clone())).result, Err(ServerError::PlayerNotInLobby));
    assert_eq!(say(&mut state, 9, ClientToLobby::SetLobbySettings(settings)).result, Err(ServerError::PlayerDoesntExist));
}

#[test]
fn more_teams_are_added_empty() {
    let mut state = State::new(options());
    connect(&mut state, 1, "a");
    create_lobby(&mut state, 1, 100);
    let settings = LobbySettings { name: "x".to_string(), locked: false, team_count: 4, max_players_per_team: 2 };
    say(&mut state, 1, ClientToLobby::SetLobbySettings(settings));
    assert_eq!(teams(&state), vec![vec![PlayerId(1)], vec![], vec![], vec![]]);
}

#[test]
fn changing_team() {
    let mut state = State::new(options());
    for id in 1..=3 {
        connect(&mut state, id, &format!("p{id}"));
    }
    create_lobby(&mut state, 1, 100);
    say(&mut state, 2, ClientToLobby::JoinLobby(LobbyId(100)));
    say(&mut state, 3, ClientToLobby::JoinLobby(LobbyId(100)));
    // a player moves themselves
    let out = say(&mut state, 3, ClientToLobby::ChangePlayerTeam(PlayerId(3), Team(1)));
    assert_eq!(out.result, Ok(()));
    assert_eq!(teams(&state), vec![vec![PlayerId(1)], vec![PlayerId(2), PlayerId(3)]]);
    assert!(matches!(broadcasts(&out)[0].1, LobbyToClient::PlayerChangedTeam(PlayerId(3), Team(1))));
    // only the leader moves others
    assert_eq!(say(&mut state, 2, ClientToLobby::ChangePlayerTeam(PlayerId(3), Team(0))).result, Err(ServerError::NotLobbyLeader));
    assert_eq!(say(&mut state, 1, ClientToLobby::ChangePlayerTeam(PlayerId(3), Team(5))).result, Err(ServerError::InvalidTeam));
    assert_eq!(say(&mut state, 1, ClientToLobby::ChangePlayerTeam(PlayerId(2), Team(0))).result, Ok(()));
    assert_eq!(teams(&state), vec![vec![PlayerId(1), PlayerId(2)], vec![PlayerId(3)]]);
    state.lobbies[0].settings.max_players_per_team = 2;
    assert_eq!(say(&mut state, 3, ClientToLobby::ChangePlayerTeam(PlayerId(3), Team(0))).result, Err(ServerError::TeamFull));
}

#[test]
fn switching_positions() {
    let mut state = State::new(options());
    for id in 1..=3 {
        connect(&mut state, id, &format!("p{id}"));
    }
    create_lobby(&mut state, 1, 100);
    say(&mut state, 2, ClientToLobby::JoinLobby(LobbyId(100)));
    say(&mut state, 3, ClientToLobby::JoinLobby(LobbyId(100)));
    let out = say(&mut state, 1, ClientToLobby::SwitchPlayerPositions(PlayerId(1), PlayerId(2)));
    assert_eq!(out.result, Ok(()));
    assert_eq!(teams(&state), vec![vec![PlayerId(2), PlayerId(3)], vec![PlayerId(1)]]);
    assert!(matches!(broadcasts(&out)[0].1, LobbyToClient::PlayerChangedPositions(PlayerId(1), PlayerId(2))));
    assert_eq!(say(&mut state, 1, ClientToLobby::SwitchPlayerPositions(PlayerId(2), PlayerId(3))).result, Ok(()));
    assert_eq!(teams(&state), vec![vec![PlayerId(3), PlayerId(2)], vec![PlayerId(1)]]);
    assert_eq!(say(&mut state, 1, ClientToLobby::SwitchPlayerPositions(PlayerId(2), PlayerId(2))).result, Err(ServerError::SwitchWithSelf));
    assert_eq!(say(&mut state, 1, ClientToLobby::SwitchPlayerPositions(PlayerId(9), PlayerId(2))).result, Err(ServerError::NoPlayerA));
    assert_eq!(say(&mut state, 1, ClientToLobby::SwitchPlayerPositions(PlayerId(2), PlayerId(9))).result, Err(ServerError::NoPlayerB));
    assert_eq!(say(&mut state, 2, ClientToLobby::SwitchPlayerPositions(PlayerId(2), PlayerId(3))).result, Err(ServerError::NotLobbyLeader));
}

#[test]
fn kicking_a_player() {
    let mut state = State::new(options());
    for id in 1..=3 {
        connect(&mut state, id, &format!("p{id}"));
    }
    create_lobby(&mut state, 1, 100);
    say(&mut state, 2, ClientToLobby::JoinLobby(LobbyId(100)));
    assert_eq!(say(&mut state, 1, ClientToLobby::KickPlayer(PlayerId(3))).result, Err(ServerError::PlayerToKickNotInLobby));
    assert_eq!(say(&mut state, 2, ClientToLobby::KickPlayer(PlayerId(1))).result, Err(ServerError::NotLobbyLeader));
    let out = say(&mut state, 1, ClientToLobby::KickPlayer(PlayerId(2)));
    assert_eq!(out.result, Ok(()));
    assert_eq!(teams(&state), vec![vec![PlayerId(1)], vec![]]);
    assert_eq!(state.players[1].current_lobby, None);
    assert!(matches!(sent_to(&out, 2)[0], LobbyToClient::YouLeftLobby));
}

#[test]
fn the_lobby_list_and_infos() {
    let mut state = State::new(options());
    connect(&mut state, 1, "alice");
    connect(&mut state, 2, "bob");
    create_lobby(&mut state, 1, 100);
    let out = say(&mut state, 2, ClientToLobby::FetchLobbyList);
    match sent_to(&out, 2)[0] {
        LobbyToClient::LobbyList(list) => {
            assert_eq!(list.len(), 1);
            assert_eq!(list[0].id, LobbyId(100));
            assert_eq!(list[0].name, "alice's lobby");
            assert_eq!(list[0].player_count, 1);
            assert_eq!(list[0].max_player_count, 10);
        },
        other => panic!("unexpected {other:?}"),
    }
    let out = say(&mut state, 2, ClientToLobby::GetLobbyInfo(LobbyId(100)));
    match sent_to(&out, 2)[0] {
        LobbyToClient::LobbyInfo(info) => {
            assert_eq!(info.leader, PlayerId(1));
            assert_eq!(info.teams, vec![vec![PlayerId(1)], vec![]]);
        },
        other => panic!("unexpected {other:?}"),
    }
    assert_eq!(say(&mut state, 2, ClientToLobby::GetLobbyInfo(LobbyId(5))).result, Err(ServerError::LobbyDoesntExist));
    let out = say(&mut state, 2, ClientToLobby::GetPlayerInfo(PlayerId(1)));
    match sent_to(&out, 2)[0] {
        LobbyToClient::PlayerInfo(info) => {
            assert_eq!(info.id, PlayerId(1));
            assert_eq!(info.name, "alice");
        },
        other => panic!("unexpected {other:?}"),
    }
    assert_eq!(say(&mut state, 2, ClientToLobby::GetPlayerInfo(PlayerId(5))).result, Err(ServerError::PlayerDoesntExist));
}

#[test]
fn selecting_and_locking_champions_starts_the_game() {
    let mut state = State::new(options());
    connect(&mut state, 1, "a");
    connect(&mut state, 2, "b");
    create_lobby(&mut state, 1, 100);
    say(&mut state, 2, ClientToLobby::JoinLobby(LobbyId(100)));
    assert_eq!(say(&mut state, 2, ClientToLobby::GoToChampSelect).result, Err(ServerError::NotLobbyLeader));
    let out = say(&mut state, 1, ClientToLobby::GoToChampSelect);
    assert!(matches!(broadcasts(&out)[0].1, LobbyToClient::GoToChampSelect));
    assert_eq!(state.lobbies[0].lobby_state, LobbyState::InChampSelect);

    assert_eq!(say(&mut state, 1, ClientToLobby::LockSelection).result, Err(ServerError::NoSelection));
    let out = say(&mut state, 1, ClientToLobby::SelectChamp(ChampionId("champ1".to_string())));
    assert!(matches!(broadcasts(&out)[0].1, LobbyToClient::PlayerSelectedChamp(PlayerId(1), _)));
    say(&mut state, 1, ClientToLobby::SelectChamp(ChampionId("champ2".to_string())));
    assert_eq!(state.lobbies[0].selected_champs.len(), 1);
    assert_eq!(state.lobbies[0].selected_champs[0].1.id.0, "champ2");

    let out = say(&mut state, 1, ClientToLobby::LockSelection);
    assert_eq!(out.result, Ok(()));
    assert!(out.launch.is_none());
    assert!(matches!(broadcasts(&out)[0].1, LobbyToClient::PlayerLockedSelection(PlayerId(1))));
    assert_eq!(say(&mut state, 1, ClientToLobby::LockSelection).result, Err(ServerError::SelectionAlreadyLocked));
    assert_eq!(
        say(&mut state, 1, ClientToLobby::SelectChamp(ChampionId("champ3".to_string()))).result,
        Err(ServerError::SelectionLocked)
    );

    say(&mut state, 2, ClientToLobby::SelectChamp(ChampionId("champ1".to_string())));
    let out = say(&mut state, 2, ClientToLobby::LockSelection);
    assert_eq!(out.result, Ok(()));
    assert!(out.effects.is_empty());
    let launch = out.launch.expect("the game starts");
    assert_eq!(launch.lobby, LobbyId(100));
    assert_eq!(launch.internal_port, 20000);
    assert_eq!(launch.external_port, 54000);
    assert_eq!(launch.locking_player, PlayerId(2));
    assert_eq!(launch.players.len(), 2);
    assert_eq!(launch.players[0].id, PlayerId(1));
    assert_eq!(launch.players[0].team, Team(0));
    assert_eq!(launch.players[0].champ.0, "champ2");
    assert_eq!(launch.players[1].id, PlayerId(2));
    assert_eq!(launch.players[1].team, Team(1));
    assert_eq!(launch.players[1].name, "b");

    let out = state.finish_launch(&launch, true);
    assert_eq!(out.result, Ok(()));
    assert_eq!(state.lobbies[0].lobby_state, LobbyState::InGame);
    assert_eq!(state.used_internal_ports, vec![20000]);
    assert_eq!(state.used_external_ports, vec![54000]);
    assert!(matches!(broadcasts(&out)[0].1, LobbyToClient::PlayerLockedSelection(PlayerId(2))));

    let out = state.handle(InternalMessage::GameServerClosed(LobbyId(100)));
    assert_eq!(out.result, Ok(()));
    assert_eq!(state.lobbies[0].lobby_state, LobbyState::InLobby);
    assert!(state.lobbies[0].selected_champs.is_empty());
    assert!(matches!(broadcasts(&out)[0].1, LobbyToClient::ReturnFromChampSelect));

    state.handle(InternalMessage::InternalPortReleased(20000));
    state.handle(InternalMessage::ExternalPortReleased(54000));
    assert!(state.used_internal_ports.is_empty());
    assert!(state.used_external_ports.is_empty());
}

#[test]
fn a_failed_launch_changes_nothing() {
    let mut state = State::new(options());
    connect(&mut state, 1, "a");
    create_lobby(&mut state, 1, 100);
    say(&mut state, 1, ClientToLobby::SelectChamp(ChampionId("c".to_string())));
    let out = say(&mut state, 1, ClientToLobby::LockSelection);
    let launch = out.launch.expect("the game starts");
    let out = state.finish_launch(&launch, false);
    assert_eq!(out.result, Err(ServerError::LaunchFailed));
    assert!(out.effects.is_empty());
    assert!(state.used_internal_ports.is_empty());
    assert_eq!(state.lobbies[0].lobby_state, LobbyState::InLobby);
}

#[test]
fn without_a_free_port_the_lobby_returns() {
    let mut state = State::new(options());
    connect(&mut state, 1, "a");
    create_lobby(&mut state, 1, 100);
    state.used_external_ports.push(54000);
    say(&mut state, 1, ClientToLobby::SelectChamp(ChampionId("c".to_string())));
    let out = say(&mut state, 1, ClientToLobby::LockSelection);
    assert_eq!(out.result, Err(ServerError::NoExternalPort));
    assert!(out.launch.is_none());
    assert!(matches!(out.effects[0], Effect::CloseGame(LobbyId(100))));
    state.used_external_ports.clear();
    state.used_internal_ports.push(20000);
    state.used_internal_ports.push(20001);
    state.lobbies[0].selected_champs[0].1.locked = false;
    let out = say(&mut state, 1, ClientToLobby::LockSelection);
    assert_eq!(out.result, Err(ServerError::NoInternalPort));
}

#[test]
fn the_second_internal_port_is_taken_when_the_first_is_in_use() {
    let mut state = State::new(options());
    connect(&mut state, 1, "a");
    create_lobby(&mut state, 1, 100);
    state.used_internal_ports.push(20000);
    say(&mut state, 1, ClientToLobby::SelectChamp(ChampionId("c".to_string())));
    let launch = say(&mut state, 1, ClientToLobby::LockSelection).launch.expect("the game starts");
    assert_eq!(launch.internal_port, 20001);
}

#[test]
fn a_player_without_a_selection_stops_the_start() {
    let mut state = State::new(options());
    connect(&mut state, 1, "a");
    connect(&mut state, 2, "b");
    create_lobby(&mut state, 1, 100);
    say(&mut state, 2, ClientToLobby::JoinLobby(LobbyId(100)));
    say(&mut state, 2, ClientToLobby::SelectChamp(ChampionId("c".to_string())));
    // a selection of someone who is no longer here counts towards the total
    say(&mut state, 2, ClientToLobby::LeaveCurrentLobby);
    connect(&mut state, 3, "c");
    say(&mut state, 3, ClientToLobby::JoinLobby(LobbyId(100)));
    say(&mut state, 1, ClientToLobby::SelectChamp(ChampionId("c".to_string())));
    assert_eq!(state.lobbies[0].selected_champs.len(), 2);
    state.lobbies[0].selected_champs[0].1.locked = true;
    let out = say(&mut state, 1, ClientToLobby::LockSelection);
    assert_eq!(out.result, Err(ServerError::IncompleteRoster));
    assert!(out.launch.is_none());
}

#[test]
fn a_game_token_goes_to_its_player() {
    let mut state = State::new(options());
    connect(&mut state, 1, "a");
    let out = state.handle(InternalMessage::GameTokenCreated(PlayerId(1), vec![1, 2, 3]));
    assert!(matches!(sent_to(&out, 1)[0], LobbyToClient::GameStarted(t) if *t == vec![1, 2, 3]));
    let out = state.handle(InternalMessage::GameTokenCreated(PlayerId(2), vec![1]));
    assert!(out.effects.is_empty());
}

#[test]
fn a_disconnection_leaves_the_lobby_and_frees_the_name() {
    let mut state = State::new(options());
    connect(&mut state, 1, "a");
    connect(&mut state, 2, "b");
    create_lobby(&mut state, 1, 100);
    say(&mut state, 2, ClientToLobby::JoinLobby(LobbyId(100)));
    let out = say(&mut state, 1, ClientToLobby::Disconnect);
    assert_eq!(out.result, Ok(()));
    assert_eq!(state.players.len(), 1);
    assert_eq!(state.used_player_names, vec!["b"]);
    assert_eq!(state.lobbies[0].leader, PlayerId(2));
    assert_eq!(teams(&state), vec![vec![], vec![PlayerId(2)]]);
}

#[test]
fn a_fresh_lobby_id_is_a_random_uuid() {
    let mut state = State::new(options());
    connect(&mut state, 1, "a");
    let out = state.on_create_lobby(PlayerId(1));
    assert_eq!(out.result, Ok(()));
    let id = state.lobbies[0].id.0;
    assert_eq!(id & 0x0000_0000_0000_F000_C000_0000_0000_0000, 0x0000_0000_0000_4000_8000_0000_0000_0000);
    let p = PlayerId::new();
    assert_eq!(p.0 & 0x0000_0000_0000_F000_C000_0000_0000_0000, 0x0000_0000_0000_4000_8000_0000_0000_0000);
    assert_ne!(PlayerId::new(), PlayerId::new());
}

fn membership_agrees(state: &State) {
    for lobby in state.lobbies.iter() {
        let mut seen: Vec<PlayerId> = Vec::new();
        for team in lobby.teams.iter() {
            for p in team.iter() {
                assert!(!seen.contains(p));
                seen.push(*p);
                let player = state.players.iter().find(|q| q.id == *p).unwrap();
                assert_eq!(player.current_lobby, Some(lobby.id));
            }
        }
    }
    for player in state.players.iter() {
        if let Some(lid) = player.current_lobby {
            let lobby = state.lobbies.iter().find(|l| l.id == lid).unwrap();
            assert!(lobby.teams.iter().any(|t| t.contains(&player.id)));
        }
    }
}

#[test]
fn current_lobbies_and_teams_stay_in_agreement() {
    let mut state = State::new(options());
    for id in 1..=5u128 {
        connect(&mut state, id, "p");
        membership_agrees(&state);
    }
    create_lobby(&mut state, 1, 100);
    create_lobby(&mut state, 2, 200);
    membership_agrees(&state);
    say(&mut state, 3, ClientToLobby::JoinLobby(LobbyId(100)));
    say(&mut state, 4, ClientToLobby::JoinLobby(LobbyId(100)));
    say(&mut state, 5, ClientToLobby::JoinLobby(LobbyId(200)));
    membership_agrees(&state);
    say(&mut state, 1, ClientToLobby::ChangePlayerTeam(PlayerId(3), Team(1)));
    say(&mut state, 1, ClientToLobby::SwitchPlayerPositions(PlayerId(3), PlayerId(4)));
    membership_agrees(&state);
    say(&mut state, 1, ClientToLobby::KickPlayer(PlayerId(4)));
    membership_agrees(&state);
    assert_eq!(state.players.iter().find(|p| p.id == PlayerId(4)).unwrap().current_lobby, None);
    say(&mut state, 2, ClientToLobby::LeaveCurrentLobby);
    membership_agrees(&state);
    state.handle(InternalMessage::PlayerDisconnected(PlayerId(5)));
    membership_agrees(&state);
    assert_eq!(state.lobbies.len(), 1);
    state.handle(InternalMessage::PlayerDisconnected(PlayerId(1)));
    membership_agrees(&state);
    assert_eq!(state.lobbies[0].leader, PlayerId(3));
}

#[test]
fn a_game_seats_players_by_their_address_at_the_start() {
    let mut state = State::new(options());
    connect(&mut state, 1, "a");
    connect(&mut state, 2, "b");
    create_lobby(&mut state, 1, 100);
    say(&mut state, 2, ClientToLobby::JoinLobby(LobbyId(100)));
    say(&mut state, 1, ClientToLobby::GoToChampSelect);
    say(&mut state, 1, ClientToLobby::SelectChamp(ChampionId("c".to_string())));
    say(&mut state, 2, ClientToLobby::SelectChamp(ChampionId("c".to_string())));
    say(&mut state, 1, ClientToLobby::LockSelection);
    state.set_network(PlayerId(2), false, false);
    state.set_network(PlayerId(9), false, false);
    assert_eq!(state.players.len(), 2);
    let out = say(&mut state, 2, ClientToLobby::LockSelection);
    let launch = out.launch.expect("the game starts");
    assert!(launch.players[0].is_ipv4 && launch.players[0].is_local);
    assert!(!launch.players[1].is_ipv4 && !launch.players[1].is_local);
}

#[test]
fn the_names_in_use_are_the_connected_players_names() {
    let mut state = State::new(options());
    connect(&mut state, 1, "x");
    connect(&mut state, 2, "x");
    connect(&mut state, 3, "y");
    create_lobby(&mut state, 2, 100);
    state.handle(InternalMessage::PlayerDisconnected(PlayerId(1)));
    connect(&mut state, 4, "x");
    say(&mut state, 3, ClientToLobby::Disconnect);
    let mut in_use = state.used_player_names.clone();
    let mut names: Vec<String> = state.players.iter().map(|p| p.name.clone()).collect();
    in_use.sort();
    names.sort();
    assert_eq!(in_use, names);
    assert_eq!(names, vec!["x".to_string(), "x 2".to_string()]);
}
