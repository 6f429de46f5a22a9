use moba_lobby::ids::{LobbyId, PlayerId};
use moba_lobby::lobby::{first_player_of, Lobby};
use moba_lobby::protocol::{LobbySettings, LobbyState};
use moba_lobby::teams::{
    add_to_smallest_team, count_players, find_player, first_min_team, first_team_with_space, readjust_teams,
    remove_from_teams, swap_players,
};

fn p(i: u128) -> PlayerId {
    PlayerId(i)
}

fn ids(t: &[&[u128]]) -> Vec<Vec<PlayerId>> {
    t.iter().map(|team| team.iter().map(|&i| p(i)).collect()).collect()
}

fn lobby(teams: &[&[u128]], team_count: usize, max: usize) -> Lobby {
    Lobby {
        id: LobbyId(1),
        settings: LobbySettings { name: "l".to_string(), locked: false, team_count, max_players_per_team: max },
        teams: ids(teams),
        leader: p(1),
        lobby_state: LobbyState::InLobby,
        selected_champs: Vec::new(),
    }
}

fn sorted_roster(t: &Vec<Vec<PlayerId>>) -> Vec<u128> {
    let mut v: Vec<u128> = t.iter().flatten().map(|p| p.0).collect();
    v.sort();
    v
}

#[test]
fn extra_teams_are_emptied_into_the_first_ones() {
    let mut t = ids(&[&[1], &[2], &[3, 4]]);
    readjust_teams(&mut t, 2, 2);
    // the third team's players go, last first, to the first team with room
    assert_eq!(t, ids(&[&[1, 4], &[2, 3]]));
}

#[test]
fn only_the_last_extra_team_is_dropped() {
    let mut t = ids(&[&[1], &[2], &[3], &[4]]);
    readjust_teams(&mut t, 1, 5);
    assert_eq!(t, ids(&[&[1, 4, 3, 2], &[], &[]]));
}

#[test]
fn without_room_players_go_to_the_smallest_team() {
    let mut t = ids(&[&[1, 2], &[3], &[4, 5, 6]]);
    readjust_teams(&mut t, 2, 1);
    assert_eq!(t, ids(&[&[1, 2, 5], &[3, 6, 4]]));
    assert_eq!(sorted_roster(&t), vec![1, 2, 3, 4, 5, 6]);
}

#[test]
fn missing_teams_are_added() {
    let mut t = ids(&[&[1, 2, 3]]);
    readjust_teams(&mut t, 3, 1);
    assert_eq!(t, ids(&[&[1], &[3], &[2]]));
}

#[test]
fn overfull_teams_shed_to_the_first_team_with_room() {
    let mut t = ids(&[&[1, 2, 3, 4], &[5], &[]]);
    readjust_teams(&mut t, 3, 2);
    assert_eq!(t, ids(&[&[1, 2], &[5, 4], &[3]]));
}

#[test]
fn when_all_fit_no_team_is_overfull() {
    for tc in 1..4usize {
        for max in 1..4usize {
            let mut t = ids(&[&[1, 2, 3, 4, 5], &[6], &[7, 8], &[]]);
            if 8 <= tc * max {
                readjust_teams(&mut t, tc, max);
                assert!(t.iter().all(|team| team.len() <= max), "tc {tc} max {max}: {t:?}");
                assert_eq!(sorted_roster(&t), vec![1, 2, 3, 4, 5, 6, 7, 8]);
            }
        }
    }
}

#[test]
fn counting_and_finding() {
    let t = ids(&[&[1, 2], &[], &[3]]);
    assert_eq!(count_players(&t), 3);
    assert_eq!(find_player(&t, p(3)), Some((2, 0)));
    assert_eq!(find_player(&t, p(9)), None);
    assert_eq!(first_min_team(&t, 3), 1);
    assert_eq!(first_team_with_space(&t, 3, 1), Some(1));
    assert_eq!(first_team_with_space(&ids(&[&[1], &[2]]), 2, 1), None);
    assert_eq!(first_player_of(&t), Some(p(1)));
    assert_eq!(first_player_of(&ids(&[&[], &[4]])), Some(p(4)));
    assert_eq!(first_player_of(&ids(&[&[], &[]])), None);
}

#[test]
fn adding_removing_and_swapping() {
    let mut t = ids(&[&[1, 2], &[3]]);
    add_to_smallest_team(&mut t, p(4));
    assert_eq!(t, ids(&[&[1, 2], &[3, 4]]));
    add_to_smallest_team(&mut t, p(5));
    assert_eq!(t, ids(&[&[1, 2, 5], &[3, 4]]));
    assert_eq!(remove_from_teams(&mut t, p(2)), Some((0, 1)));
    assert_eq!(t, ids(&[&[1, 5], &[3, 4]]));
    assert_eq!(remove_from_teams(&mut t, p(2)), None);
    swap_players(&mut t, 0, 0, 1, 1);
    assert_eq!(t, ids(&[&[4, 5], &[3, 1]]));
}

#[test]
fn a_lobby_needs_readjustment_when_the_team_count_differs() {
    let l = lobby(&[&[1], &[2]], 3, 5);
    assert!(l.needs_readjustment());
}

#[test]
fn a_lobby_needs_readjustment_when_some_but_not_all_teams_are_overfull() {
    assert!(lobby(&[&[1, 2, 3], &[4]], 2, 2).needs_readjustment());
    assert!(!lobby(&[&[1, 2, 3], &[4, 5, 6]], 2, 2).needs_readjustment());
    assert!(!lobby(&[&[1, 2], &[4]], 2, 2).needs_readjustment());
}

#[test]
fn a_lobby_counts_and_describes_itself() {
    let l = lobby(&[&[1, 2], &[3]], 2, 4);
    assert_eq!(l.player_count(), 3);
    assert!(!l.is_empty());
    assert!(lobby(&[&[], &[]], 2, 4).is_empty());
    let short = l.get_short_info();
    assert_eq!(short.player_count, 3);
    assert_eq!(short.max_player_count, 8);
    assert_eq!(short.name, "l");
    let info = l.get_info();
    assert_eq!(info.teams, l.teams);
    assert_eq!(info.leader, p(1));
    assert_eq!(info.settings.max_players_per_team, 4);
}

#[test]
fn max_players_wraps_like_a_machine_word() {
    let s = LobbySettings { name: String::new(), locked: false, team_count: 3, max_players_per_team: 5 };
    assert_eq!(s.max_players(), 15);
    let s = LobbySettings { name: String::new(), locked: false, team_count: 2, max_players_per_team: usize::MAX };
    assert_eq!(s.max_players(), usize::MAX - 1);
}

#[test]
fn removing_the_leader_passes_the_lead_on() {
    let mut l = lobby(&[&[1, 2], &[3]], 2, 5);
    l.remove_player(p(1), false);
    assert_eq!(l.leader, p(2));
    assert_eq!(l.teams, ids(&[&[2], &[3]]));
    let mut l = lobby(&[&[1], &[3]], 2, 5);
    l.remove_player(p(1), true);
    assert_eq!(l.leader, p(1));
    assert_eq!(l.teams, ids(&[&[], &[3]]));
}

#[test]
fn adding_a_player_to_a_lobby() {
    let mut l = lobby(&[&[1, 2], &[3]], 2, 5);
    l.add_player(p(4));
    assert_eq!(l.teams, ids(&[&[1, 2], &[3, 4]]));
}

#[test]
fn readjusting_a_lobby() {
    let mut l = lobby(&[&[1, 2, 3], &[4]], 2, 2);
    l.readjust_if_needed();
    assert_eq!(l.teams, ids(&[&[1, 2], &[4, 3]]));
    let mut l = lobby(&[&[1, 2, 3], &[4]], 1, 2);
    l.readjust_players();
    assert_eq!(l.teams, ids(&[&[1, 2, 3, 4]]));
}

#[test]
fn readjusting_empty_teams_to_no_team_drops_the_last() {
    let mut l = lobby(&[&[], &[], &[]], 0, 2);
    l.readjust_players();
    assert_eq!(l.teams.len(), 2);
    let mut t: Vec<Vec<PlayerId>> = vec![vec![], vec![]];
    readjust_teams(&mut t, 0, 5);
    assert_eq!(t.len(), 1);
}
