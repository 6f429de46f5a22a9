//! What every message that the lobby server handles keeps: each lobby is
//! led by one of its players, and the player names in use, the internal
//! ports in use and the external ports in use are each distinct.

use vstd::prelude::*;
use crate::ids::{LobbyId, PlayerId, Team};
use crate::lobby::{
    first_player, lemma_first_player_plays, lemma_push_in_teams, lemma_readjusted_if_needed_keeps,
    lemma_without_player_keeps_others, readjusted_if_needed, without_player,
};
use crate::names::lemma_unused_name;
use crate::protocol::ClientToLobby;
use crate::server::{
    champ_select_step, change_team_step, create_lobby_step, disconnect_step, external_released_step,
    fetch_lobby_list_step, find_first, finish_launch_step, game_closed_step, get_lobby_info_step,
    get_player_info_step, handle_step, handleable, insert_lobby, internal_released_step, join_lobby_step,
    kick_step, leave_step, led_lobby, lemma_find_first, lemma_own_lobby_bounds, lemma_total_readjusted_if_needed,
    lemma_total_without, lobby_index, lobby_ok, lock_step, new_lobby, new_player_step, own_lobby, player_index,
    select_champ_step, server_ok, set_insert, set_remove, set_settings_step, start_step, switch_step, token_step,
    with_lobby, with_player_lobby, InternalMessage, LaunchView, network_step, LobbyModel, PlayerView, ServerModel, eq_to,
};
use crate::teams::{find_player_spec, in_teams, is_first_position, lemma_first_min, first_min, swapped, total};

verus! {

/// Every lobby is led by one of its players.
pub open spec fn lobbies_led(s: ServerModel) -> bool {
    forall|j: int| 0 <= j < s.lobbies.len() ==> in_teams((#[trigger] s.lobbies[j]).teams, s.lobbies[j].leader)
}

/// No name, internal port or external port is in use twice.
pub open spec fn distinct_in_use(s: ServerModel) -> bool {
    &&& s.names.no_duplicates()
    &&& s.internal.no_duplicates()
    &&& s.external.no_duplicates()
}

/// Putting a value in a set kept as a list without duplicates keeps it so,
/// and the value is then in it.
pub proof fn lemma_set_insert<A>(v: Seq<A>, x: A)
    requires
        v.no_duplicates(),
    ensures
        set_insert(v, x).no_duplicates(),
        set_insert(v, x).contains(x),
{
    if !v.contains(x) {
        assert(v.push(x)[v.len() as int] == x);
    } else {
    }
}

/// Taking a value out of a set kept as a list without duplicates keeps it
/// so, and the value is then not in it.
pub proof fn lemma_set_remove<A>(v: Seq<A>, x: A)
    requires
        v.no_duplicates(),
    ensures
        set_remove(v, x).no_duplicates(),
        !set_remove(v, x).contains(x),
{
    lemma_find_first(v, eq_to(x));
    if let Some(i) = find_first(v, eq_to(x)) {
        let u = v.remove(i);
        v.remove_ensures(i);
        assert forall|a: int, b: int| 0 <= a < u.len() && 0 <= b < u.len() && a != b implies u[a] != u[b] by {
            let a2 = if a < i { a } else { a + 1 };
            let b2 = if b < i { b } else { b + 1 };
            assert(u[a] == v[a2]);
            assert(u[b] == v[b2]);
        }
        if u.contains(x) {
            let k = choose|k: int| 0 <= k < u.len() && u[k] == x;
            let k2 = if k < i { k } else { k + 1 };
            assert(v[k2] == x);
            assert(v[i] == x);
        }
    } else {
        if v.contains(x) {
            let k = choose|k: int| 0 <= k < v.len() && v[k] == x;
            assert(!(eq_to(x))(v[k]));
        }
    }
}

proof fn lemma_with_lobby_led(s: ServerModel, j: int, l2: LobbyModel)
    requires
        lobbies_led(s),
        0 <= j < s.lobbies.len(),
        in_teams(l2.teams, l2.leader),
    ensures
        lobbies_led(with_lobby(s, j, l2)),
{
    let u = with_lobby(s, j, l2);
    assert forall|k: int| 0 <= k < u.lobbies.len() implies in_teams((#[trigger] u.lobbies[k]).teams, u.lobbies[k].leader) by {
        if k != j {
            assert(u.lobbies[k] == s.lobbies[k]);
        }
    }
}

proof fn lemma_lobby_bounds(s: ServerModel, lid: LobbyId)
    ensures
        lobby_index(s.lobbies, lid) matches Some(j) ==> 0 <= j < s.lobbies.len() && s.lobbies[j].id == lid,
{
    lemma_find_first(s.lobbies, |l: LobbyModel| l.id == lid);
}

proof fn lemma_player_bounds(s: ServerModel, pid: PlayerId)
    ensures
        player_index(s.players, pid) matches Some(i) ==> 0 <= i < s.players.len() && s.players[i].id == pid,
{
    lemma_find_first(s.players, |p: PlayerView| p.id == pid);
}

proof fn lemma_leave(s: ServerModel, pid: PlayerId)
    requires
        server_ok(s),
        lobbies_led(s),
        distinct_in_use(s),
    ensures
        lobbies_led(leave_step(s, pid).state),
        distinct_in_use(leave_step(s, pid).state),
        leave_step(s, pid).state.names == s.names,
        leave_step(s, pid).state.players.len() == s.players.len(),
        forall|i: int| 0 <= i < s.players.len() ==> (#[trigger] leave_step(s, pid).state.players[i]).id == s.players[i].id
            && leave_step(s, pid).state.players[i].name == s.players[i].name,
{
    lemma_player_bounds(s, pid);
    if let Some(pi) = player_index(s.players, pid) {
        if let Some(lid) = s.players[pi].current_lobby {
            lemma_lobby_bounds(s, lid);
            if let Some(j) = lobby_index(s.lobbies, lid) {
                let l = s.lobbies[j];
                assert(lobby_ok(l));
                let tc = l.settings.team_count as int;
                let max = l.settings.max_players_per_team as int;
                let t1 = without_player(l.teams, pid);
                let teams = readjusted_if_needed(t1, tc, max);
                let leader = if l.leader == pid && first_player(t1) is Some {
                    first_player(t1)->0
                } else {
                    l.leader
                };
                let s1 = with_player_lobby(s, pi, None);
                lemma_total_without(l.teams, pid);
                lemma_total_readjusted_if_needed(t1, tc, max);
                lemma_first_player_plays(t1);
                lemma_readjusted_if_needed_keeps(t1, tc, max, leader);
                assert(lobbies_led(s1));
                if total(teams) == 0 {
                    let u = s1.lobbies.remove(j);
                    s1.lobbies.remove_ensures(j);
                    assert forall|k: int| 0 <= k < u.len() implies in_teams((#[trigger] u[k]).teams, u[k].leader) by {
                        if k < j {
                            assert(u[k] == s1.lobbies[k]);
                        } else {
                            assert(u[k] == s1.lobbies[k + 1]);
                        }
                    }
                } else {
                    if l.leader != pid {
                        assert(in_teams(l.teams, l.leader));
                        lemma_without_player_keeps_others(l.teams, pid, l.leader);
                    }
                    assert(in_teams(teams, leader));
                    let in_cs = l.state == crate::protocol::LobbyState::InChampSelect;
                    let l2 = LobbyModel {
                        teams,
                        leader,
                        state: if in_cs { crate::protocol::LobbyState::InLobby } else { l.state },
                        selected: if in_cs { Seq::empty() } else { l.selected },
                        ..l
                    };
                    lemma_with_lobby_led(s1, j, l2);
                }
            }
        }
    }
}

proof fn lemma_join(s: ServerModel, pid: PlayerId, lid: LobbyId)
    requires
        server_ok(s),
        lobbies_led(s),
    ensures
        lobbies_led(join_lobby_step(s, pid, lid).state),
        join_lobby_step(s, pid, lid).state.names == s.names,
        join_lobby_step(s, pid, lid).state.internal == s.internal,
        join_lobby_step(s, pid, lid).state.external == s.external,
{
    lemma_player_bounds(s, pid);
    lemma_lobby_bounds(s, lid);
    if let Some(pi) = player_index(s.players, pid) {
        if let Some(j) = lobby_index(s.lobbies, lid) {
            let l = s.lobbies[j];
            assert(lobby_ok(l));
            lemma_first_min(l.teams, l.teams.len() as int);
            let i = first_min(l.teams, l.teams.len() as int);
            lemma_push_in_teams(l.teams, i, pid, l.leader);
            let l2 = LobbyModel { teams: l.teams.update(i, l.teams[i].push(pid)), ..l };
            lemma_with_lobby_led(with_player_lobby(s, pi, Some(lid)), j, l2);
        }
    }
}

proof fn lemma_create(s: ServerModel, pid: PlayerId, fresh: LobbyId)
    requires
        lobbies_led(s),
    ensures
        lobbies_led(create_lobby_step(s, pid, fresh).state),
        create_lobby_step(s, pid, fresh).state.names == s.names,
        create_lobby_step(s, pid, fresh).state.internal == s.internal,
        create_lobby_step(s, pid, fresh).state.external == s.external,
{
    lemma_player_bounds(s, pid);
    lemma_lobby_bounds(s, fresh);
    if let Some(pi) = player_index(s.players, pid) {
        let nl = new_lobby(s.players[pi], fresh);
        assert(nl.teams[0][0] == pid);
        assert(nl.teams[0].contains(pid));
        assert(in_teams(nl.teams, nl.leader));
        let s1 = with_player_lobby(s, pi, Some(fresh));
        match lobby_index(s.lobbies, fresh) {
            Some(j) => {
                lemma_with_lobby_led(s1, j, nl);
                assert(insert_lobby(s.lobbies, nl) == with_lobby(s1, j, nl).lobbies);
            },
            None => {
                let u = s.lobbies.push(nl);
                assert forall|k: int| 0 <= k < u.len() implies in_teams((#[trigger] u[k]).teams, u[k].leader) by {
                    if k < s.lobbies.len() {
                        assert(u[k] == s.lobbies[k]);
                    }
                }
            },
        }
    }
}

proof fn lemma_set_settings(s: ServerModel, pid: PlayerId, new: crate::server::SettingsView)
    requires
        server_ok(s),
        lobbies_led(s),
    ensures
        lobbies_led(set_settings_step(s, pid, new).state),
        set_settings_step(s, pid, new).state.names == s.names,
        set_settings_step(s, pid, new).state.internal == s.internal,
        set_settings_step(s, pid, new).state.external == s.external,
{
    lemma_own_lobby_bounds(s, pid);
    if let Ok(j) = led_lobby(s, pid) {
        let l = s.lobbies[j];
        let tc: int = if new.team_count < 1 { 1 } else { new.team_count as int };
        let max: int = if new.max_players_per_team < 1 { 1 } else { new.max_players_per_team as int };
        lemma_readjusted_if_needed_keeps(l.teams, tc, max, l.leader);
        let ns = crate::server::SettingsView {
            team_count: if new.team_count < 1 { 1 } else { new.team_count },
            max_players_per_team: if new.max_players_per_team < 1 { 1 } else { new.max_players_per_team },
            ..new
        };
        let l2 = LobbyModel {
            settings: ns,
            teams: readjusted_if_needed(l.teams, ns.team_count as int, ns.max_players_per_team as int),
            ..l
        };
        lemma_with_lobby_led(s, j, l2);
    }
}

proof fn lemma_change_team(s: ServerModel, pid: PlayerId, mover: PlayerId, team: Team)
    requires
        lobbies_led(s),
    ensures
        lobbies_led(change_team_step(s, pid, mover, team).state),
        change_team_step(s, pid, mover, team).state.names == s.names,
        change_team_step(s, pid, mover, team).state.internal == s.internal,
        change_team_step(s, pid, mover, team).state.external == s.external,
{
    lemma_own_lobby_bounds(s, pid);
    if let Ok(j) = own_lobby(s, pid) {
        let l = s.lobbies[j];
        if !(mover != pid && l.leader != pid) && team.0 < l.teams.len()
            && l.teams[team.0 as int].len() < l.settings.max_players_per_team && total(l.teams) + 1 < usize::MAX {
            let t1 = without_player(l.teams, mover);
            lemma_total_without(l.teams, mover);
            if l.leader != mover {
                lemma_without_player_keeps_others(l.teams, mover, l.leader);
            }
            lemma_push_in_teams(t1, team.0 as int, mover, l.leader);
            let l2 = LobbyModel { teams: t1.update(team.0 as int, t1[team.0 as int].push(mover)), ..l };
            lemma_with_lobby_led(s, j, l2);
        }
    }
}

proof fn lemma_switch(s: ServerModel, pid: PlayerId, a: PlayerId, b: PlayerId)
    requires
        lobbies_led(s),
    ensures
        lobbies_led(switch_step(s, pid, a, b).state),
        switch_step(s, pid, a, b).state.names == s.names,
        switch_step(s, pid, a, b).state.internal == s.internal,
        switch_step(s, pid, a, b).state.external == s.external,
{
    lemma_own_lobby_bounds(s, pid);
    if let Ok(j) = led_lobby(s, pid) {
        let l = s.lobbies[j];
        if a != b {
            if let (Some((ta, ia)), Some((tb, ib))) = (find_player_spec(l.teams, a), find_player_spec(l.teams, b)) {
                let (xa, ya) = choose|x: int, y: int| is_first_position(l.teams, a, x, y);
                let (xb, yb) = choose|x: int, y: int| is_first_position(l.teams, b, x, y);
                assert(is_first_position(l.teams, a, ta, ia));
                assert(is_first_position(l.teams, b, tb, ib));
                let t2 = swapped(l.teams, ta, ia, tb, ib);
                crate::teams::lemma_swapped_keeps_roster(l.teams, ta, ia, tb, ib);
                crate::teams::lemma_roster_contains(l.teams, l.leader);
                crate::teams::lemma_roster_contains(t2, l.leader);
                let l2 = LobbyModel { teams: t2, ..l };
                lemma_with_lobby_led(s, j, l2);
            }
        }
    }
}

proof fn lemma_same_teams(s: ServerModel, j: int, l2: LobbyModel)
    requires
        lobbies_led(s),
        0 <= j < s.lobbies.len(),
        l2.teams == s.lobbies[j].teams,
        l2.leader == s.lobbies[j].leader,
    ensures
        lobbies_led(with_lobby(s, j, l2)),
{
    lemma_with_lobby_led(s, j, l2);
}

proof fn lemma_lock(s: ServerModel, pid: PlayerId)
    requires
        lobbies_led(s),
    ensures
        lobbies_led(lock_step(s, pid).0.state),
        lock_step(s, pid).0.state.names == s.names,
        lock_step(s, pid).0.state.internal == s.internal,
        lock_step(s, pid).0.state.external == s.external,
{
    lemma_own_lobby_bounds(s, pid);
    if let Ok(j) = own_lobby(s, pid) {
        let l = s.lobbies[j];
        if let Some(k) = crate::server::selection_index(l.selected, pid) {
            let sel2 = l.selected.update(k, (l.selected[k].0, crate::server::SelectionView { locked: true, ..l.selected[k].1 }));
            let l2 = LobbyModel { selected: sel2, ..l };
            lemma_same_teams(s, j, l2);
        }
    }
}

/// Handling a message keeps every lobby led by one of its players, and
/// keeps the names, the internal ports and the external ports in use each
/// distinct.
pub proof fn lemma_handle_keeps_invariants(s: ServerModel, msg: InternalMessage, fresh: LobbyId)
    requires
        server_ok(s),
        lobbies_led(s),
        distinct_in_use(s),
        handleable(msg),
    ensures
        lobbies_led(handle_step(s, msg, fresh).0.state),
        distinct_in_use(handle_step(s, msg, fresh).0.state),
{
    match msg {
        InternalMessage::NewPlayer(p) => {
            lemma_unused_name(p@.name, s.names);
            lemma_set_insert(s.names, crate::names::unused_name(p@.name, s.names));
            assert(!s.names.contains(crate::names::unused_name(p@.name, s.names)));
        },
        InternalMessage::PlayerDisconnected(pid) => {
            lemma_disconnect(s, pid);
        },
        InternalMessage::PlayerMessage { player, message } => match message {
            ClientToLobby::Disconnect => {
                lemma_disconnect(s, player);
            },
            ClientToLobby::CreateAndJoinLobby => {
                lemma_create(s, player, fresh);
            },
            ClientToLobby::JoinLobby(lid) => {
                lemma_join(s, player, lid);
            },
            ClientToLobby::LeaveCurrentLobby => {
                lemma_leave(s, player);
            },
            ClientToLobby::SetLobbySettings(settings) => {
                lemma_set_settings(s, player, settings@);
            },
            ClientToLobby::ChangePlayerTeam(mover, team) => {
                lemma_change_team(s, player, mover, team);
            },
            ClientToLobby::SwitchPlayerPositions(a, b) => {
                lemma_switch(s, player, a, b);
            },
            ClientToLobby::KickPlayer(k) => {
                lemma_leave(s, k);
            },
            ClientToLobby::GoToChampSelect => {
                lemma_own_lobby_bounds(s, player);
                if let Ok(j) = led_lobby(s, player) {
                    let l = s.lobbies[j];
                    lemma_same_teams(s, j, LobbyModel { state: crate::protocol::LobbyState::InChampSelect, ..l });
                }
            },
            ClientToLobby::SelectChamp(c) => {
                lemma_own_lobby_bounds(s, player);
                if let Ok(j) = own_lobby(s, player) {
                    let l = s.lobbies[j];
                    let champ = c.0@;
                    match crate::server::selection_index(l.selected, player) {
                        Some(k) => {
                            let sel2 = l.selected.update(k, (l.selected[k].0, crate::server::SelectionView { champ, locked: false }));
                            lemma_same_teams(s, j, LobbyModel { selected: sel2, ..l });
                        },
                        None => {
                            let sel2 = l.selected.push((player, crate::server::SelectionView { champ, locked: false }));
                            lemma_same_teams(s, j, LobbyModel { selected: sel2, ..l });
                        },
                    }
                }
            },
            ClientToLobby::LockSelection => {
                lemma_lock(s, player);
            },
            _ => {},
        },
        InternalMessage::InternalPortReleased(port) => {
            lemma_set_remove(s.internal, port);
        },
        InternalMessage::ExternalPortReleased(port) => {
            lemma_set_remove(s.external, port);
        },
        InternalMessage::GameServerClosed(lid) => {
            lemma_lobby_bounds(s, lid);
            if let Some(j) = lobby_index(s.lobbies, lid) {
                let l = s.lobbies[j];
                lemma_same_teams(s, j, LobbyModel { state: crate::protocol::LobbyState::InLobby, selected: Seq::empty(), ..l });
            }
        },
        InternalMessage::GameTokenCreated(..) => {},
    }
}

proof fn lemma_disconnect(s: ServerModel, pid: PlayerId)
    requires
        server_ok(s),
        lobbies_led(s),
        distinct_in_use(s),
    ensures
        lobbies_led(disconnect_step(s, pid).state),
        distinct_in_use(disconnect_step(s, pid).state),
{
    lemma_leave(s, pid);
    let s1 = leave_step(s, pid).state;
    lemma_find_first(s1.players, |p: PlayerView| p.id == pid);
    if let Some(i) = player_index(s1.players, pid) {
        lemma_set_remove(s1.names, s1.players[i].name);
    }
}

/// Finishing a launch keeps every lobby led by one of its players, and
/// keeps the ports in use each distinct.
pub proof fn lemma_finish_launch_keeps_invariants(s: ServerModel, g: LaunchView, spawned: bool)
    requires
        lobbies_led(s),
        distinct_in_use(s),
    ensures
        lobbies_led(finish_launch_step(s, g, spawned).state),
        distinct_in_use(finish_launch_step(s, g, spawned).state),
{
    if spawned {
        lemma_set_insert(s.internal, g.internal_port);
        lemma_set_insert(s.external, g.external_port);
        let s1 = ServerModel {
            internal: set_insert(s.internal, g.internal_port),
            external: set_insert(s.external, g.external_port),
            ..s
        };
        lemma_lobby_bounds(s1, g.lobby);
        if let Some(j) = lobby_index(s1.lobbies, g.lobby) {
            lemma_same_teams(s1, j, LobbyModel { state: crate::protocol::LobbyState::InGame, ..s1.lobbies[j] });
        }
    }
}

/// Some connected player has the name `y`.
pub open spec fn has_player_named(s: ServerModel, y: Seq<char>) -> bool {
    exists|i: int| 0 <= i < s.players.len() && #[trigger] s.players[i].name == y
}

/// The names in use are exactly the connected players' names, no name is in
/// use twice, and no two connected players share a name.
pub open spec fn names_of_players(s: ServerModel) -> bool {
    &&& s.names.no_duplicates()
    &&& forall|i: int| 0 <= i < s.players.len() ==> s.names.contains((#[trigger] s.players[i]).name)
    &&& forall|k: int| 0 <= k < s.names.len() ==> has_player_named(s, #[trigger] s.names[k])
    &&& forall|a: int, b: int| 0 <= a < s.players.len() && 0 <= b < s.players.len() && a != b
        ==> #[trigger] s.players[a].name != #[trigger] s.players[b].name
}

/// A state with the same names in use, and players with the same names in
/// the same order, keeps the names those of the players.
proof fn lemma_same_names(s: ServerModel, s2: ServerModel)
    requires
        names_of_players(s),
        s2.names == s.names,
        s2.players.len() == s.players.len(),
        forall|i: int| 0 <= i < s.players.len() ==> (#[trigger] s2.players[i]).name == s.players[i].name,
    ensures
        names_of_players(s2),
{
    assert forall|i: int| 0 <= i < s2.players.len() implies s2.names.contains((#[trigger] s2.players[i]).name) by {
        assert(s.names.contains(s.players[i].name));
    }
    assert forall|k: int| 0 <= k < s2.names.len() implies has_player_named(s2, #[trigger] s2.names[k]) by {
        let i = choose|i: int| 0 <= i < s.players.len() && #[trigger] s.players[i].name == s.names[k];
        assert(s2.players[i].name == s2.names[k]);
    }
    assert forall|a: int, b: int| 0 <= a < s2.players.len() && 0 <= b < s2.players.len() && a != b
        implies #[trigger] s2.players[a].name != #[trigger] s2.players[b].name by {
        assert(s.players[a].name != s.players[b].name);
    }
}

proof fn lemma_new_player_names(s: ServerModel, p: PlayerView)
    requires
        names_of_players(s),
        player_index(s.players, p.id) is None,
    ensures
        names_of_players(new_player_step(s, p).state),
{
    let name = crate::names::unused_name(p.name, s.names);
    lemma_unused_name(p.name, s.names);
    lemma_set_insert(s.names, name);
    let s2 = new_player_step(s, p).state;
    let n = s.players.len() as int;
    assert(s2.players == s.players.push(PlayerView { name, ..p }));
    assert(s2.names == s.names.push(name));
    assert forall|i: int| 0 <= i < s2.players.len() implies s2.names.contains((#[trigger] s2.players[i]).name) by {
        if i == n {
            assert(s2.names[s.names.len() as int] == name);
        } else {
            assert(s2.players[i] == s.players[i]);
            let k = choose|k: int| 0 <= k < s.names.len() && s.names[k] == s.players[i].name;
            assert(s2.names[k] == s.names[k]);
        }
    }
    assert forall|k: int| 0 <= k < s2.names.len() implies has_player_named(s2, #[trigger] s2.names[k]) by {
        if k == s.names.len() {
            assert(s2.players[n].name == s2.names[k]);
        } else {
            let i = choose|i: int| 0 <= i < s.players.len() && #[trigger] s.players[i].name == s.names[k];
            assert(s2.players[i] == s.players[i]);
            assert(s2.players[i].name == s2.names[k]);
        }
    }
    assert forall|a: int, b: int| 0 <= a < s2.players.len() && 0 <= b < s2.players.len() && a != b
        implies #[trigger] s2.players[a].name != #[trigger] s2.players[b].name by {
        if a == n {
            assert(s.names.contains(s.players[b].name));
        } else if b == n {
            assert(s.names.contains(s.players[a].name));
        } else {
            assert(s.players[a].name != s.players[b].name);
        }
    }
}

/// Leaving a lobby keeps the names in use and the players' ids and names.
proof fn lemma_leave_names(s: ServerModel, pid: PlayerId)
    ensures
        leave_step(s, pid).state.names == s.names,
        leave_step(s, pid).state.players.len() == s.players.len(),
        forall|i: int| 0 <= i < s.players.len() ==> (#[trigger] leave_step(s, pid).state.players[i]).id == s.players[i].id
            && leave_step(s, pid).state.players[i].name == s.players[i].name,
{
    lemma_player_bounds(s, pid);
}

proof fn lemma_disconnect_names(s: ServerModel, pid: PlayerId)
    requires
        names_of_players(s),
    ensures
        names_of_players(disconnect_step(s, pid).state),
{
    lemma_leave_names(s, pid);
    let s1 = leave_step(s, pid).state;
    lemma_same_names(s, s1);
    lemma_find_first(s1.players, |p: PlayerView| p.id == pid);
    if let Some(i0) = player_index(s1.players, pid) {
        let x = s1.players[i0].name;
        let s2 = disconnect_step(s, pid).state;
        let ps = s1.players.remove(i0);
        assert(s2.players == ps);
        assert(s2.names == set_remove(s1.names, x));
        lemma_find_first(s1.names, eq_to(x));
        assert(s1.names.contains(x));
        let k0 = find_first(s1.names, eq_to(x))->0;
        if find_first(s1.names, eq_to(x)) is None {
            let k = choose|k: int| 0 <= k < s1.names.len() && s1.names[k] == x;
            assert(!(eq_to(x))(s1.names[k]));
        }
        assert(s1.names[k0] == x);
        let ns = s1.names.remove(k0);
        assert(s2.names == ns);
        lemma_set_remove(s1.names, x);
        assert forall|i: int| 0 <= i < ps.len() implies #[trigger] ps[i] == s1.players[if i < i0 { i } else { i + 1 }] by {}
        assert forall|k: int| 0 <= k < ns.len() implies #[trigger] ns[k] == s1.names[if k < k0 { k } else { k + 1 }] by {}
        assert forall|i: int| 0 <= i < s2.players.len() implies s2.names.contains((#[trigger] s2.players[i]).name) by {
            let i2 = if i < i0 { i } else { i + 1 };
            assert(ps[i] == s1.players[i2]);
            assert(s1.players[i2].name != x);
            let k = choose|k: int| 0 <= k < s1.names.len() && s1.names[k] == s1.players[i2].name;
            assert(k != k0);
            let k2 = if k < k0 { k } else { k - 1 };
            assert(ns[k2] == s1.names[k]);
        }
        assert forall|k: int| 0 <= k < s2.names.len() implies has_player_named(s2, #[trigger] s2.names[k]) by {
            let k2 = if k < k0 { k } else { k + 1 };
            assert(ns[k] == s1.names[k2]);
            assert(s1.names[k2] != x) by {
                assert(s1.names[k2] != s1.names[k0]);
            }
            let i = choose|i: int| 0 <= i < s1.players.len() && #[trigger] s1.players[i].name == s1.names[k2];
            assert(i != i0);
            let i2 = if i < i0 { i } else { i - 1 };
            assert(ps[i2] == s1.players[i]);
            assert(s2.players[i2].name == s2.names[k]);
        }
        assert forall|a: int, b: int| 0 <= a < s2.players.len() && 0 <= b < s2.players.len() && a != b
            implies #[trigger] s2.players[a].name != #[trigger] s2.players[b].name by {
            let a2 = if a < i0 { a } else { a + 1 };
            let b2 = if b < i0 { b } else { b + 1 };
            assert(ps[a] == s1.players[a2]);
            assert(ps[b] == s1.players[b2]);
            assert(s1.players[a2].name != s1.players[b2].name);
        }
    } else {
        assert(disconnect_step(s, pid).state == s1);
    }
}

/// Handling a message keeps the names in use exactly the connected
/// players' names, none in use twice and no two players alike, provided that
/// a new connection brings an id not in use.
pub proof fn lemma_handle_keeps_player_names(s: ServerModel, msg: InternalMessage, fresh: LobbyId)
    requires
        names_of_players(s),
        msg matches InternalMessage::NewPlayer(p) ==> player_index(s.players, p@.id) is None,
    ensures
        names_of_players(handle_step(s, msg, fresh).0.state),
{
    let s2 = handle_step(s, msg, fresh).0.state;
    match msg {
        InternalMessage::NewPlayer(p) => {
            lemma_new_player_names(s, p@);
        },
        InternalMessage::PlayerDisconnected(pid) => {
            lemma_disconnect_names(s, pid);
        },
        InternalMessage::PlayerMessage { player, message } => match message {
            ClientToLobby::Disconnect => {
                lemma_disconnect_names(s, player);
            },
            ClientToLobby::LeaveCurrentLobby => {
                lemma_leave_names(s, player);
                lemma_same_names(s, s2);
            },
            ClientToLobby::KickPlayer(k) => {
                lemma_leave_names(s, k);
                lemma_same_names(s, s2);
            },
            ClientToLobby::CreateAndJoinLobby => {
                lemma_find_first(s.players, |p: PlayerView| p.id == player);
                lemma_same_names(s, s2);
            },
            ClientToLobby::JoinLobby(lid) => {
                lemma_find_first(s.players, |p: PlayerView| p.id == player);
                lemma_same_names(s, s2);
            },
            _ => {
                assert(s2.players == s.players && s2.names == s.names);
                lemma_same_names(s, s2);
            },
        },
        _ => {
            assert(s2.players == s.players && s2.names == s.names);
            lemma_same_names(s, s2);
        },
    }
}

/// Reading a player's address again keeps every lobby led by one of its
/// players, the names and ports in use distinct, and the names in use those
/// of the players.
pub proof fn lemma_network_keeps_invariants(s: ServerModel, pid: PlayerId, is_ipv4: bool, is_local: bool)
    requires
        lobbies_led(s),
        distinct_in_use(s),
        names_of_players(s),
    ensures
        lobbies_led(network_step(s, pid, is_ipv4, is_local)),
        distinct_in_use(network_step(s, pid, is_ipv4, is_local)),
        names_of_players(network_step(s, pid, is_ipv4, is_local)),
{
    lemma_find_first(s.players, |p: PlayerView| p.id == pid);
    lemma_same_names(s, network_step(s, pid, is_ipv4, is_local));
}

} // verus!
