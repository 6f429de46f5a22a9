//! The game client's side of the lobby: what it does with each message of
//! the lobby server, and its copy of the lobby it is in.

use vstd::prelude::*;
use crate::ids::{LobbyId, PlayerId, Team};
use crate::champions::ChampionId;
use crate::protocol::{ClientToLobby, LobbyInfo, LobbyShortInfo, LobbyToClient, PlayerInfo};
use crate::teams::{find_player, find_player_spec, in_teams, swap_players, swapped, teams_view};
use crate::server::{change_team_step, own_lobby, led_lobby, switch_step, MsgView, EffectView, ServerModel};

verus! {

/// What the client does with a message of the lobby server.
#[derive(Debug)]
pub enum ClientReaction {
    /// Ask to join this lobby (the client joins the first lobby it sees).
    JoinLobby(LobbyId),
    /// Show the lobby list.
    ShowLobbyList(Vec<LobbyShortInfo>),
    /// Nothing.
    Ignore,
    LobbyInfoReceived(LobbyInfo),
    WeJoinedLobby(LobbyId),
    WeLeftLobby,
    /// The lobby's players changed (a player joined or left).
    PlayerLeftLobby(PlayerId),
    PlayerInfoReceived(PlayerInfo),
    PlayerChangedTeam(PlayerId, Team),
    PlayerChangedPositions(PlayerId, PlayerId),
    GoToChampSelect,
    ReturnFromChampSelect,
    PlayerSelectedChamp(PlayerId, ChampionId),
    PlayerLockedSelection(PlayerId),
    /// Connect to the game server with this token.
    ConnectToGame(Vec<u8>),
}

/// What the client does with a message: a lobby list makes it join the
/// first lobby when it is set to (and there is one), else it is shown when
/// the lobby list is on screen; a player who joined is announced as a
/// change of the lobby's players, as one who left is; each other message
/// becomes the event of the same name.
pub fn react(msg: LobbyToClient, auto_join_first: bool, showing_lobby_list: bool) -> (r: ClientReaction)
    requires
        !(msg is Handshake),
    ensures
        match msg {
            LobbyToClient::LobbyList(v) => if auto_join_first && v@.len() > 0 {
                r == ClientReaction::JoinLobby(v@[0].id)
            } else if showing_lobby_list {
                r == ClientReaction::ShowLobbyList(v)
            } else {
                r == ClientReaction::Ignore
            },
            LobbyToClient::LobbyInfo(i) => r == ClientReaction::LobbyInfoReceived(i),
            LobbyToClient::YouJoinedLobby(l) => r == ClientReaction::WeJoinedLobby(l),
            LobbyToClient::YouLeftLobby => r == ClientReaction::WeLeftLobby,
            LobbyToClient::PlayerJoinedLobby(p) => r == ClientReaction::PlayerLeftLobby(p),
            LobbyToClient::PlayerLeftLobby(p) => r == ClientReaction::PlayerLeftLobby(p),
            LobbyToClient::PlayerInfo(i) => r == ClientReaction::PlayerInfoReceived(i),
            LobbyToClient::PlayerChangedTeam(p, t) => r == ClientReaction::PlayerChangedTeam(p, t),
            LobbyToClient::PlayerChangedPositions(a, b) => r == ClientReaction::PlayerChangedPositions(a, b),
            LobbyToClient::GoToChampSelect => r == ClientReaction::GoToChampSelect,
            LobbyToClient::ReturnFromChampSelect => r == ClientReaction::ReturnFromChampSelect,
            LobbyToClient::PlayerSelectedChamp(p, c) => r == ClientReaction::PlayerSelectedChamp(p, c),
            LobbyToClient::PlayerLockedSelection(p) => r == ClientReaction::PlayerLockedSelection(p),
            LobbyToClient::GameStarted(token) => r == ClientReaction::ConnectToGame(token),
            LobbyToClient::Handshake { .. } => false,
        },
{
    match msg {
        LobbyToClient::LobbyList(v) => {
            if auto_join_first && v.len() > 0 {
                ClientReaction::JoinLobby(v[0].id)
            } else if showing_lobby_list {
                ClientReaction::ShowLobbyList(v)
            } else {
                ClientReaction::Ignore
            }
        },
        LobbyToClient::LobbyInfo(i) => ClientReaction::LobbyInfoReceived(i),
        LobbyToClient::YouJoinedLobby(l) => ClientReaction::WeJoinedLobby(l),
        LobbyToClient::YouLeftLobby => ClientReaction::WeLeftLobby,
        LobbyToClient::PlayerJoinedLobby(p) => ClientReaction::PlayerLeftLobby(p),
        LobbyToClient::PlayerLeftLobby(p) => ClientReaction::PlayerLeftLobby(p),
        LobbyToClient::PlayerInfo(i) => ClientReaction::PlayerInfoReceived(i),
        LobbyToClient::PlayerChangedTeam(p, t) => ClientReaction::PlayerChangedTeam(p, t),
        LobbyToClient::PlayerChangedPositions(a, b) => ClientReaction::PlayerChangedPositions(a, b),
        LobbyToClient::GoToChampSelect => ClientReaction::GoToChampSelect,
        LobbyToClient::ReturnFromChampSelect => ClientReaction::ReturnFromChampSelect,
        LobbyToClient::PlayerSelectedChamp(p, c) => ClientReaction::PlayerSelectedChamp(p, c),
        LobbyToClient::PlayerLockedSelection(p) => ClientReaction::PlayerLockedSelection(p),
        LobbyToClient::GameStarted(token) => ClientReaction::ConnectToGame(token),
        LobbyToClient::Handshake { .. } => ClientReaction::Ignore,
    }
}

/// The player id that the lobby server gives in its answer to the client's
/// handshake; any other answer is an invalid handshake.
pub fn handshake_id(msg: &LobbyToClient) -> (r: Option<PlayerId>)
    ensures
        r == match msg {
            LobbyToClient::Handshake { id } => Some(*id),
            _ => None::<PlayerId>,
        },
{
    match msg {
        LobbyToClient::Handshake { id } => Some(*id),
        _ => None,
    }
}

/// How the client finds a lobby by itself.
#[derive(Debug, Clone, Copy, PartialEq, Eq, Structural)]
pub enum LobbyMode {
    /// It does not (written `none`).
    Manual,
    /// It creates a lobby.
    AutoCreate,
    /// It joins the first lobby of the list.
    AutoJoinFirst,
}

impl LobbyMode {
    /// The mode as it is written on the command line.
    pub fn name(&self) -> (r: &'static str)
        ensures
            r@ == match self {
                LobbyMode::Manual => "none"@,
                LobbyMode::AutoCreate => "auto-create"@,
                LobbyMode::AutoJoinFirst => "auto-join-first"@,
            },
    {
        match self {
            LobbyMode::Manual => "none",
            LobbyMode::AutoCreate => "auto-create",
            LobbyMode::AutoJoinFirst => "auto-join-first",
        }
    }

    /// What the client asks for when it comes to the lobby list: a new lobby,
    /// the first time when it is set to create one (the mode is then
    /// cleared), else the list of lobbies.
    pub fn on_lobby_list(&mut self) -> (r: ClientToLobby)
        ensures
            *old(self) == LobbyMode::AutoCreate ==> *final(self) == LobbyMode::Manual && r is CreateAndJoinLobby,
            *old(self) != LobbyMode::AutoCreate ==> *final(self) == *old(self) && r is FetchLobbyList,
    {
        match self {
            LobbyMode::AutoCreate => {
                *self = LobbyMode::Manual;
                ClientToLobby::CreateAndJoinLobby
            },
            _ => ClientToLobby::FetchLobbyList,
        }
    }
}

/// The client's copy of the teams after a player moved to team `to`: the
/// player leaves their place and goes to the end of team `to`; a player who
/// is not in the teams changes nothing.
pub open spec fn moved_to_team(t: Seq<Seq<PlayerId>>, mover: PlayerId, to: int) -> Seq<Seq<PlayerId>> {
    match find_player_spec(t, mover) {
        None => t,
        Some((ti, pi)) => {
            let t1 = t.update(ti, t[ti].remove(pi));
            t1.update(to, t1[to].push(mover))
        },
    }
}

/// The client's copy of the teams after two players traded places; when
/// either is not in the teams nothing changes.
pub open spec fn traded_places(t: Seq<Seq<PlayerId>>, a: PlayerId, b: PlayerId) -> Seq<Seq<PlayerId>> {
    match (find_player_spec(t, a), find_player_spec(t, b)) {
        (Some((ta, ia)), Some((tb, ib))) => swapped(t, ta, ia, tb, ib),
        _ => t,
    }
}

impl LobbyInfo {
    /// A player of the lobby moved to another team.
    pub fn on_player_changed_team(&mut self, mover: PlayerId, to: Team)
        requires
            find_player_spec(teams_view(old(self).teams@), mover) is Some ==> to.0 < old(self).teams@.len(),
        ensures
            teams_view(final(self).teams@) == moved_to_team(teams_view(old(self).teams@), mover, to.0 as int),
            final(self).teams@.len() == old(self).teams@.len(),
            final(self).short == old(self).short,
            final(self).settings == old(self).settings,
            final(self).leader == old(self).leader,
            final(self).lobby_state == old(self).lobby_state,
            final(self).selected_champs == old(self).selected_champs,
    {
        let ghost t = teams_view(self.teams@);
        match find_player(&self.teams, mover) {
            None => {},
            Some((ti, pi)) => {
                self.teams[ti].remove(pi);
                let ghost t1 = teams_view(self.teams@);
                proof {
                    assert(t1 =~= t.update(ti as int, t[ti as int].remove(pi as int)));
                }
                self.teams[to.0].push(mover);
                proof {
                    assert(teams_view(self.teams@) =~= t1.update(to.0 as int, t1[to.0 as int].push(mover)));
                }
            },
        }
    }

    /// Two players of the lobby traded places.
    pub fn on_players_traded_places(&mut self, a: PlayerId, b: PlayerId)
        ensures
            teams_view(final(self).teams@) == traded_places(teams_view(old(self).teams@), a, b),
            final(self).teams@.len() == old(self).teams@.len(),
            final(self).short == old(self).short,
            final(self).settings == old(self).settings,
            final(self).leader == old(self).leader,
            final(self).lobby_state == old(self).lobby_state,
            final(self).selected_champs == old(self).selected_champs,
    {
        let (ta, ia) = match find_player(&self.teams, a) {
            None => {
                return;
            },
            Some(x) => x,
        };
        let (tb, ib) = match find_player(&self.teams, b) {
            None => {
                return;
            },
            Some(x) => x,
        };
        swap_players(&mut self.teams, ta, ia, tb, ib);
    }
}

/// The client's copy of a lobby follows the server when a player of the
/// lobby changes team: the server tells the lobby `PlayerChangedTeam`, and a
/// copy of the teams as they were, on which the client applies that move,
/// equals the server's new teams.
pub proof fn lemma_copy_follows_team_change(s: ServerModel, pid: PlayerId, mover: PlayerId, team: Team)
    requires
        change_team_step(s, pid, mover, team).result is Ok,
        match own_lobby(s, pid) {
            Ok(j) => in_teams(s.lobbies[j].teams, mover),
            Err(_) => true,
        },
    ensures
        match own_lobby(s, pid) {
            Ok(j) => moved_to_team(s.lobbies[j].teams, mover, team.0 as int)
                == change_team_step(s, pid, mover, team).state.lobbies[j].teams,
            Err(_) => false,
        },
{
    crate::server::lemma_own_lobby_bounds(s, pid);
    if let Ok(j) = own_lobby(s, pid) {
        crate::teams::lemma_in_teams_found(s.lobbies[j].teams, mover);
    }
}

/// The client's copy of a lobby follows the server when two players trade
/// places: applying the `PlayerChangedPositions` that the server tells the
/// lobby to a copy of the teams as they were gives the server's new teams.
pub proof fn lemma_copy_follows_trade(s: ServerModel, pid: PlayerId, a: PlayerId, b: PlayerId)
    requires
        switch_step(s, pid, a, b).result is Ok,
    ensures
        match led_lobby(s, pid) {
            Ok(j) => traded_places(s.lobbies[j].teams, a, b) == switch_step(s, pid, a, b).state.lobbies[j].teams,
            Err(_) => false,
        },
{
    crate::server::lemma_own_lobby_bounds(s, pid);
}

} // verus!
