//! The lobby server's state machine: players, lobbies and the ports of the
//! game servers it starts. Each internal message is handled by one step from
//! state and message to the next state and the effects to perform (messages
//! to send); the server's I/O loop performs them.

use vstd::prelude::*;
use crate::ids::{LobbyId, PlayerId, Team};
use crate::champions::ChampionId;
use crate::protocol::{
    ChampionSelection, ClientToLobby, LobbyInfo, LobbySettings, LobbyShortInfo, LobbyState,
    LobbyToClient, PlayerGameInfo, PlayerInfo, word_product,
};
use crate::options::{LaunchMode, Options, PortRange};
use crate::lobby::{Lobby, first_player, readjusted_if_needed, without_player};
use crate::teams::{find_player_spec, first_min, teams_view, total, in_teams};

verus! {

// ------------------------------------------------------------------------
// Data

/// A connected player, as the lobby server keeps it.
#[derive(Debug)]
pub struct Player {
    pub id: PlayerId,
    pub name: String,
    pub current_lobby: Option<LobbyId>,
    /// Whether the player's address is an IPv4 (or IPv4-mapped) address.
    pub is_ipv4: bool,
    /// Whether the player's address is not globally routable.
    pub is_local: bool,
}

impl Player {
    /// The player as other players see it.
    pub fn get_info(&self) -> (r: PlayerInfo)
        ensures
            r.id == self.id,
            r.name == self.name,
    {
        PlayerInfo { id: self.id, name: self.name.clone() }
    }
}

/// The messages the lobby server's loop handles.
#[derive(Debug)]
pub enum InternalMessage {
    NewPlayer(Player),
    PlayerMessage { player: PlayerId, message: ClientToLobby },
    PlayerDisconnected(PlayerId),
    InternalPortReleased(u16),
    ExternalPortReleased(u16),
    GameServerClosed(LobbyId),
    GameTokenCreated(PlayerId, Vec<u8>),
}

/// Why a message was refused.
#[derive(Debug, Clone, Copy, PartialEq, Eq, Structural)]
pub enum ServerError {
    InvalidPlayer,
    PlayerAlreadyInLobby,
    LobbyDoesntExist,
    LobbyLocked,
    LobbyFull,
    LobbyNotOpen,
    PlayerDoesntExist,
    PlayerNotInLobby,
    NotLobbyLeader,
    InvalidTeam,
    TeamFull,
    SwitchWithSelf,
    NoPlayerA,
    NoPlayerB,
    PlayerToKickNotInLobby,
    SelectionLocked,
    NoSelection,
    NotAllSelected,
    NotAllLocked,
    NoInternalPort,
    NoExternalPort,
    SelectionAlreadyLocked,
    IncompleteRoster,
    LaunchFailed,
}

/// Something the server's loop has to do after a step.
#[derive(Debug)]
pub enum Effect {
    /// Send a message to a player.
    Send(PlayerId, LobbyToClient),
    /// Send a message to each of the players.
    Broadcast(Vec<PlayerId>, LobbyToClient),
    /// Post `GameServerClosed` for the lobby to the server's own queue.
    CloseGame(LobbyId),
}

/// A game server that is to be started.
#[derive(Debug)]
pub struct GameLaunch {
    pub lobby: LobbyId,
    pub internal_port: u16,
    pub external_port: u16,
    pub launch_mode: LaunchMode,
    pub settings: LobbySettings,
    pub players: Vec<PlayerGameInfo>,
    /// The player whose locked selection completed the lobby.
    pub locking_player: PlayerId,
}

/// The result of a step.
#[derive(Debug)]
pub struct Outcome {
    pub effects: Vec<Effect>,
    pub result: Result<(), ServerError>,
    /// A game server to start; the loop reports back with `finish_launch`.
    pub launch: Option<GameLaunch>,
}

/// The lobby server's state.
#[derive(Debug)]
pub struct State {
    pub options: Options,
    pub players: Vec<Player>,
    pub used_player_names: Vec<String>,
    pub lobbies: Vec<Lobby>,
    pub used_internal_ports: Vec<u16>,
    pub used_external_ports: Vec<u16>,
}

// ------------------------------------------------------------------------
// Models

/// Lobby settings, with the name as characters.
#[verifier::ext_equal]
pub struct SettingsView {
    pub name: Seq<char>,
    pub locked: bool,
    pub team_count: usize,
    pub max_players_per_team: usize,
}

impl View for LobbySettings {
    type V = SettingsView;

    open spec fn view(&self) -> SettingsView {
        SettingsView {
            name: self.name@,
            locked: self.locked,
            team_count: self.team_count,
            max_players_per_team: self.max_players_per_team,
        }
    }
}

/// A champion selection, with the champion id as characters.
#[verifier::ext_equal]
pub struct SelectionView {
    pub champ: Seq<char>,
    pub locked: bool,
}

impl View for ChampionSelection {
    type V = SelectionView;

    open spec fn view(&self) -> SelectionView {
        SelectionView { champ: self.id.0@, locked: self.locked }
    }
}

/// The selections of a lobby as views.
pub open spec fn selections_view(s: Seq<(PlayerId, ChampionSelection)>) -> Seq<(PlayerId, SelectionView)> {
    s.map_values(|e: (PlayerId, ChampionSelection)| (e.0, e.1@))
}

/// A connected player, with the name as characters.
#[verifier::ext_equal]
pub struct PlayerView {
    pub id: PlayerId,
    pub name: Seq<char>,
    pub current_lobby: Option<LobbyId>,
    pub is_ipv4: bool,
    pub is_local: bool,
}

impl View for Player {
    type V = PlayerView;

    open spec fn view(&self) -> PlayerView {
        PlayerView {
            id: self.id,
            name: self.name@,
            current_lobby: self.current_lobby,
            is_ipv4: self.is_ipv4,
            is_local: self.is_local,
        }
    }
}

/// A lobby, with its lists as sequences.
#[verifier::ext_equal]
pub struct LobbyModel {
    pub id: LobbyId,
    pub settings: SettingsView,
    pub teams: Seq<Seq<PlayerId>>,
    pub leader: PlayerId,
    pub state: LobbyState,
    pub selected: Seq<(PlayerId, SelectionView)>,
}

impl View for Lobby {
    type V = LobbyModel;

    open spec fn view(&self) -> LobbyModel {
        LobbyModel {
            id: self.id,
            settings: self.settings@,
            teams: teams_view(self.teams@),
            leader: self.leader,
            state: self.lobby_state,
            selected: selections_view(self.selected_champs@),
        }
    }
}

/// The lobby server's state, with its lists as sequences.
#[verifier::ext_equal]
pub struct ServerModel {
    pub options: Options,
    pub players: Seq<PlayerView>,
    pub names: Seq<Seq<char>>,
    pub lobbies: Seq<LobbyModel>,
    pub internal: Seq<u16>,
    pub external: Seq<u16>,
}

impl View for State {
    type V = ServerModel;

    open spec fn view(&self) -> ServerModel {
        ServerModel {
            options: self.options,
            players: self.players@.map_values(|p: Player| p@),
            names: self.used_player_names@.map_values(|n: String| n@),
            lobbies: self.lobbies@.map_values(|l: Lobby| l@),
            internal: self.used_internal_ports@,
            external: self.used_external_ports@,
        }
    }
}

/// A lobby as the lobby list shows it, with the name as characters.
#[verifier::ext_equal]
pub struct ShortInfoView {
    pub id: LobbyId,
    pub name: Seq<char>,
    pub player_count: usize,
    pub max_player_count: usize,
}

impl View for LobbyShortInfo {
    type V = ShortInfoView;

    open spec fn view(&self) -> ShortInfoView {
        ShortInfoView {
            id: self.id,
            name: self.name@,
            player_count: self.player_count,
            max_player_count: self.max_player_count,
        }
    }
}

/// Everything a client is told of a lobby, with its lists as sequences.
#[verifier::ext_equal]
pub struct LobbyInfoView {
    pub short: ShortInfoView,
    pub settings: SettingsView,
    pub teams: Seq<Seq<PlayerId>>,
    pub leader: PlayerId,
    pub state: LobbyState,
    pub selected: Seq<(PlayerId, SelectionView)>,
}

impl View for LobbyInfo {
    type V = LobbyInfoView;

    open spec fn view(&self) -> LobbyInfoView {
        LobbyInfoView {
            short: self.short@,
            settings: self.settings@,
            teams: teams_view(self.teams@),
            leader: self.leader,
            state: self.lobby_state,
            selected: selections_view(self.selected_champs@),
        }
    }
}

/// A message to a client, with its lists as sequences.
pub enum MsgView {
    Handshake { id: PlayerId },
    LobbyList(Seq<ShortInfoView>),
    LobbyInfo(LobbyInfoView),
    YouJoinedLobby(LobbyId),
    YouLeftLobby,
    PlayerJoinedLobby(PlayerId),
    PlayerLeftLobby(PlayerId),
    PlayerInfo(PlayerId, Seq<char>),
    PlayerChangedTeam(PlayerId, Team),
    PlayerChangedPositions(PlayerId, PlayerId),
    GoToChampSelect,
    ReturnFromChampSelect,
    PlayerSelectedChamp(PlayerId, Seq<char>),
    PlayerLockedSelection(PlayerId),
    GameStarted(Seq<u8>),
}

impl View for LobbyToClient {
    type V = MsgView;

    open spec fn view(&self) -> MsgView {
        match self {
            LobbyToClient::Handshake { id } => MsgView::Handshake { id: *id },
            LobbyToClient::LobbyList(v) => MsgView::LobbyList(v@.map_values(|i: LobbyShortInfo| i@)),
            LobbyToClient::LobbyInfo(i) => MsgView::LobbyInfo(i@),
            LobbyToClient::YouJoinedLobby(l) => MsgView::YouJoinedLobby(*l),
            LobbyToClient::YouLeftLobby => MsgView::YouLeftLobby,
            LobbyToClient::PlayerJoinedLobby(p) => MsgView::PlayerJoinedLobby(*p),
            LobbyToClient::PlayerLeftLobby(p) => MsgView::PlayerLeftLobby(*p),
            LobbyToClient::PlayerInfo(i) => MsgView::PlayerInfo(i.id, i.name@),
            LobbyToClient::PlayerChangedTeam(p, t) => MsgView::PlayerChangedTeam(*p, *t),
            LobbyToClient::PlayerChangedPositions(a, b) => MsgView::PlayerChangedPositions(*a, *b),
            LobbyToClient::GoToChampSelect => MsgView::GoToChampSelect,
            LobbyToClient::ReturnFromChampSelect => MsgView::ReturnFromChampSelect,
            LobbyToClient::PlayerSelectedChamp(p, c) => MsgView::PlayerSelectedChamp(*p, c.0@),
            LobbyToClient::PlayerLockedSelection(p) => MsgView::PlayerLockedSelection(*p),
            LobbyToClient::GameStarted(v) => MsgView::GameStarted(v@),
        }
    }
}

/// An effect, with its lists as sequences.
pub enum EffectView {
    Send(PlayerId, MsgView),
    Broadcast(Seq<PlayerId>, MsgView),
    CloseGame(LobbyId),
}

impl View for Effect {
    type V = EffectView;

    open spec fn view(&self) -> EffectView {
        match self {
            Effect::Send(p, m) => EffectView::Send(*p, m@),
            Effect::Broadcast(ps, m) => EffectView::Broadcast(ps@, m@),
            Effect::CloseGame(l) => EffectView::CloseGame(*l),
        }
    }
}

/// The effects of a list, as views.
pub open spec fn effects_view(v: Seq<Effect>) -> Seq<EffectView> {
    v.map_values(|e: Effect| e@)
}

/// A player of a game about to start, with the strings as characters.
#[verifier::ext_equal]
pub struct SeatView {
    pub id: PlayerId,
    pub name: Seq<char>,
    pub team: Team,
    pub champ: Seq<char>,
    pub is_ipv4: bool,
    pub is_local: bool,
}

impl View for PlayerGameInfo {
    type V = SeatView;

    open spec fn view(&self) -> SeatView {
        SeatView {
            id: self.id,
            name: self.name@,
            team: self.team,
            champ: self.champ.0@,
            is_ipv4: self.is_ipv4,
            is_local: self.is_local,
        }
    }
}

/// A game server that is to be started, with its lists as sequences.
#[verifier::ext_equal]
pub struct LaunchView {
    pub lobby: LobbyId,
    pub internal_port: u16,
    pub external_port: u16,
    pub launch_mode: LaunchMode,
    pub settings: SettingsView,
    pub players: Seq<SeatView>,
    pub locking_player: PlayerId,
}

impl View for GameLaunch {
    type V = LaunchView;

    open spec fn view(&self) -> LaunchView {
        LaunchView {
            lobby: self.lobby,
            internal_port: self.internal_port,
            external_port: self.external_port,
            launch_mode: self.launch_mode,
            settings: self.settings@,
            players: self.players@.map_values(|g: PlayerGameInfo| g@),
            locking_player: self.locking_player,
        }
    }
}

// ------------------------------------------------------------------------
// Lookups

/// The index of the first element of `s` for which `f` holds.
pub open spec fn find_first<A>(s: Seq<A>, f: spec_fn(A) -> bool) -> Option<int>
    decreases s.len(),
{
    if s.len() == 0 {
        None
    } else {
        match find_first(s.drop_last(), f) {
            Some(i) => Some(i),
            None => if f(s.last()) {
                Some(s.len() - 1)
            } else {
                None
            },
        }
    }
}

/// `r` is where `f` first holds in `s`, if anywhere.
pub open spec fn is_first<A>(s: Seq<A>, f: spec_fn(A) -> bool, r: Option<int>) -> bool {
    match r {
        Some(i) => 0 <= i < s.len() && f(s[i]) && forall|j: int| 0 <= j < i ==> !f(#[trigger] s[j]),
        None => forall|j: int| 0 <= j < s.len() ==> !f(#[trigger] s[j]),
    }
}

pub proof fn lemma_find_first<A>(s: Seq<A>, f: spec_fn(A) -> bool)
    ensures
        is_first(s, f, find_first(s, f)),
    decreases s.len(),
{
    if s.len() > 0 {
        lemma_find_first(s.drop_last(), f);
        match find_first(s.drop_last(), f) {
            Some(i) => {
                assert forall|j: int| 0 <= j < i implies !f(#[trigger] s[j]) by {
                    assert(s[j] == s.drop_last()[j]);
                }
                assert(s[i] == s.drop_last()[i]);
            },
            None => {
                assert forall|j: int| 0 <= j < s.len() - 1 implies !f(#[trigger] s[j]) by {
                    assert(s[j] == s.drop_last()[j]);
                }
            },
        }
    }
}

pub proof fn lemma_is_first_unique<A>(s: Seq<A>, f: spec_fn(A) -> bool, r: Option<int>)
    requires
        is_first(s, f, r),
    ensures
        find_first(s, f) == r,
{
    lemma_find_first(s, f);
    let q = find_first(s, f);
    match (q, r) {
        (Some(a), Some(b)) => {
            if a < b {
                assert(!f(s[a]));
            }
            if b < a {
                assert(!f(s[b]));
            }
        },
        (Some(a), None) => {
            assert(!f(s[a]));
        },
        (None, Some(b)) => {
            assert(!f(s[b]));
        },
        (None, None) => {},
    }
}

/// Where the player with this id is kept.
pub open spec fn player_index(ps: Seq<PlayerView>, id: PlayerId) -> Option<int> {
    find_first(ps, |p: PlayerView| p.id == id)
}

/// Where the lobby with this id is kept.
pub open spec fn lobby_index(ls: Seq<LobbyModel>, id: LobbyId) -> Option<int> {
    find_first(ls, |l: LobbyModel| l.id == id)
}

/// Where this player's champion selection is kept.
pub open spec fn selection_index(sel: Seq<(PlayerId, SelectionView)>, id: PlayerId) -> Option<int> {
    find_first(sel, selection_of(id))
}

/// Whether a selection entry is the one of player `id`, as a predicate.
pub open spec fn selection_of(id: PlayerId) -> spec_fn((PlayerId, SelectionView)) -> bool {
    |e: (PlayerId, SelectionView)| e.0 == id
}

/// The players of the teams, team by team, that pass `f`.
pub open spec fn members_where(t: Seq<Seq<PlayerId>>, f: spec_fn(PlayerId) -> bool) -> Seq<PlayerId>
    decreases t.len(),
{
    if t.len() == 0 {
        Seq::empty()
    } else {
        members_where(t.drop_last(), f) + t.last().filter(f)
    }
}

/// Who a lobby-wide message reaches: the lobby's players, team by team,
/// that are connected, except `exclude`.
pub open spec fn recipients(s: ServerModel, l: LobbyModel, exclude: Option<PlayerId>) -> Seq<PlayerId> {
    members_where(l.teams, |p: PlayerId| exclude != Some(p) && player_index(s.players, p) is Some)
}

/// Sending a message to a player: nothing happens when there is no such player.
pub open spec fn send(s: ServerModel, to: PlayerId, m: MsgView) -> Seq<EffectView> {
    if player_index(s.players, to) is Some {
        seq![EffectView::Send(to, m)]
    } else {
        Seq::empty()
    }
}

/// Sending a message to a lobby's players: nothing happens when there is no such lobby.
pub open spec fn broadcast(s: ServerModel, lobby: LobbyId, exclude: Option<PlayerId>, m: MsgView) -> Seq<EffectView> {
    match lobby_index(s.lobbies, lobby) {
        Some(j) => seq![EffectView::Broadcast(recipients(s, s.lobbies[j], exclude), m)],
        None => Seq::empty(),
    }
}

impl State {
    /// Where the player with this id is kept.
    pub fn player_position(&self, id: PlayerId) -> (r: Option<usize>)
        ensures
            r matches Some(i) ==> i < self.players@.len(),
            match r {
                Some(i) => player_index(self@.players, id) == Some(i as int),
                None => player_index(self@.players, id) is None,
            },
    {
        let mut i: usize = 0;
        while i < self.players.len()
            invariant
                i <= self.players@.len(),
                forall|j: int| 0 <= j < i ==> #[trigger] self.players@[j].id != id,
            decreases self.players.len() - i,
        {
            if self.players[i].id == id {
                proof {
                    assert(self@.players[i as int].id == id);
                    lemma_is_first_unique(self@.players, |p: PlayerView| p.id == id, Some(i as int));
                }
                return Some(i);
            }
            i = i + 1;
        }
        proof {
            assert forall|j: int| 0 <= j < self@.players.len() implies !((|p: PlayerView| p.id == id)(#[trigger] self@.players[j])) by {
                assert(self@.players[j].id == self.players@[j].id);
            }
            lemma_is_first_unique(self@.players, |p: PlayerView| p.id == id, None);
        }
        None
    }

    /// Where the lobby with this id is kept.
    pub fn lobby_position(&self, id: LobbyId) -> (r: Option<usize>)
        ensures
            r matches Some(i) ==> i < self.lobbies@.len(),
            match r {
                Some(i) => lobby_index(self@.lobbies, id) == Some(i as int),
                None => lobby_index(self@.lobbies, id) is None,
            },
    {
        let mut i: usize = 0;
        while i < self.lobbies.len()
            invariant
                i <= self.lobbies@.len(),
                forall|j: int| 0 <= j < i ==> #[trigger] self.lobbies@[j].id != id,
            decreases self.lobbies.len() - i,
        {
            if self.lobbies[i].id == id {
                proof {
                    assert(self@.lobbies[i as int].id == id);
                    lemma_is_first_unique(self@.lobbies, |l: LobbyModel| l.id == id, Some(i as int));
                }
                return Some(i);
            }
            i = i + 1;
        }
        proof {
            assert forall|j: int| 0 <= j < self@.lobbies.len() implies !((|l: LobbyModel| l.id == id)(#[trigger] self@.lobbies[j])) by {
                assert(self@.lobbies[j].id == self.lobbies@[j].id);
            }
            lemma_is_first_unique(self@.lobbies, |l: LobbyModel| l.id == id, None);
        }
        None
    }

    /// The players of a lobby that a lobby-wide message reaches.
    pub fn recipients_of(&self, li: usize, exclude: Option<PlayerId>) -> (r: Vec<PlayerId>)
        requires
            li < self.lobbies@.len(),
        ensures
            r@ == recipients(self@, self@.lobbies[li as int], exclude),
    {
        let ghost f = |p: PlayerId| exclude != Some(p) && player_index(self@.players, p) is Some;
        let ghost t = self@.lobbies[li as int].teams;
        let teams = &self.lobbies[li].teams;
        let mut r: Vec<PlayerId> = Vec::new();
        let mut i: usize = 0;
        while i < teams.len()
            invariant
                t == teams_view(teams@),
                teams == &self.lobbies@[li as int].teams,
                f == (|p: PlayerId| exclude != Some(p) && player_index(self@.players, p) is Some),
                i <= teams@.len(),
                r@ == members_where(t.take(i as int), f),
            decreases teams.len() - i,
        {
            let team = &teams[i];
            let mut k: usize = 0;
            let ghost before = r@;
            while k < team.len()
                invariant
                    t == teams_view(teams@),
                    f == (|p: PlayerId| exclude != Some(p) && player_index(self@.players, p) is Some),
                    i < teams@.len(),
                    team@ == t[i as int],
                    k <= team@.len(),
                    before == members_where(t.take(i as int), f),
                    r@ == before + team@.take(k as int).filter(f),
                decreases team.len() - k,
            {
                let p = team[k];
                let not_excluded = match exclude {
                    Some(x) => x != p,
                    None => true,
                };
                let connected = self.player_position(p).is_some();
                let keep = not_excluded && connected;
                proof {
                    assert(not_excluded == (exclude != Some(p)));
                    assert(connected == (player_index(self@.players, p) is Some));
                }
                proof {
                    assert(team@.take(k as int + 1).drop_last() =~= team@.take(k as int));
                    assert(team@.take(k as int + 1).last() == p);
                    assert(keep == f(p));
                    reveal_with_fuel(Seq::filter, 1);
                    assert(team@.take(k as int + 1).filter(f) == if f(p) {
                        team@.take(k as int).filter(f).push(p)
                    } else {
                        team@.take(k as int).filter(f)
                    });
                }
                if keep {
                    r.push(p);
                }
                k = k + 1;
                proof {
                    assert(r@ =~= before + team@.take(k as int).filter(f));
                }
            }
            proof {
                assert(team@.take(k as int) =~= team@);
                assert(t.take(i as int + 1).drop_last() =~= t.take(i as int));
            }
            i = i + 1;
        }
        proof {
            assert(t.take(i as int) =~= t);
        }
        r
    }
}

// ------------------------------------------------------------------------
// Steps

/// The result of a step: the next state, the effects, and whether the
/// message was accepted.
#[verifier::ext_equal]
pub struct StepView {
    pub state: ServerModel,
    pub effects: Seq<EffectView>,
    pub result: Result<(), ServerError>,
}

/// A step that changes nothing and has no effects.
pub open spec fn no_step(s: ServerModel, r: Result<(), ServerError>) -> StepView {
    StepView { state: s, effects: Seq::empty(), result: r }
}

/// An outcome and the state after it realize a step.
pub open spec fn realizes(post: ServerModel, out: Outcome, step: StepView) -> bool {
    &&& post == step.state
    &&& effects_view(out.effects@) == step.effects
    &&& out.result == step.result
}

/// A lobby as the lobby list shows it.
pub open spec fn short_info(l: LobbyModel) -> ShortInfoView {
    ShortInfoView {
        id: l.id,
        name: l.settings.name,
        player_count: total(l.teams) as usize,
        max_player_count: word_product(l.settings.max_players_per_team, l.teams.len() as usize) as usize,
    }
}

/// Everything a client is told of a lobby.
pub open spec fn lobby_info(l: LobbyModel) -> LobbyInfoView {
    LobbyInfoView {
        short: short_info(l),
        settings: l.settings,
        teams: l.teams,
        leader: l.leader,
        state: l.state,
        selected: l.selected,
    }
}

/// A lobby is sound: it is set to have a team, it has one, and its player
/// count is below the machine limit.
pub open spec fn lobby_ok(l: LobbyModel) -> bool {
    &&& l.settings.team_count >= 1
    &&& l.teams.len() >= 1
    &&& total(l.teams) < usize::MAX
}

/// The server's state is sound: all its lobbies are.
pub open spec fn server_ok(s: ServerModel) -> bool {
    forall|j: int| 0 <= j < s.lobbies.len() ==> lobby_ok(#[trigger] s.lobbies[j])
}

/// The state after a player's current lobby has changed.
pub open spec fn with_player_lobby(s: ServerModel, pi: int, lobby: Option<LobbyId>) -> ServerModel {
    ServerModel { players: s.players.update(pi, PlayerView { current_lobby: lobby, ..s.players[pi] }), ..s }
}

/// The state after a lobby has changed.
pub open spec fn with_lobby(s: ServerModel, j: int, l: LobbyModel) -> ServerModel {
    ServerModel { lobbies: s.lobbies.update(j, l), ..s }
}

/// The lobbies after a lobby is put in, replacing one with the same id.
pub open spec fn insert_lobby(ls: Seq<LobbyModel>, l: LobbyModel) -> Seq<LobbyModel> {
    match lobby_index(ls, l.id) {
        Some(j) => ls.update(j, l),
        None => ls.push(l),
    }
}

/// A set kept as a sequence, after `x` is put in.
pub open spec fn set_insert<A>(v: Seq<A>, x: A) -> Seq<A> {
    if v.contains(x) {
        v
    } else {
        v.push(x)
    }
}

/// Equality to `x`, as a predicate.
pub open spec fn eq_to<A>(x: A) -> spec_fn(A) -> bool {
    |y: A| y == x
}

/// A set kept as a sequence, after `x` is taken out.
pub open spec fn set_remove<A>(v: Seq<A>, x: A) -> Seq<A> {
    match find_first(v, eq_to(x)) {
        Some(i) => v.remove(i),
        None => v,
    }
}

/// The lobby of a player, by its index.
pub open spec fn own_lobby(s: ServerModel, pid: PlayerId) -> Result<int, ServerError> {
    match player_index(s.players, pid) {
        None => Err(ServerError::PlayerDoesntExist),
        Some(pi) => match s.players[pi].current_lobby {
            None => Err(ServerError::PlayerNotInLobby),
            Some(lid) => match lobby_index(s.lobbies, lid) {
                None => Err(ServerError::LobbyDoesntExist),
                Some(j) => Ok(j),
            },
        },
    }
}

/// The lobby of a player who leads it, by its index.
pub open spec fn led_lobby(s: ServerModel, pid: PlayerId) -> Result<int, ServerError> {
    match own_lobby(s, pid) {
        Err(e) => Err(e),
        Ok(j) => if s.lobbies[j].leader != pid {
            Err(ServerError::NotLobbyLeader)
        } else {
            Ok(j)
        },
    }
}

/// The lobby that `own_lobby` and `led_lobby` find is one of the lobbies.
pub proof fn lemma_own_lobby_bounds(s: ServerModel, pid: PlayerId)
    ensures
        own_lobby(s, pid) matches Ok(j) ==> 0 <= j < s.lobbies.len(),
        led_lobby(s, pid) matches Ok(j) ==> 0 <= j < s.lobbies.len() && s.lobbies[j].leader == pid,
        led_lobby(s, pid) matches Ok(j) ==> own_lobby(s, pid) == Ok::<int, ServerError>(j),
{
    lemma_find_first(s.players, |p: PlayerView| p.id == pid);
    if let Some(pi) = player_index(s.players, pid) {
        if let Some(lid) = s.players[pi].current_lobby {
            lemma_find_first(s.lobbies, |l: LobbyModel| l.id == lid);
        }
    }
}

/// `FetchLobbyList`: the player gets the list of lobbies.
pub open spec fn fetch_lobby_list_step(s: ServerModel, pid: PlayerId) -> StepView {
    StepView {
        state: s,
        effects: send(s, pid, MsgView::LobbyList(s.lobbies.map_values(|l: LobbyModel| short_info(l)))),
        result: Ok(()),
    }
}

/// `GetLobbyInfo`: the player is told of a lobby.
pub open spec fn get_lobby_info_step(s: ServerModel, pid: PlayerId, lid: LobbyId) -> StepView {
    match lobby_index(s.lobbies, lid) {
        None => no_step(s, Err(ServerError::LobbyDoesntExist)),
        Some(j) => StepView {
            state: s,
            effects: send(s, pid, MsgView::LobbyInfo(lobby_info(s.lobbies[j]))),
            result: Ok(()),
        },
    }
}

/// `GetPlayerInfo`: the player is told of a player.
pub open spec fn get_player_info_step(s: ServerModel, pid: PlayerId, q: PlayerId) -> StepView {
    match player_index(s.players, q) {
        None => no_step(s, Err(ServerError::PlayerDoesntExist)),
        Some(i) => StepView {
            state: s,
            effects: send(s, pid, MsgView::PlayerInfo(q, s.players[i].name)),
            result: Ok(()),
        },
    }
}

/// `GameServerClosed`: the lobby returns from its game.
pub open spec fn game_closed_step(s: ServerModel, lid: LobbyId) -> StepView {
    match lobby_index(s.lobbies, lid) {
        None => no_step(s, Ok(())),
        Some(j) => {
            let l = s.lobbies[j];
            let s1 = with_lobby(s, j, LobbyModel { state: LobbyState::InLobby, selected: Seq::empty(), ..l });
            StepView { state: s1, effects: broadcast(s1, lid, None, MsgView::ReturnFromChampSelect), result: Ok(()) }
        },
    }
}

/// `GameTokenCreated`: the player gets the token to join the game.
pub open spec fn token_step(s: ServerModel, pid: PlayerId, token: Seq<u8>) -> StepView {
    StepView { state: s, effects: send(s, pid, MsgView::GameStarted(token)), result: Ok(()) }
}

/// `InternalPortReleased`: the port is free again.
pub open spec fn internal_released_step(s: ServerModel, port: u16) -> StepView {
    no_step(ServerModel { internal: set_remove(s.internal, port), ..s }, Ok(()))
}

/// `ExternalPortReleased`: the port is free again.
pub open spec fn external_released_step(s: ServerModel, port: u16) -> StepView {
    no_step(ServerModel { external: set_remove(s.external, port), ..s }, Ok(()))
}

/// The state after a player's address has been read again: whether it is an
/// IPv4 (or IPv4-mapped) address, and whether it is not globally routable.
/// Nothing happens when there is no such player.
pub open spec fn network_step(s: ServerModel, pid: PlayerId, is_ipv4: bool, is_local: bool) -> ServerModel {
    match player_index(s.players, pid) {
        None => s,
        Some(i) => ServerModel {
            players: s.players.update(i, PlayerView { is_ipv4, is_local, ..s.players[i] }),
            ..s
        },
    }
}

impl State {
    /// Records what a player's address is now, so that a game started
    /// afterwards seats the player by the address of the live connection.
    pub fn set_network(&mut self, pid: PlayerId, is_ipv4: bool, is_local: bool)
        ensures
            final(self)@ == network_step(old(self)@, pid, is_ipv4, is_local),
    {
        let ghost s0 = self@;
        match self.player_position(pid) {
            None => {},
            Some(i) => {
                self.players[i].is_ipv4 = is_ipv4;
                self.players[i].is_local = is_local;
                proof {
                    assert(self@.players =~= s0.players.update(
                        i as int,
                        PlayerView { is_ipv4, is_local, ..s0.players[i as int] },
                    ));
                }
            },
        }
    }
}

impl State {
    /// Adds the effect of sending a message to a player.
    fn send_to(&self, to: PlayerId, msg: LobbyToClient, effects: &mut Vec<Effect>)
        ensures
            effects_view(final(effects)@) == effects_view(old(effects)@) + send(self@, to, msg@),
    {
        let ghost e0 = effects_view(effects@);
        if self.player_position(to).is_some() {
            effects.push(Effect::Send(to, msg));
        }
        proof {
            assert(effects_view(effects@) =~= e0 + send(self@, to, msg@));
        }
    }

    /// Adds the effect of sending a message to a lobby's players.
    fn broadcast_to(&self, lid: LobbyId, exclude: Option<PlayerId>, msg: LobbyToClient, effects: &mut Vec<Effect>)
        ensures
            effects_view(final(effects)@) == effects_view(old(effects)@) + broadcast(self@, lid, exclude, msg@),
    {
        let ghost e0 = effects_view(effects@);
        match self.lobby_position(lid) {
            Some(j) => {
                let to = self.recipients_of(j, exclude);
                effects.push(Effect::Broadcast(to, msg));
            },
            None => {},
        }
        proof {
            assert(effects_view(effects@) =~= e0 + broadcast(self@, lid, exclude, msg@));
        }
    }

    /// `FetchLobbyList`.
    pub fn on_fetch_lobby_list(&self, pid: PlayerId) -> (out: Outcome)
        requires
            server_ok(self@),
        ensures
            realizes(self@, out, fetch_lobby_list_step(self@, pid)),
            out.launch is None,
    {
        let mut list: Vec<LobbyShortInfo> = Vec::new();
        let mut i: usize = 0;
        while i < self.lobbies.len()
            invariant
                server_ok(self@),
                i <= self.lobbies@.len(),
                list@.len() == i,
                forall|k: int| 0 <= k < i ==> (#[trigger] list@[k])@ == short_info(self@.lobbies[k]),
            decreases self.lobbies.len() - i,
        {
            proof {
                assert(lobby_ok(self@.lobbies[i as int]));
            }
            let info = self.lobbies[i].get_short_info();
            proof {
                assert(self@.lobbies[i as int] == self.lobbies@[i as int]@);
                assert(info@ == short_info(self@.lobbies[i as int]));
            }
            list.push(info);
            i = i + 1;
        }
        proof {
            assert(list@.map_values(|x: LobbyShortInfo| x@) =~= self@.lobbies.map_values(|l: LobbyModel| short_info(l)));
        }
        let mut effects: Vec<Effect> = Vec::new();
        self.send_to(pid, LobbyToClient::LobbyList(list), &mut effects);
        proof {
            assert(effects_view(effects@) =~= fetch_lobby_list_step(self@, pid).effects);
        }
        Outcome { effects, result: Ok(()), launch: None }
    }

    /// `GetLobbyInfo`.
    pub fn on_get_lobby_info(&self, pid: PlayerId, lid: LobbyId) -> (out: Outcome)
        requires
            server_ok(self@),
        ensures
            realizes(self@, out, get_lobby_info_step(self@, pid, lid)),
            out.launch is None,
    {
        let mut effects: Vec<Effect> = Vec::new();
        match self.lobby_position(lid) {
            None => {
                proof {
                    assert(effects_view(effects@) =~= Seq::<EffectView>::empty());
                }
                Outcome { effects, result: Err(ServerError::LobbyDoesntExist), launch: None }
            },
            Some(j) => {
                proof {
                    assert(lobby_ok(self@.lobbies[j as int]));
                }
                let info = self.lobbies[j].get_info();
                proof {
                    assert(info@ =~= lobby_info(self@.lobbies[j as int]));
                }
                self.send_to(pid, LobbyToClient::LobbyInfo(info), &mut effects);
                proof {
                    assert(effects_view(effects@) =~= get_lobby_info_step(self@, pid, lid).effects);
                }
                Outcome { effects, result: Ok(()), launch: None }
            },
        }
    }

    /// `GetPlayerInfo`.
    pub fn on_get_player_info(&self, pid: PlayerId, q: PlayerId) -> (out: Outcome)
        ensures
            realizes(self@, out, get_player_info_step(self@, pid, q)),
            out.launch is None,
    {
        let mut effects: Vec<Effect> = Vec::new();
        match self.player_position(q) {
            None => {
                proof {
                    assert(effects_view(effects@) =~= Seq::<EffectView>::empty());
                }
                Outcome { effects, result: Err(ServerError::PlayerDoesntExist), launch: None }
            },
            Some(i) => {
                let info = self.players[i].get_info();
                proof {
                    lemma_find_first(self@.players, |p: PlayerView| p.id == q);
                    assert(self@.players[i as int] == self.players@[i as int]@);
                }
                self.send_to(pid, LobbyToClient::PlayerInfo(info), &mut effects);
                proof {
                    assert(effects_view(effects@) =~= get_player_info_step(self@, pid, q).effects);
                }
                Outcome { effects, result: Ok(()), launch: None }
            },
        }
    }
}

/// Removes the first occurrence of a port from a list of ports.
fn remove_port(v: &mut Vec<u16>, port: u16)
    ensures
        final(v)@ == set_remove(old(v)@, port),
{
    let mut i: usize = 0;
    while i < v.len()
        invariant
            i <= v@.len(),
            v@ == old(v)@,
            forall|j: int| 0 <= j < i ==> v@[j] != port,
        decreases v.len() - i,
    {
        if v[i] == port {
            proof {
                lemma_is_first_unique(v@, eq_to(port), Some(i as int));
            }
            v.remove(i);
            return;
        }
        i = i + 1;
    }
    proof {
        lemma_is_first_unique(v@, eq_to(port), None);
    }
}

/// Removes the first occurrence of a name from a list of names.
fn remove_name(v: &mut Vec<String>, name: &String)
    ensures
        final(v)@.map_values(|n: String| n@) == set_remove(old(v)@.map_values(|n: String| n@), name@),
{
    let ghost nv = old(v)@.map_values(|n: String| n@);
    let mut i: usize = 0;
    while i < v.len()
        invariant
            i <= v@.len(),
            v@ == old(v)@,
            nv == v@.map_values(|n: String| n@),
            forall|j: int| 0 <= j < i ==> nv[j] != name@,
        decreases v.len() - i,
    {
        if v[i] == *name {
            proof {
                assert(nv[i as int] == name@);
                lemma_is_first_unique(nv, eq_to(name@), Some(i as int));
            }
            v.remove(i);
            proof {
                assert(v@.map_values(|n: String| n@) =~= nv.remove(i as int));
            }
            return;
        }
        i = i + 1;
    }
    proof {
        lemma_is_first_unique(nv, eq_to(name@), None);
    }
}

/// Whether a port is in a list of ports.
fn contains_port(v: &Vec<u16>, port: u16) -> (r: bool)
    ensures
        r == v@.contains(port),
{
    let mut i: usize = 0;
    while i < v.len()
        invariant
            i <= v@.len(),
            forall|j: int| 0 <= j < i ==> v@[j] != port,
        decreases v.len() - i,
    {
        if v[i] == port {
            return true;
        }
        i = i + 1;
    }
    false
}

impl State {
    /// `GameServerClosed`.
    pub fn on_game_closed(&mut self, lid: LobbyId) -> (out: Outcome)
        requires
            server_ok(old(self)@),
        ensures
            realizes(final(self)@, out, game_closed_step(old(self)@, lid)),
            server_ok(final(self)@),
            out.launch is None,
    {
        let ghost s0 = self@;
        let mut effects: Vec<Effect> = Vec::new();
        match self.lobby_position(lid) {
            None => {
                proof {
                    assert(effects_view(effects@) =~= Seq::<EffectView>::empty());
                }
            },
            Some(j) => {
                self.lobbies[j].lobby_state = LobbyState::InLobby;
                self.lobbies[j].selected_champs.clear();
                proof {
                    let l = s0.lobbies[j as int];
                    let l2 = LobbyModel { state: LobbyState::InLobby, selected: Seq::empty(), ..l };
                    assert(self.lobbies@[j as int]@ =~= l2);
                    assert(self@.lobbies =~= s0.lobbies.update(j as int, l2));
                    assert(self@ =~= with_lobby(s0, j as int, l2));
                    assert(lobby_ok(l2));
                }
                self.broadcast_to(lid, None, LobbyToClient::ReturnFromChampSelect, &mut effects);
                proof {
                    assert(effects_view(effects@) =~= game_closed_step(s0, lid).effects);
                }
            },
        }
        Outcome { effects, result: Ok(()), launch: None }
    }

    /// `GameTokenCreated`.
    pub fn on_token(&self, pid: PlayerId, token: Vec<u8>) -> (out: Outcome)
        ensures
            realizes(self@, out, token_step(self@, pid, token@)),
            out.launch is None,
    {
        let mut effects: Vec<Effect> = Vec::new();
        let ghost t = token@;
        self.send_to(pid, LobbyToClient::GameStarted(token), &mut effects);
        proof {
            assert(effects_view(effects@) =~= token_step(self@, pid, t).effects);
        }
        Outcome { effects, result: Ok(()), launch: None }
    }

    /// `InternalPortReleased`.
    pub fn on_internal_released(&mut self, port: u16) -> (out: Outcome)
        requires
            server_ok(old(self)@),
        ensures
            realizes(final(self)@, out, internal_released_step(old(self)@, port)),
            server_ok(final(self)@),
            out.launch is None,
    {
        let ghost s0 = self@;
        remove_port(&mut self.used_internal_ports, port);
        let effects: Vec<Effect> = Vec::new();
        proof {
            assert(self@ =~= internal_released_step(s0, port).state);
            assert(effects_view(effects@) =~= Seq::<EffectView>::empty());
        }
        Outcome { effects, result: Ok(()), launch: None }
    }

    /// `ExternalPortReleased`.
    pub fn on_external_released(&mut self, port: u16) -> (out: Outcome)
        requires
            server_ok(old(self)@),
        ensures
            realizes(final(self)@, out, external_released_step(old(self)@, port)),
            server_ok(final(self)@),
            out.launch is None,
    {
        let ghost s0 = self@;
        remove_port(&mut self.used_external_ports, port);
        let effects: Vec<Effect> = Vec::new();
        proof {
            assert(self@ =~= external_released_step(s0, port).state);
            assert(effects_view(effects@) =~= Seq::<EffectView>::empty());
        }
        Outcome { effects, result: Ok(()), launch: None }
    }
}

// ------------------------------------------------------------------------
// Joining and leaving

/// The lobby that `CreateAndJoinLobby` makes for a player.
pub open spec fn new_lobby(p: PlayerView, id: LobbyId) -> LobbyModel {
    LobbyModel {
        id,
        settings: SettingsView { name: p.name + "'s lobby"@, locked: false, team_count: 2, max_players_per_team: 5 },
        teams: seq![seq![p.id], Seq::empty()],
        leader: p.id,
        state: LobbyState::InLobby,
        selected: Seq::empty(),
    }
}

/// `CreateAndJoinLobby`, with `fresh` as the new lobby's id: a player who is
/// in no lobby gets a lobby of their own, with two teams of at most five.
pub open spec fn create_lobby_step(s: ServerModel, pid: PlayerId, fresh: LobbyId) -> StepView {
    match player_index(s.players, pid) {
        None => no_step(s, Err(ServerError::InvalidPlayer)),
        Some(pi) => if s.players[pi].current_lobby is Some {
            no_step(s, Err(ServerError::PlayerAlreadyInLobby))
        } else {
            let s1 = with_player_lobby(s, pi, Some(fresh));
            let s2 = ServerModel { lobbies: insert_lobby(s.lobbies, new_lobby(s.players[pi], fresh)), ..s1 };
            StepView { state: s2, effects: send(s2, pid, MsgView::YouJoinedLobby(fresh)), result: Ok(()) }
        },
    }
}

/// `JoinLobby`: a player who is in no lobby joins an open lobby that has
/// room, in the first of its least-populated teams.
pub open spec fn join_lobby_step(s: ServerModel, pid: PlayerId, lid: LobbyId) -> StepView {
    match player_index(s.players, pid) {
        None => no_step(s, Err(ServerError::InvalidPlayer)),
        Some(pi) => if s.players[pi].current_lobby is Some {
            no_step(s, Err(ServerError::PlayerAlreadyInLobby))
        } else {
            match lobby_index(s.lobbies, lid) {
                None => no_step(s, Err(ServerError::LobbyDoesntExist)),
                Some(j) => {
                    let l = s.lobbies[j];
                    if l.settings.locked {
                        no_step(s, Err(ServerError::LobbyLocked))
                    } else if total(l.teams) >= word_product(l.settings.team_count, l.settings.max_players_per_team)
                        || total(l.teams) + 1 >= usize::MAX {
                        no_step(s, Err(ServerError::LobbyFull))
                    } else if l.state != LobbyState::InLobby {
                        no_step(s, Err(ServerError::LobbyNotOpen))
                    } else {
                        let i = first_min(l.teams, l.teams.len() as int);
                        let l2 = LobbyModel { teams: l.teams.update(i, l.teams[i].push(pid)), ..l };
                        let s2 = with_lobby(with_player_lobby(s, pi, Some(lid)), j, l2);
                        StepView {
                            state: s2,
                            effects: send(s2, pid, MsgView::YouJoinedLobby(lid)) + broadcast(
                                s2,
                                lid,
                                Some(pid),
                                MsgView::PlayerJoinedLobby(pid),
                            ),
                            result: Ok(()),
                        }
                    }
                },
            }
        },
    }
}

/// A player leaves their lobby (`LeaveCurrentLobby`, a kick or a
/// disconnection): the lead passes on if needed, the teams are readjusted
/// if needed, champion select is called off, and an empty lobby is closed.
pub open spec fn leave_step(s: ServerModel, pid: PlayerId) -> StepView {
    match player_index(s.players, pid) {
        None => no_step(s, Err(ServerError::PlayerDoesntExist)),
        Some(pi) => match s.players[pi].current_lobby {
            None => no_step(s, Ok(())),
            Some(lid) => match lobby_index(s.lobbies, lid) {
                None => no_step(s, Err(ServerError::LobbyDoesntExist)),
                Some(j) => {
                    let l = s.lobbies[j];
                    let t1 = without_player(l.teams, pid);
                    let teams = readjusted_if_needed(
                        t1,
                        l.settings.team_count as int,
                        l.settings.max_players_per_team as int,
                    );
                    let leader = if l.leader == pid && first_player(t1) is Some {
                        first_player(t1)->0
                    } else {
                        l.leader
                    };
                    let in_cs = l.state == LobbyState::InChampSelect;
                    let l2 = LobbyModel {
                        teams,
                        leader,
                        state: if in_cs { LobbyState::InLobby } else { l.state },
                        selected: if in_cs { Seq::empty() } else { l.selected },
                        ..l
                    };
                    let s1 = with_player_lobby(s, pi, None);
                    if total(teams) == 0 {
                        let s2 = ServerModel { lobbies: s1.lobbies.remove(j), ..s1 };
                        StepView { state: s2, effects: send(s2, pid, MsgView::YouLeftLobby), result: Ok(()) }
                    } else {
                        let s2 = with_lobby(s1, j, l2);
                        StepView {
                            state: s2,
                            effects: (if in_cs {
                                broadcast(s2, lid, None, MsgView::ReturnFromChampSelect)
                            } else {
                                Seq::empty()
                            }) + broadcast(s2, lid, None, MsgView::PlayerLeftLobby(pid)) + send(
                                s2,
                                pid,
                                MsgView::YouLeftLobby,
                            ),
                            result: Ok(()),
                        }
                    }
                },
            },
        },
    }
}

/// A disconnection: the player leaves their lobby and is forgotten, and
/// their name is free again.
pub open spec fn disconnect_step(s: ServerModel, pid: PlayerId) -> StepView {
    let left = leave_step(s, pid);
    let s1 = left.state;
    match player_index(s1.players, pid) {
        Some(i) => StepView {
            state: ServerModel {
                players: s1.players.remove(i),
                names: set_remove(s1.names, s1.players[i].name),
                ..s1
            },
            effects: left.effects,
            result: Ok(()),
        },
        None => StepView { state: s1, effects: left.effects, result: Ok(()) },
    }
}

/// A new connection: the player is kept under a name that is not in use.
pub open spec fn new_player_step(s: ServerModel, p: PlayerView) -> StepView {
    let name = crate::names::unused_name(p.name, s.names);
    let p2 = PlayerView { name, ..p };
    let players = match player_index(s.players, p.id) {
        Some(i) => s.players.update(i, p2),
        None => s.players.push(p2),
    };
    no_step(ServerModel { players, names: s.names.push(name), ..s }, Ok(()))
}

/// Taking a player out of the teams keeps their number and adds no player.
pub proof fn lemma_total_without(t: Seq<Seq<PlayerId>>, p: PlayerId)
    ensures
        total(without_player(t, p)) <= total(t),
        without_player(t, p).len() == t.len(),
{
    if exists|a: int, b: int| crate::teams::is_first_position(t, p, a, b) {
        let (a, b) = choose|a: int, b: int| crate::teams::is_first_position(t, p, a, b);
        crate::teams::lemma_roster_update(t, a, t[a].remove(b));
    }
}

/// A readjustment, if needed, keeps the number of players, and leaves at
/// least one team when there was one.
pub proof fn lemma_total_readjusted_if_needed(t: Seq<Seq<PlayerId>>, tc: int, max: int)
    requires
        tc >= 1,
        max >= 0,
    ensures
        total(readjusted_if_needed(t, tc, max)) == total(t),
        readjusted_if_needed(t, tc, max).len() >= 1 || t.len() == 0,
{
    if crate::lobby::needs_readjustment_spec(t, tc, max) {
        crate::teams::lemma_readjusted_keeps_roster(t, tc, max as nat);
        crate::teams::lemma_roster_len(t);
        crate::teams::lemma_roster_len(crate::teams::readjusted(t, tc, max as nat));
    }
}

impl State {
    /// The index of a player's lobby.
    fn own_lobby_position(&self, pid: PlayerId) -> (r: Result<usize, ServerError>)
        ensures
            match r {
                Ok(j) => own_lobby(self@, pid) == Ok::<int, ServerError>(j as int) && j < self.lobbies@.len(),
                Err(e) => own_lobby(self@, pid) == Err::<int, ServerError>(e),
            },
    {
        match self.player_position(pid) {
            None => Err(ServerError::PlayerDoesntExist),
            Some(pi) => {
                proof {
                    assert(self@.players[pi as int] == self.players@[pi as int]@);
                }
                match self.players[pi].current_lobby {
                    None => Err(ServerError::PlayerNotInLobby),
                    Some(lid) => match self.lobby_position(lid) {
                        None => Err(ServerError::LobbyDoesntExist),
                        Some(j) => Ok(j),
                    },
                }
            },
        }
    }

    /// The index of the lobby that a player leads.
    fn led_lobby_position(&self, pid: PlayerId) -> (r: Result<usize, ServerError>)
        ensures
            match r {
                Ok(j) => led_lobby(self@, pid) == Ok::<int, ServerError>(j as int) && j < self.lobbies@.len(),
                Err(e) => led_lobby(self@, pid) == Err::<int, ServerError>(e),
            },
    {
        match self.own_lobby_position(pid) {
            Err(e) => Err(e),
            Ok(j) => {
                proof {
                    assert(self@.lobbies[j as int] == self.lobbies@[j as int]@);
                }
                if self.lobbies[j].leader != pid {
                    Err(ServerError::NotLobbyLeader)
                } else {
                    Ok(j)
                }
            },
        }
    }

    /// `JoinLobby`.
    pub fn on_join_lobby(&mut self, pid: PlayerId, lid: LobbyId) -> (out: Outcome)
        requires
            server_ok(old(self)@),
        ensures
            realizes(final(self)@, out, join_lobby_step(old(self)@, pid, lid)),
            server_ok(final(self)@),
            out.launch is None,
    {
        let ghost s0 = self@;
        let empty: Vec<Effect> = Vec::new();
        proof {
            assert(effects_view(empty@) =~= Seq::<EffectView>::empty());
        }
        let pi = match self.player_position(pid) {
            None => {
                return Outcome { effects: empty, result: Err(ServerError::InvalidPlayer), launch: None };
            },
            Some(pi) => pi,
        };
        proof {
            assert(s0.players[pi as int] == self.players@[pi as int]@);
        }
        if self.players[pi].current_lobby.is_some() {
            return Outcome { effects: empty, result: Err(ServerError::PlayerAlreadyInLobby), launch: None };
        }
        let j = match self.lobby_position(lid) {
            None => {
                return Outcome { effects: empty, result: Err(ServerError::LobbyDoesntExist), launch: None };
            },
            Some(j) => j,
        };
        proof {
            assert(s0.lobbies[j as int] == self.lobbies@[j as int]@);
            assert(lobby_ok(s0.lobbies[j as int]));
        }
        if self.lobbies[j].settings.locked {
            return Outcome { effects: empty, result: Err(ServerError::LobbyLocked), launch: None };
        }
        let count = self.lobbies[j].player_count();
        if count >= self.lobbies[j].settings.max_players() || count >= usize::MAX - 1 {
            return Outcome { effects: empty, result: Err(ServerError::LobbyFull), launch: None };
        }
        if self.lobbies[j].lobby_state != LobbyState::InLobby {
            return Outcome { effects: empty, result: Err(ServerError::LobbyNotOpen), launch: None };
        }
        let ghost l = s0.lobbies[j as int];
        self.lobbies[j].add_player(pid);
        self.players[pi].current_lobby = Some(lid);
        proof {
            lemma_find_first(s0.lobbies, |m: LobbyModel| m.id == lid);
            let i = first_min(l.teams, l.teams.len() as int);
            let l2 = LobbyModel { teams: l.teams.update(i, l.teams[i].push(pid)), ..l };
            assert(self.lobbies@[j as int]@ =~= l2);
            let s2 = with_lobby(with_player_lobby(s0, pi as int, Some(lid)), j as int, l2);
            assert(self@.lobbies =~= s2.lobbies);
            assert(self@.players =~= s2.players);
            assert(self@ =~= s2);
            crate::teams::lemma_first_min(l.teams, l.teams.len() as int);
            crate::teams::lemma_roster_update(l.teams, i, l.teams[i].push(pid));
            assert(lobby_ok(l2));
            assert forall|k: int| 0 <= k < self@.lobbies.len() implies lobby_ok(#[trigger] self@.lobbies[k]) by {
                if k != j {
                    assert(self@.lobbies[k] == s0.lobbies[k]);
                }
            }
        }
        let mut effects: Vec<Effect> = Vec::new();
        self.send_to(pid, LobbyToClient::YouJoinedLobby(lid), &mut effects);
        self.broadcast_to(lid, Some(pid), LobbyToClient::PlayerJoinedLobby(pid), &mut effects);
        proof {
            assert(effects_view(effects@) =~= join_lobby_step(s0, pid, lid).effects);
        }
        Outcome { effects, result: Ok(()), launch: None }
    }
}

impl State {
    /// `CreateAndJoinLobby`, with `fresh` as the new lobby's id.
    pub fn on_create_lobby_with(&mut self, pid: PlayerId, fresh: LobbyId) -> (out: Outcome)
        requires
            server_ok(old(self)@),
        ensures
            realizes(final(self)@, out, create_lobby_step(old(self)@, pid, fresh)),
            server_ok(final(self)@),
            out.launch is None,
    {
        let ghost s0 = self@;
        let empty: Vec<Effect> = Vec::new();
        proof {
            assert(effects_view(empty@) =~= Seq::<EffectView>::empty());
        }
        let pi = match self.player_position(pid) {
            None => {
                return Outcome { effects: empty, result: Err(ServerError::InvalidPlayer), launch: None };
            },
            Some(pi) => pi,
        };
        proof {
            assert(s0.players[pi as int] == self.players@[pi as int]@);
        }
        if self.players[pi].current_lobby.is_some() {
            return Outcome { effects: empty, result: Err(ServerError::PlayerAlreadyInLobby), launch: None };
        }
        let name = self.players[pi].name.clone().concat("'s lobby");
        let mut first_team: Vec<PlayerId> = Vec::new();
        first_team.push(pid);
        let mut teams: Vec<Vec<PlayerId>> = Vec::new();
        teams.push(first_team);
        teams.push(Vec::new());
        let lobby = Lobby {
            id: fresh,
            settings: LobbySettings { name, locked: false, team_count: 2, max_players_per_team: 5 },
            teams,
            leader: pid,
            lobby_state: LobbyState::InLobby,
            selected_champs: Vec::new(),
        };
        proof {
            lemma_find_first(s0.players, |p: PlayerView| p.id == pid);
            assert(lobby@ =~= new_lobby(s0.players[pi as int], fresh));
            assert(lobby_ok(lobby@)) by {
                reveal_with_fuel(total, 3);
                assert(lobby@.teams.drop_last().drop_last() =~= Seq::<Seq<PlayerId>>::empty());
                assert(lobby@.teams.drop_last().last() =~= seq![pid]);
            }
        }
        match self.lobby_position(fresh) {
            Some(k) => {
                self.lobbies.set(k, lobby);
            },
            None => {
                self.lobbies.push(lobby);
            },
        }
        self.players[pi].current_lobby = Some(fresh);
        proof {
            let s1 = with_player_lobby(s0, pi as int, Some(fresh));
            let s2 = ServerModel { lobbies: insert_lobby(s0.lobbies, new_lobby(s0.players[pi as int], fresh)), ..s1 };
            assert(self@.lobbies =~= s2.lobbies);
            assert(self@.players =~= s2.players);
            assert(self@ =~= s2);
            assert forall|k: int| 0 <= k < self@.lobbies.len() implies lobby_ok(#[trigger] self@.lobbies[k]) by {
                if k < s0.lobbies.len() && self@.lobbies[k] != new_lobby(s0.players[pi as int], fresh) {
                    assert(self@.lobbies[k] == s0.lobbies[k]);
                }
            }
        }
        let mut effects: Vec<Effect> = Vec::new();
        self.send_to(pid, LobbyToClient::YouJoinedLobby(fresh), &mut effects);
        proof {
            assert(effects_view(effects@) =~= create_lobby_step(s0, pid, fresh).effects);
        }
        Outcome { effects, result: Ok(()), launch: None }
    }

    /// `CreateAndJoinLobby`: the new lobby's id is a fresh random one.
    pub fn on_create_lobby(&mut self, pid: PlayerId) -> (out: Outcome)
        requires
            server_ok(old(self)@),
        ensures
            exists|fresh: LobbyId|
                fresh.0 & crate::ids::uuid_v4_mask() == crate::ids::uuid_v4_bits() && realizes(
                    final(self)@,
                    out,
                    #[trigger] create_lobby_step(old(self)@, pid, fresh),
                ),
            server_ok(final(self)@),
            out.launch is None,
    {
        let fresh = LobbyId::new();
        self.on_create_lobby_with(pid, fresh)
    }

    /// A player leaves their lobby.
    pub fn on_leave(&mut self, pid: PlayerId) -> (out: Outcome)
        requires
            server_ok(old(self)@),
        ensures
            realizes(final(self)@, out, leave_step(old(self)@, pid)),
            server_ok(final(self)@),
            out.launch is None,
    {
        let ghost s0 = self@;
        let empty: Vec<Effect> = Vec::new();
        proof {
            assert(effects_view(empty@) =~= Seq::<EffectView>::empty());
        }
        let pi = match self.player_position(pid) {
            None => {
                return Outcome { effects: empty, result: Err(ServerError::PlayerDoesntExist), launch: None };
            },
            Some(pi) => pi,
        };
        proof {
            assert(s0.players[pi as int] == self.players@[pi as int]@);
        }
        let lid = match self.players[pi].current_lobby {
            None => {
                return Outcome { effects: empty, result: Ok(()), launch: None };
            },
            Some(lid) => lid,
        };
        let j = match self.lobby_position(lid) {
            None => {
                return Outcome { effects: empty, result: Err(ServerError::LobbyDoesntExist), launch: None };
            },
            Some(j) => j,
        };
        let ghost l = s0.lobbies[j as int];
        proof {
            assert(l == self.lobbies@[j as int]@);
            assert(lobby_ok(l));
            lemma_find_first(s0.lobbies, |m: LobbyModel| m.id == lid);
        }
        self.lobbies[j].remove_player(pid, false);
        self.players[pi].current_lobby = None;
        let in_cs = self.lobbies[j].lobby_state == LobbyState::InChampSelect;
        if in_cs {
            self.lobbies[j].lobby_state = LobbyState::InLobby;
            self.lobbies[j].selected_champs.clear();
        }
        let ghost t1 = without_player(l.teams, pid);
        let ghost teams = readjusted_if_needed(t1, l.settings.team_count as int, l.settings.max_players_per_team as int);
        let ghost leader = if l.leader == pid && first_player(t1) is Some {
            first_player(t1)->0
        } else {
            l.leader
        };
        let ghost l2 = LobbyModel {
            teams,
            leader,
            state: if in_cs { LobbyState::InLobby } else { l.state },
            selected: if in_cs { Seq::empty() } else { l.selected },
            ..l
        };
        let ghost s1 = with_player_lobby(s0, pi as int, None);
        proof {
            assert(self.lobbies@[j as int]@ =~= l2);
            lemma_total_without(l.teams, pid);
            lemma_total_readjusted_if_needed(t1, l.settings.team_count as int, l.settings.max_players_per_team as int);
            assert(lobby_ok(l2));
            assert(self@ =~= with_lobby(s1, j as int, l2));
        }
        let mut effects: Vec<Effect> = Vec::new();
        if self.lobbies[j].is_empty() {
            self.lobbies.remove(j);
            proof {
                let s2 = ServerModel { lobbies: s1.lobbies.remove(j as int), ..s1 };
                assert(self@.lobbies =~= s2.lobbies);
                assert(self@ =~= s2);
                assert forall|k: int| 0 <= k < self@.lobbies.len() implies lobby_ok(#[trigger] self@.lobbies[k]) by {
                    if k < j {
                        assert(self@.lobbies[k] == s0.lobbies[k]);
                    } else {
                        assert(self@.lobbies[k] == s0.lobbies[k + 1]);
                    }
                }
            }
        } else {
            proof {
                assert forall|k: int| 0 <= k < self@.lobbies.len() implies lobby_ok(#[trigger] self@.lobbies[k]) by {
                    if k != j {
                        assert(self@.lobbies[k] == s0.lobbies[k]);
                    }
                }
            }
            if in_cs {
                self.broadcast_to(lid, None, LobbyToClient::ReturnFromChampSelect, &mut effects);
            }
            self.broadcast_to(lid, None, LobbyToClient::PlayerLeftLobby(pid), &mut effects);
        }
        self.send_to(pid, LobbyToClient::YouLeftLobby, &mut effects);
        proof {
            assert(effects_view(effects@) =~= leave_step(s0, pid).effects);
        }
        Outcome { effects, result: Ok(()), launch: None }
    }

    /// A player disconnects.
    pub fn on_disconnect(&mut self, pid: PlayerId) -> (out: Outcome)
        requires
            server_ok(old(self)@),
        ensures
            realizes(final(self)@, out, disconnect_step(old(self)@, pid)),
            server_ok(final(self)@),
            out.launch is None,
    {
        let ghost s0 = self@;
        let left = self.on_leave(pid);
        let ghost s1 = self@;
        match self.player_position(pid) {
            Some(i) => {
                proof {
                    assert(s1.players[i as int] == self.players@[i as int]@);
                }
                let name = self.players[i].name.clone();
                remove_name(&mut self.used_player_names, &name);
                self.players.remove(i);
                proof {
                    assert(self@.players =~= s1.players.remove(i as int));
                    assert(self@ =~= disconnect_step(s0, pid).state);
                }
            },
            None => {},
        }
        Outcome { effects: left.effects, result: Ok(()), launch: None }
    }

    /// A new connection.
    pub fn on_new_player(&mut self, player: Player) -> (out: Outcome)
        requires
            server_ok(old(self)@),
            old(self).used_player_names@.len() < usize::MAX,
        ensures
            realizes(final(self)@, out, new_player_step(old(self)@, player@)),
            server_ok(final(self)@),
            out.launch is None,
    {
        let ghost s0 = self@;
        let mut player = player;
        let ghost p0 = player@;
        let name = crate::names::unused_name_for(&self.used_player_names, &player.name);
        player.name = name.clone();
        match self.player_position(player.id) {
            Some(i) => {
                self.players.set(i, player);
            },
            None => {
                self.players.push(player);
            },
        }
        self.used_player_names.push(name);
        let effects: Vec<Effect> = Vec::new();
        proof {
            assert(self@ =~= new_player_step(s0, p0).state);
            assert(effects_view(effects@) =~= Seq::<EffectView>::empty());
        }
        Outcome { effects, result: Ok(()), launch: None }
    }
}

// ------------------------------------------------------------------------
// Lobby management

/// `SetLobbySettings`: the leader sets the lobby's settings (at least one
/// team of at least one player) and the teams are readjusted if needed.
pub open spec fn set_settings_step(s: ServerModel, pid: PlayerId, new: SettingsView) -> StepView {
    match led_lobby(s, pid) {
        Err(e) => no_step(s, Err(e)),
        Ok(j) => {
            let l = s.lobbies[j];
            let ns = SettingsView {
                team_count: if new.team_count < 1 { 1 } else { new.team_count },
                max_players_per_team: if new.max_players_per_team < 1 { 1 } else { new.max_players_per_team },
                ..new
            };
            let l2 = LobbyModel {
                settings: ns,
                teams: readjusted_if_needed(l.teams, ns.team_count as int, ns.max_players_per_team as int),
                ..l
            };
            let s2 = with_lobby(s, j, l2);
            StepView { state: s2, effects: broadcast(s2, l.id, None, MsgView::LobbyInfo(lobby_info(l2))), result: Ok(()) }
        },
    }
}

/// `ChangePlayerTeam`: a player (or the leader, for anyone) moves to a team
/// that has room.
pub open spec fn change_team_step(s: ServerModel, pid: PlayerId, mover: PlayerId, team: Team) -> StepView {
    match own_lobby(s, pid) {
        Err(e) => no_step(s, Err(e)),
        Ok(j) => {
            let l = s.lobbies[j];
            if mover != pid && l.leader != pid {
                no_step(s, Err(ServerError::NotLobbyLeader))
            } else if l.teams.len() <= team.0 {
                no_step(s, Err(ServerError::InvalidTeam))
            } else if l.teams[team.0 as int].len() >= l.settings.max_players_per_team {
                no_step(s, Err(ServerError::TeamFull))
            } else if total(l.teams) + 1 >= usize::MAX {
                no_step(s, Err(ServerError::LobbyFull))
            } else {
                let t1 = without_player(l.teams, mover);
                let l2 = LobbyModel { teams: t1.update(team.0 as int, t1[team.0 as int].push(mover)), ..l };
                let s2 = with_lobby(s, j, l2);
                StepView { state: s2, effects: broadcast(s2, l.id, None, MsgView::PlayerChangedTeam(mover, team)), result: Ok(()) }
            }
        },
    }
}

/// `SwitchPlayerPositions`: the leader has two players trade places.
pub open spec fn switch_step(s: ServerModel, pid: PlayerId, a: PlayerId, b: PlayerId) -> StepView {
    match led_lobby(s, pid) {
        Err(e) => no_step(s, Err(e)),
        Ok(j) => {
            let l = s.lobbies[j];
            if a == b {
                no_step(s, Err(ServerError::SwitchWithSelf))
            } else {
                match find_player_spec(l.teams, a) {
                    None => no_step(s, Err(ServerError::NoPlayerA)),
                    Some((ta, ia)) => match find_player_spec(l.teams, b) {
                        None => no_step(s, Err(ServerError::NoPlayerB)),
                        Some((tb, ib)) => {
                            let l2 = LobbyModel { teams: crate::teams::swapped(l.teams, ta, ia, tb, ib), ..l };
                            let s2 = with_lobby(s, j, l2);
                            StepView {
                                state: s2,
                                effects: broadcast(s2, l.id, None, MsgView::PlayerChangedPositions(a, b)),
                                result: Ok(()),
                            }
                        },
                    },
                }
            }
        },
    }
}

/// `KickPlayer`: the leader makes a player of the lobby leave it.
pub open spec fn kick_step(s: ServerModel, pid: PlayerId, k: PlayerId) -> StepView {
    match led_lobby(s, pid) {
        Err(e) => no_step(s, Err(e)),
        Ok(j) => if !in_teams(s.lobbies[j].teams, k) {
            no_step(s, Err(ServerError::PlayerToKickNotInLobby))
        } else {
            leave_step(s, k)
        },
    }
}

/// `GoToChampSelect`: the leader starts champion select.
pub open spec fn champ_select_step(s: ServerModel, pid: PlayerId) -> StepView {
    match led_lobby(s, pid) {
        Err(e) => no_step(s, Err(e)),
        Ok(j) => {
            let l = s.lobbies[j];
            let s2 = with_lobby(s, j, LobbyModel { state: LobbyState::InChampSelect, ..l });
            StepView { state: s2, effects: broadcast(s2, l.id, None, MsgView::GoToChampSelect), result: Ok(()) }
        },
    }
}

/// `SelectChamp`: a player whose choice is not locked chooses a champion.
pub open spec fn select_champ_step(s: ServerModel, pid: PlayerId, champ: Seq<char>) -> StepView {
    match own_lobby(s, pid) {
        Err(e) => no_step(s, Err(e)),
        Ok(j) => {
            let l = s.lobbies[j];
            match selection_index(l.selected, pid) {
                Some(k) => if l.selected[k].1.locked {
                    no_step(s, Err(ServerError::SelectionLocked))
                } else {
                    let sel2 = l.selected.update(k, (l.selected[k].0, SelectionView { champ, locked: false }));
                    let s2 = with_lobby(s, j, LobbyModel { selected: sel2, ..l });
                    StepView { state: s2, effects: broadcast(s2, l.id, None, MsgView::PlayerSelectedChamp(pid, champ)), result: Ok(()) }
                },
                None => {
                    let sel2 = l.selected.push((pid, SelectionView { champ, locked: false }));
                    let s2 = with_lobby(s, j, LobbyModel { selected: sel2, ..l });
                    StepView { state: s2, effects: broadcast(s2, l.id, None, MsgView::PlayerSelectedChamp(pid, champ)), result: Ok(()) }
                },
            }
        },
    }
}

impl State {
    /// `SetLobbySettings`.
    pub fn on_set_settings(&mut self, pid: PlayerId, settings: LobbySettings) -> (out: Outcome)
        requires
            server_ok(old(self)@),
        ensures
            realizes(final(self)@, out, set_settings_step(old(self)@, pid, settings@)),
            server_ok(final(self)@),
            out.launch is None,
    {
        let ghost s0 = self@;
        let empty: Vec<Effect> = Vec::new();
        proof {
            assert(effects_view(empty@) =~= Seq::<EffectView>::empty());
        }
        let j = match self.led_lobby_position(pid) {
            Err(e) => {
                return Outcome { effects: empty, result: Err(e), launch: None };
            },
            Ok(j) => j,
        };
        let ghost l = s0.lobbies[j as int];
        proof {
            assert(l == self.lobbies@[j as int]@);
            assert(lobby_ok(l));
        }
        let mut settings = settings;
        let ghost new = settings@;
        if settings.team_count < 1 {
            settings.team_count = 1;
        }
        if settings.max_players_per_team < 1 {
            settings.max_players_per_team = 1;
        }
        self.lobbies[j].settings = settings;
        self.lobbies[j].readjust_if_needed();
        let ghost ns = SettingsView {
            team_count: if new.team_count < 1 { 1 } else { new.team_count },
            max_players_per_team: if new.max_players_per_team < 1 { 1 } else { new.max_players_per_team },
            ..new
        };
        let ghost l2 = LobbyModel {
            settings: ns,
            teams: readjusted_if_needed(l.teams, ns.team_count as int, ns.max_players_per_team as int),
            ..l
        };
        proof {
            assert(self.lobbies@[j as int]@ =~= l2);
            assert(self@ =~= with_lobby(s0, j as int, l2));
            lemma_total_readjusted_if_needed(l.teams, ns.team_count as int, ns.max_players_per_team as int);
            assert(lobby_ok(l2));
            assert forall|k: int| 0 <= k < self@.lobbies.len() implies lobby_ok(#[trigger] self@.lobbies[k]) by {
                if k != j {
                    assert(self@.lobbies[k] == s0.lobbies[k]);
                }
            }
        }
        let info = self.lobbies[j].get_info();
        let lid = self.lobbies[j].id;
        let mut effects: Vec<Effect> = Vec::new();
        proof {
            assert(info@ =~= lobby_info(l2));
        }
        self.broadcast_to(lid, None, LobbyToClient::LobbyInfo(info), &mut effects);
        proof {
            assert(effects_view(effects@) =~= set_settings_step(s0, pid, new).effects);
        }
        Outcome { effects, result: Ok(()), launch: None }
    }

    /// `ChangePlayerTeam`.
    pub fn on_change_team(&mut self, pid: PlayerId, mover: PlayerId, team: Team) -> (out: Outcome)
        requires
            server_ok(old(self)@),
        ensures
            realizes(final(self)@, out, change_team_step(old(self)@, pid, mover, team)),
            server_ok(final(self)@),
            out.launch is None,
    {
        let ghost s0 = self@;
        let empty: Vec<Effect> = Vec::new();
        proof {
            assert(effects_view(empty@) =~= Seq::<EffectView>::empty());
        }
        let j = match self.own_lobby_position(pid) {
            Err(e) => {
                return Outcome { effects: empty, result: Err(e), launch: None };
            },
            Ok(j) => j,
        };
        let ghost l = s0.lobbies[j as int];
        proof {
            assert(l == self.lobbies@[j as int]@);
            assert(lobby_ok(l));
        }
        if mover != pid && self.lobbies[j].leader != pid {
            return Outcome { effects: empty, result: Err(ServerError::NotLobbyLeader), launch: None };
        }
        if self.lobbies[j].teams.len() <= team.0 {
            return Outcome { effects: empty, result: Err(ServerError::InvalidTeam), launch: None };
        }
        if self.lobbies[j].teams[team.0].len() >= self.lobbies[j].settings.max_players_per_team {
            return Outcome { effects: empty, result: Err(ServerError::TeamFull), launch: None };
        }
        if self.lobbies[j].player_count() >= usize::MAX - 1 {
            return Outcome { effects: empty, result: Err(ServerError::LobbyFull), launch: None };
        }
        self.lobbies[j].remove_player(mover, true);
        let ghost t1 = without_player(l.teams, mover);
        proof {
            lemma_total_without(l.teams, mover);
            assert(self.lobbies@[j as int].team_model() == t1);
            assert(team.0 < self.lobbies@[j as int].teams@.len());
        }
        self.lobbies[j].teams[team.0].push(mover);
        let ghost l2 = LobbyModel { teams: t1.update(team.0 as int, t1[team.0 as int].push(mover)), ..l };
        proof {
            assert(self.lobbies@[j as int]@ =~= l2);
            assert(self@ =~= with_lobby(s0, j as int, l2));
            lemma_total_without(l.teams, mover);
            crate::teams::lemma_roster_update(t1, team.0 as int, t1[team.0 as int].push(mover));
            assert(lobby_ok(l2));
            assert forall|k: int| 0 <= k < self@.lobbies.len() implies lobby_ok(#[trigger] self@.lobbies[k]) by {
                if k != j {
                    assert(self@.lobbies[k] == s0.lobbies[k]);
                }
            }
        }
        let lid = self.lobbies[j].id;
        let mut effects: Vec<Effect> = Vec::new();
        self.broadcast_to(lid, None, LobbyToClient::PlayerChangedTeam(mover, team), &mut effects);
        proof {
            assert(effects_view(effects@) =~= change_team_step(s0, pid, mover, team).effects);
        }
        Outcome { effects, result: Ok(()), launch: None }
    }

    /// `SwitchPlayerPositions`.
    pub fn on_switch(&mut self, pid: PlayerId, a: PlayerId, b: PlayerId) -> (out: Outcome)
        requires
            server_ok(old(self)@),
        ensures
            realizes(final(self)@, out, switch_step(old(self)@, pid, a, b)),
            server_ok(final(self)@),
            out.launch is None,
    {
        let ghost s0 = self@;
        let empty: Vec<Effect> = Vec::new();
        proof {
            assert(effects_view(empty@) =~= Seq::<EffectView>::empty());
        }
        let j = match self.led_lobby_position(pid) {
            Err(e) => {
                return Outcome { effects: empty, result: Err(e), launch: None };
            },
            Ok(j) => j,
        };
        let ghost l = s0.lobbies[j as int];
        proof {
            assert(l == self.lobbies@[j as int]@);
            assert(lobby_ok(l));
        }
        if a == b {
            return Outcome { effects: empty, result: Err(ServerError::SwitchWithSelf), launch: None };
        }
        let (ta, ia) = match crate::teams::find_player(&self.lobbies[j].teams, a) {
            None => {
                return Outcome { effects: empty, result: Err(ServerError::NoPlayerA), launch: None };
            },
            Some(x) => x,
        };
        let (tb, ib) = match crate::teams::find_player(&self.lobbies[j].teams, b) {
            None => {
                return Outcome { effects: empty, result: Err(ServerError::NoPlayerB), launch: None };
            },
            Some(x) => x,
        };
        crate::teams::swap_players(&mut self.lobbies[j].teams, ta, ia, tb, ib);
        let ghost l2 = LobbyModel { teams: crate::teams::swapped(l.teams, ta as int, ia as int, tb as int, ib as int), ..l };
        proof {
            assert(self.lobbies@[j as int]@ =~= l2);
            assert(self@ =~= with_lobby(s0, j as int, l2));
            crate::teams::lemma_swapped_keeps_roster(l.teams, ta as int, ia as int, tb as int, ib as int);
            crate::teams::lemma_roster_len(l.teams);
            crate::teams::lemma_roster_len(l2.teams);
            assert(lobby_ok(l2));
            assert forall|k: int| 0 <= k < self@.lobbies.len() implies lobby_ok(#[trigger] self@.lobbies[k]) by {
                if k != j {
                    assert(self@.lobbies[k] == s0.lobbies[k]);
                }
            }
        }
        let lid = self.lobbies[j].id;
        let mut effects: Vec<Effect> = Vec::new();
        self.broadcast_to(lid, None, LobbyToClient::PlayerChangedPositions(a, b), &mut effects);
        proof {
            assert(effects_view(effects@) =~= switch_step(s0, pid, a, b).effects);
        }
        Outcome { effects, result: Ok(()), launch: None }
    }

    /// `KickPlayer`.
    pub fn on_kick(&mut self, pid: PlayerId, k: PlayerId) -> (out: Outcome)
        requires
            server_ok(old(self)@),
        ensures
            realizes(final(self)@, out, kick_step(old(self)@, pid, k)),
            server_ok(final(self)@),
            out.launch is None,
    {
        let ghost s0 = self@;
        let empty: Vec<Effect> = Vec::new();
        proof {
            assert(effects_view(empty@) =~= Seq::<EffectView>::empty());
        }
        let j = match self.led_lobby_position(pid) {
            Err(e) => {
                return Outcome { effects: empty, result: Err(e), launch: None };
            },
            Ok(j) => j,
        };
        proof {
            assert(s0.lobbies[j as int] == self.lobbies@[j as int]@);
        }
        if crate::teams::find_player(&self.lobbies[j].teams, k).is_none() {
            return Outcome { effects: empty, result: Err(ServerError::PlayerToKickNotInLobby), launch: None };
        }
        proof {
            assert(in_teams(s0.lobbies[j as int].teams, k)) by {
                let (ti, pi) = find_player_spec(s0.lobbies[j as int].teams, k)->0;
                assert(s0.lobbies[j as int].teams[ti][pi] == k);
                assert(s0.lobbies[j as int].teams[ti].contains(k));
            }
        }
        self.on_leave(k)
    }

    /// `GoToChampSelect`.
    pub fn on_champ_select(&mut self, pid: PlayerId) -> (out: Outcome)
        requires
            server_ok(old(self)@),
        ensures
            realizes(final(self)@, out, champ_select_step(old(self)@, pid)),
            server_ok(final(self)@),
            out.launch is None,
    {
        let ghost s0 = self@;
        let empty: Vec<Effect> = Vec::new();
        proof {
            assert(effects_view(empty@) =~= Seq::<EffectView>::empty());
        }
        let j = match self.led_lobby_position(pid) {
            Err(e) => {
                return Outcome { effects: empty, result: Err(e), launch: None };
            },
            Ok(j) => j,
        };
        let ghost l = s0.lobbies[j as int];
        proof {
            assert(l == self.lobbies@[j as int]@);
        }
        self.lobbies[j].lobby_state = LobbyState::InChampSelect;
        let ghost l2 = LobbyModel { state: LobbyState::InChampSelect, ..l };
        proof {
            assert(self.lobbies@[j as int]@ =~= l2);
            assert(self@ =~= with_lobby(s0, j as int, l2));
            assert forall|k: int| 0 <= k < self@.lobbies.len() implies lobby_ok(#[trigger] self@.lobbies[k]) by {
                if k != j {
                    assert(self@.lobbies[k] == s0.lobbies[k]);
                }
            }
        }
        let lid = self.lobbies[j].id;
        let mut effects: Vec<Effect> = Vec::new();
        self.broadcast_to(lid, None, LobbyToClient::GoToChampSelect, &mut effects);
        proof {
            assert(effects_view(effects@) =~= champ_select_step(s0, pid).effects);
        }
        Outcome { effects, result: Ok(()), launch: None }
    }
}

/// Where a player's champion selection is kept.
fn selection_position(sel: &Vec<(PlayerId, ChampionSelection)>, pid: PlayerId) -> (r: Option<usize>)
    ensures
        r matches Some(k) ==> k < sel@.len(),
        match r {
            Some(k) => selection_index(selections_view(sel@), pid) == Some(k as int),
            None => selection_index(selections_view(sel@), pid) is None,
        },
{
    let ghost sv = selections_view(sel@);
    let mut k: usize = 0;
    while k < sel.len()
        invariant
            sv == selections_view(sel@),
            k <= sel@.len(),
            forall|m: int| 0 <= m < k ==> #[trigger] sv[m].0 != pid,
        decreases sel.len() - k,
    {
        if sel[k].0 == pid {
            proof {
                assert(sv[k as int].0 == pid);
                lemma_is_first_unique(sv, selection_of(pid), Some(k as int));
            }
            return Some(k);
        }
        k = k + 1;
    }
    proof {
        lemma_is_first_unique(sv, selection_of(pid), None);
    }
    None
}

impl State {
    /// `SelectChamp`.
    pub fn on_select_champ(&mut self, pid: PlayerId, champ: ChampionId) -> (out: Outcome)
        requires
            server_ok(old(self)@),
        ensures
            realizes(final(self)@, out, select_champ_step(old(self)@, pid, champ.0@)),
            server_ok(final(self)@),
            out.launch is None,
    {
        let ghost s0 = self@;
        let ghost c = champ.0@;
        let empty: Vec<Effect> = Vec::new();
        proof {
            assert(effects_view(empty@) =~= Seq::<EffectView>::empty());
        }
        let j = match self.own_lobby_position(pid) {
            Err(e) => {
                return Outcome { effects: empty, result: Err(e), launch: None };
            },
            Ok(j) => j,
        };
        let ghost l = s0.lobbies[j as int];
        proof {
            assert(l == self.lobbies@[j as int]@);
        }
        let ghost sel2;
        match selection_position(&self.lobbies[j].selected_champs, pid) {
            Some(k) => {
                proof {
                    assert(l.selected[k as int] == (self.lobbies@[j as int].selected_champs@[k as int].0, self.lobbies@[j as int].selected_champs@[k as int].1@));
                }
                if self.lobbies[j].selected_champs[k].1.locked {
                    return Outcome { effects: empty, result: Err(ServerError::SelectionLocked), launch: None };
                }
                let key = self.lobbies[j].selected_champs[k].0;
                self.lobbies[j].selected_champs.set(k, (key, ChampionSelection { id: champ.clone(), locked: false }));
                proof {
                    sel2 = l.selected.update(k as int, (l.selected[k as int].0, SelectionView { champ: c, locked: false }));
                }
            },
            None => {
                self.lobbies[j].selected_champs.push((pid, ChampionSelection { id: champ.clone(), locked: false }));
                proof {
                    sel2 = l.selected.push((pid, SelectionView { champ: c, locked: false }));
                }
            },
        }
        let ghost l2 = LobbyModel { selected: sel2, ..l };
        proof {
            assert(self.lobbies@[j as int]@ =~= l2);
            assert(self@ =~= with_lobby(s0, j as int, l2));
            assert forall|k: int| 0 <= k < self@.lobbies.len() implies lobby_ok(#[trigger] self@.lobbies[k]) by {
                if k != j {
                    assert(self@.lobbies[k] == s0.lobbies[k]);
                }
            }
        }
        let lid = self.lobbies[j].id;
        let mut effects: Vec<Effect> = Vec::new();
        self.broadcast_to(lid, None, LobbyToClient::PlayerSelectedChamp(pid, champ), &mut effects);
        proof {
            assert(effects_view(effects@) =~= select_champ_step(s0, pid, c).effects);
        }
        Outcome { effects, result: Ok(()), launch: None }
    }
}

// ------------------------------------------------------------------------
// Locking a selection and starting the game

/// The first port of `first..=last` that is not in use, if any.
pub open spec fn free_port_from(first: int, last: int, used: Seq<u16>) -> Option<u16>
    decreases last - first + 1,
{
    if first > last || first < 0 || first > u16::MAX {
        None
    } else if !used.contains(first as u16) {
        Some(first as u16)
    } else {
        free_port_from(first + 1, last, used)
    }
}

/// The first port of a range that is not in use, if any.
pub open spec fn free_port(r: PortRange, used: Seq<u16>) -> Option<u16> {
    free_port_from(r.first as int, r.last as int, used)
}

proof fn lemma_free_port_from(first: int, last: int, used: Seq<u16>)
    requires
        0 <= first,
        last <= u16::MAX,
    ensures
        match free_port_from(first, last, used) {
            Some(p) => first <= p <= last && !used.contains(p)
                && forall|q: u16| first <= q < p ==> used.contains(q),
            None => forall|q: u16| first <= q <= last ==> used.contains(q),
        },
    decreases last - first + 1,
{
    if first <= last {
        if used.contains(first as u16) {
            lemma_free_port_from(first + 1, last, used);
        }
    }
}

/// A game server gets the first port of the range that is not in use, and
/// none only when every port of the range is in use.
pub proof fn lemma_free_port(r: PortRange, used: Seq<u16>)
    ensures
        match free_port(r, used) {
            Some(p) => r.first <= p <= r.last && !used.contains(p)
                && forall|q: u16| r.first <= q < p ==> used.contains(q),
            None => forall|q: u16| r.first <= q <= r.last ==> used.contains(q),
        },
{
    lemma_free_port_from(r.first as int, r.last as int, used);
}

/// Whether a player of a lobby is connected and has chosen a champion.
pub open spec fn seated(s: ServerModel, l: LobbyModel, p: PlayerId) -> bool {
    player_index(s.players, p) is Some && selection_index(l.selected, p) is Some
}

/// Whether every player of a lobby is connected and has chosen a champion.
pub open spec fn all_seated(s: ServerModel, l: LobbyModel) -> bool {
    forall|i: int, k: int| 0 <= i < l.teams.len() && 0 <= k < l.teams[i].len() ==> seated(s, l, #[trigger] l.teams[i][k])
}

/// The seat in the game of player `p` of team `i`.
pub open spec fn seat(s: ServerModel, l: LobbyModel, i: int, p: PlayerId) -> SeatView {
    let pv = s.players[player_index(s.players, p)->0];
    SeatView {
        id: p,
        name: pv.name,
        team: Team(i as usize),
        champ: l.selected[selection_index(l.selected, p)->0].1.champ,
        is_ipv4: pv.is_ipv4,
        is_local: pv.is_local,
    }
}

/// The seats of the players of the first `n` teams, team by team.
pub open spec fn seats_upto(s: ServerModel, l: LobbyModel, n: int) -> Seq<SeatView>
    decreases n,
{
    if n <= 0 {
        Seq::empty()
    } else {
        seats_upto(s, l, n - 1) + l.teams[n - 1].map_values(|p: PlayerId| seat(s, l, n - 1, p))
    }
}

/// The seats of all players of a lobby, team by team.
pub open spec fn seats(s: ServerModel, l: LobbyModel) -> Seq<SeatView> {
    seats_upto(s, l, l.teams.len() as int)
}

/// Whether every player of a lobby has chosen and locked a champion: there
/// are as many selections as players, and all are locked.
pub open spec fn all_locked(l: LobbyModel) -> bool {
    &&& l.selected.len() == total(l.teams)
    &&& forall|k: int| 0 <= k < l.selected.len() ==> (#[trigger] l.selected[k]).1.locked
}

/// Starting the game of lobby `j` once its last selection is locked: the
/// first free internal and external ports are taken (when there is none,
/// the lobby is sent back from champion select), and the seats are made.
/// On success the game server is yet to be started, and the state is not
/// changed until it has been (see `finish_launch_step`).
pub open spec fn start_step(s: ServerModel, j: int, pid: PlayerId) -> (StepView, Option<LaunchView>) {
    let l = s.lobbies[j];
    match free_port(s.options.internal_ports, s.internal) {
        None => (StepView { state: s, effects: seq![EffectView::CloseGame(l.id)], result: Err(ServerError::NoInternalPort) }, None),
        Some(ip) => match free_port(s.options.external_ports, s.external) {
            None => (StepView { state: s, effects: seq![EffectView::CloseGame(l.id)], result: Err(ServerError::NoExternalPort) }, None),
            Some(ep) => if !all_seated(s, l) {
                (no_step(s, Err(ServerError::IncompleteRoster)), None)
            } else {
                (
                    no_step(s, Ok(())),
                    Some(LaunchView {
                        lobby: l.id,
                        internal_port: ip,
                        external_port: ep,
                        launch_mode: s.options.launch_mode,
                        settings: l.settings,
                        players: seats(s, l),
                        locking_player: pid,
                    }),
                )
            },
        },
    }
}

/// `LockSelection`: a player locks their champion choice. When that was the
/// last one, the game starts (`start_step`); otherwise the lobby is told.
pub open spec fn lock_step(s: ServerModel, pid: PlayerId) -> (StepView, Option<LaunchView>) {
    match own_lobby(s, pid) {
        Err(e) => (no_step(s, Err(e)), None),
        Ok(j) => {
            let l = s.lobbies[j];
            match selection_index(l.selected, pid) {
                None => (no_step(s, Err(ServerError::NoSelection)), None),
                Some(k) => if l.selected[k].1.locked {
                    (no_step(s, Err(ServerError::SelectionAlreadyLocked)), None)
                } else {
                    let sel2 = l.selected.update(k, (l.selected[k].0, SelectionView { locked: true, ..l.selected[k].1 }));
                    let l2 = LobbyModel { selected: sel2, ..l };
                    let s1 = with_lobby(s, j, l2);
                    if all_locked(l2) {
                        start_step(s1, j, pid)
                    } else {
                        (
                            StepView {
                                state: s1,
                                effects: broadcast(s1, l.id, None, MsgView::PlayerLockedSelection(pid)),
                                result: Ok(()),
                            },
                            None,
                        )
                    }
                },
            }
        },
    }
}

/// After the loop has tried to start a game server: when it started, its
/// ports are in use, its lobby is in game and the lobby is told of the
/// locked selection; otherwise the start failed and nothing changes.
pub open spec fn finish_launch_step(s: ServerModel, g: LaunchView, spawned: bool) -> StepView {
    if !spawned {
        no_step(s, Err(ServerError::LaunchFailed))
    } else {
        let s1 = ServerModel {
            internal: set_insert(s.internal, g.internal_port),
            external: set_insert(s.external, g.external_port),
            ..s
        };
        let s2 = match lobby_index(s1.lobbies, g.lobby) {
            Some(j) => with_lobby(s1, j, LobbyModel { state: LobbyState::InGame, ..s1.lobbies[j] }),
            None => s1,
        };
        StepView {
            state: s2,
            effects: broadcast(s2, g.lobby, None, MsgView::PlayerLockedSelection(g.locking_player)),
            result: Ok(()),
        }
    }
}

/// An outcome carries the game launch of a step, if any.
pub open spec fn launches(out: Outcome, g: Option<LaunchView>) -> bool {
    match out.launch {
        Some(x) => g == Some(x@),
        None => g is None,
    }
}

/// The first port of a range that is not in use.
fn first_free_port(range: PortRange, used: &Vec<u16>) -> (r: Option<u16>)
    ensures
        r == free_port(range, used@),
{
    let mut p: u32 = range.first as u32;
    while p <= range.last as u32
        invariant
            range.first <= p,
            p <= range.last as int + 1 || p == range.first,
            free_port(range, used@) == free_port_from(p as int, range.last as int, used@),
        decreases range.last as int + 1 - p,
    {
        let port = p as u16;
        if !contains_port(used, port) {
            return Some(port);
        }
        p = p + 1;
    }
    None
}

/// Whether every selection of a list is locked.
fn selections_locked(sel: &Vec<(PlayerId, ChampionSelection)>) -> (r: bool)
    ensures
        r == forall|k: int| 0 <= k < sel@.len() ==> (#[trigger] selections_view(sel@)[k]).1.locked,
{
    let ghost sv = selections_view(sel@);
    let mut k: usize = 0;
    while k < sel.len()
        invariant
            sv == selections_view(sel@),
            k <= sel@.len(),
            forall|m: int| 0 <= m < k ==> (#[trigger] sv[m]).1.locked,
        decreases sel.len() - k,
    {
        if !sel[k].1.locked {
            proof {
                assert(!sv[k as int].1.locked);
            }
            return false;
        }
        k = k + 1;
    }
    true
}

impl State {
    /// The seats of the players of lobby `j`, team by team; `None` when one of
    /// them is not connected or has not chosen a champion.
    fn seat_list(&self, j: usize) -> (r: Option<Vec<PlayerGameInfo>>)
        requires
            j < self.lobbies@.len(),
        ensures
            match r {
                Some(v) => all_seated(self@, self@.lobbies[j as int])
                    && v@.map_values(|g: PlayerGameInfo| g@) == seats(self@, self@.lobbies[j as int]),
                None => !all_seated(self@, self@.lobbies[j as int]),
            },
    {
        let ghost l = self@.lobbies[j as int];
        let lobby = &self.lobbies[j];
        proof {
            assert(l == lobby@);
        }
        let mut v: Vec<PlayerGameInfo> = Vec::new();
        let mut i: usize = 0;
        while i < lobby.teams.len()
            invariant
                j < self.lobbies@.len(),
                l == self@.lobbies[j as int],
                l == lobby@,
                lobby == &self.lobbies@[j as int],
                i <= lobby.teams@.len(),
                forall|ii: int, kk: int| 0 <= ii < i && 0 <= kk < l.teams[ii].len() ==> seated(self@, l, #[trigger] l.teams[ii][kk]),
                v@.map_values(|g: PlayerGameInfo| g@) == seats_upto(self@, l, i as int),
            decreases lobby.teams.len() - i,
        {
            let team = &lobby.teams[i];
            let ghost before = seats_upto(self@, l, i as int);
            let mut k: usize = 0;
            while k < team.len()
                invariant
                    j < self.lobbies@.len(),
                    l == self@.lobbies[j as int],
                    l == lobby@,
                    lobby == &self.lobbies@[j as int],
                    i < lobby.teams@.len(),
                    team@ == l.teams[i as int],
                    k <= team@.len(),
                    forall|ii: int, kk: int| 0 <= ii < i && 0 <= kk < l.teams[ii].len() ==> seated(self@, l, #[trigger] l.teams[ii][kk]),
                    forall|kk: int| 0 <= kk < k ==> seated(self@, l, #[trigger] l.teams[i as int][kk]),
                    before == seats_upto(self@, l, i as int),
                    v@.map_values(|g: PlayerGameInfo| g@) == before + team@.take(k as int).map_values(|p: PlayerId| seat(self@, l, i as int, p)),
                decreases team.len() - k,
            {
                let p = team[k];
                let pi = match self.player_position(p) {
                    Some(pi) => pi,
                    None => {
                        proof {
                            assert(!seated(self@, l, l.teams[i as int][k as int]));
                        }
                        return None;
                    },
                };
                let q = match selection_position(&lobby.selected_champs, p) {
                    Some(q) => q,
                    None => {
                        proof {
                            assert(!seated(self@, l, l.teams[i as int][k as int]));
                        }
                        return None;
                    },
                };
                let info = PlayerGameInfo {
                    id: p,
                    name: self.players[pi].name.clone(),
                    team: Team(i),
                    champ: lobby.selected_champs[q].1.id.clone(),
                    is_ipv4: self.players[pi].is_ipv4,
                    is_local: self.players[pi].is_local,
                };
                proof {
                    assert(self@.players[pi as int] == self.players@[pi as int]@);
                    assert(l.selected[q as int] == (lobby.selected_champs@[q as int].0, lobby.selected_champs@[q as int].1@));
                    assert(info@ == seat(self@, l, i as int, p));
                }
                let ghost old_v = v@;
                v.push(info);
                k = k + 1;
                proof {
                    assert(team@.take(k as int) =~= team@.take(k as int - 1).push(p));
                    assert(v@.map_values(|g: PlayerGameInfo| g@) =~= old_v.map_values(|g: PlayerGameInfo| g@).push(info@));
                    assert(team@.take(k as int).map_values(|p: PlayerId| seat(self@, l, i as int, p))
                        =~= team@.take(k as int - 1).map_values(|p: PlayerId| seat(self@, l, i as int, p)).push(seat(self@, l, i as int, p)));
                    assert(v@.map_values(|g: PlayerGameInfo| g@) =~= before + team@.take(k as int).map_values(|p: PlayerId| seat(self@, l, i as int, p)));
                }
            }
            proof {
                assert(team@.take(k as int) =~= team@);
                assert(seats_upto(self@, l, i as int + 1) == before + l.teams[i as int].map_values(|p: PlayerId| seat(self@, l, i as int, p)));
            }
            i = i + 1;
        }
        Some(v)
    }

    /// `LockSelection`.
    pub fn on_lock(&mut self, pid: PlayerId) -> (out: Outcome)
        requires
            server_ok(old(self)@),
        ensures
            realizes(final(self)@, out, lock_step(old(self)@, pid).0),
            launches(out, lock_step(old(self)@, pid).1),
            server_ok(final(self)@),
    {
        let ghost s0 = self@;
        let empty: Vec<Effect> = Vec::new();
        proof {
            assert(effects_view(empty@) =~= Seq::<EffectView>::empty());
        }
        let j = match self.own_lobby_position(pid) {
            Err(e) => {
                return Outcome { effects: empty, result: Err(e), launch: None };
            },
            Ok(j) => j,
        };
        let ghost l = s0.lobbies[j as int];
        proof {
            assert(l == self.lobbies@[j as int]@);
            assert(lobby_ok(l));
        }
        let k = match selection_position(&self.lobbies[j].selected_champs, pid) {
            None => {
                return Outcome { effects: empty, result: Err(ServerError::NoSelection), launch: None };
            },
            Some(k) => k,
        };
        proof {
            assert(l.selected[k as int] == (self.lobbies@[j as int].selected_champs@[k as int].0, self.lobbies@[j as int].selected_champs@[k as int].1@));
        }
        if self.lobbies[j].selected_champs[k].1.locked {
            return Outcome { effects: empty, result: Err(ServerError::SelectionAlreadyLocked), launch: None };
        }
        let key = self.lobbies[j].selected_champs[k].0;
        let champ = self.lobbies[j].selected_champs[k].1.id.clone();
        self.lobbies[j].selected_champs.set(k, (key, ChampionSelection { id: champ, locked: true }));
        let ghost sel2 = l.selected.update(k as int, (l.selected[k as int].0, SelectionView { locked: true, ..l.selected[k as int].1 }));
        let ghost l2 = LobbyModel { selected: sel2, ..l };
        let ghost s1 = with_lobby(s0, j as int, l2);
        proof {
            assert(self.lobbies@[j as int]@ =~= l2);
            assert(self@ =~= s1);
            assert forall|m: int| 0 <= m < self@.lobbies.len() implies lobby_ok(#[trigger] self@.lobbies[m]) by {
                if m != j {
                    assert(self@.lobbies[m] == s0.lobbies[m]);
                }
            }
            assert(self@.lobbies[j as int] == l2);
        }
        let count = self.lobbies[j].player_count();
        let complete = self.lobbies[j].selected_champs.len() == count
            && selections_locked(&self.lobbies[j].selected_champs);
        proof {
            assert(complete == all_locked(l2));
        }
        if !complete {
            let lid = self.lobbies[j].id;
            let mut effects: Vec<Effect> = Vec::new();
            self.broadcast_to(lid, None, LobbyToClient::PlayerLockedSelection(pid), &mut effects);
            proof {
                assert(effects_view(effects@) =~= lock_step(s0, pid).0.effects);
            }
            return Outcome { effects, result: Ok(()), launch: None };
        }
        let lid = self.lobbies[j].id;
        let ip = match first_free_port(self.options.internal_ports, &self.used_internal_ports) {
            None => {
                let mut effects: Vec<Effect> = Vec::new();
                effects.push(Effect::CloseGame(lid));
                proof {
                    assert(effects_view(effects@) =~= lock_step(s0, pid).0.effects);
                }
                return Outcome { effects, result: Err(ServerError::NoInternalPort), launch: None };
            },
            Some(p) => p,
        };
        let ep = match first_free_port(self.options.external_ports, &self.used_external_ports) {
            None => {
                let mut effects: Vec<Effect> = Vec::new();
                effects.push(Effect::CloseGame(lid));
                proof {
                    assert(effects_view(effects@) =~= lock_step(s0, pid).0.effects);
                }
                return Outcome { effects, result: Err(ServerError::NoExternalPort), launch: None };
            },
            Some(p) => p,
        };
        let players = match self.seat_list(j) {
            None => {
                return Outcome { effects: empty, result: Err(ServerError::IncompleteRoster), launch: None };
            },
            Some(v) => v,
        };
        let launch = GameLaunch {
            lobby: lid,
            internal_port: ip,
            external_port: ep,
            launch_mode: self.options.launch_mode,
            settings: self.lobbies[j].settings.clone(),
            players,
            locking_player: pid,
        };
        proof {
            assert(launch@ =~= lock_step(s0, pid).1->0);
        }
        Outcome { effects: empty, result: Ok(()), launch: Some(launch) }
    }

    /// After the loop has tried to start the game server of a launch.
    pub fn finish_launch(&mut self, launch: &GameLaunch, spawned: bool) -> (out: Outcome)
        requires
            server_ok(old(self)@),
        ensures
            realizes(final(self)@, out, finish_launch_step(old(self)@, launch@, spawned)),
            server_ok(final(self)@),
            out.launch is None,
    {
        let ghost s0 = self@;
        let mut effects: Vec<Effect> = Vec::new();
        if !spawned {
            proof {
                assert(effects_view(effects@) =~= Seq::<EffectView>::empty());
            }
            return Outcome { effects, result: Err(ServerError::LaunchFailed), launch: None };
        }
        if !contains_port(&self.used_internal_ports, launch.internal_port) {
            self.used_internal_ports.push(launch.internal_port);
        }
        if !contains_port(&self.used_external_ports, launch.external_port) {
            self.used_external_ports.push(launch.external_port);
        }
        let ghost s1 = ServerModel {
            internal: set_insert(s0.internal, launch.internal_port),
            external: set_insert(s0.external, launch.external_port),
            ..s0
        };
        proof {
            assert(self@ =~= s1);
        }
        match self.lobby_position(launch.lobby) {
            Some(j) => {
                self.lobbies[j].lobby_state = LobbyState::InGame;
                proof {
                    let l2 = LobbyModel { state: LobbyState::InGame, ..s1.lobbies[j as int] };
                    assert(self.lobbies@[j as int]@ =~= l2);
                    assert(self@ =~= with_lobby(s1, j as int, l2));
                    assert forall|m: int| 0 <= m < self@.lobbies.len() implies lobby_ok(#[trigger] self@.lobbies[m]) by {
                        if m != j {
                            assert(self@.lobbies[m] == s0.lobbies[m]);
                        }
                    }
                }
            },
            None => {},
        }
        self.broadcast_to(launch.lobby, None, LobbyToClient::PlayerLockedSelection(launch.locking_player), &mut effects);
        proof {
            assert(effects_view(effects@) =~= finish_launch_step(s0, launch@, spawned).effects);
        }
        Outcome { effects, result: Ok(()), launch: None }
    }
}

// ------------------------------------------------------------------------
// Handling a message

/// The step that handles a message of the server's queue; `fresh` is the id
/// that a lobby created by it gets.
pub open spec fn handle_step(s: ServerModel, msg: InternalMessage, fresh: LobbyId) -> (StepView, Option<LaunchView>) {
    match msg {
        InternalMessage::NewPlayer(p) => (new_player_step(s, p@), None),
        InternalMessage::PlayerDisconnected(pid) => (disconnect_step(s, pid), None),
        InternalMessage::PlayerMessage { player, message } => match message {
            ClientToLobby::Handshake { .. } => (no_step(s, Ok(())), None),
            ClientToLobby::Disconnect => (disconnect_step(s, player), None),
            ClientToLobby::FetchLobbyList => (fetch_lobby_list_step(s, player), None),
            ClientToLobby::CreateAndJoinLobby => (create_lobby_step(s, player, fresh), None),
            ClientToLobby::JoinLobby(lid) => (join_lobby_step(s, player, lid), None),
            ClientToLobby::LeaveCurrentLobby => (leave_step(s, player), None),
            ClientToLobby::GetLobbyInfo(lid) => (get_lobby_info_step(s, player, lid), None),
            ClientToLobby::GetPlayerInfo(q) => (get_player_info_step(s, player, q), None),
            ClientToLobby::SetLobbySettings(settings) => (set_settings_step(s, player, settings@), None),
            ClientToLobby::ChangePlayerTeam(mover, team) => (change_team_step(s, player, mover, team), None),
            ClientToLobby::SwitchPlayerPositions(a, b) => (switch_step(s, player, a, b), None),
            ClientToLobby::KickPlayer(k) => (kick_step(s, player, k), None),
            ClientToLobby::GoToChampSelect => (champ_select_step(s, player), None),
            ClientToLobby::SelectChamp(c) => (select_champ_step(s, player, c.0@), None),
            ClientToLobby::LockSelection => lock_step(s, player),
        },
        InternalMessage::InternalPortReleased(port) => (internal_released_step(s, port), None),
        InternalMessage::ExternalPortReleased(port) => (external_released_step(s, port), None),
        InternalMessage::GameServerClosed(lid) => (game_closed_step(s, lid), None),
        InternalMessage::GameTokenCreated(pid, token) => (token_step(s, pid, token@), None),
    }
}

/// Whether a message can be handled: a handshake comes only before a player
/// is admitted, never as a player's message.
pub open spec fn handleable(msg: InternalMessage) -> bool {
    !(msg matches InternalMessage::PlayerMessage { message: ClientToLobby::Handshake { .. }, .. })
}

impl State {
    /// A server with no players, lobbies or ports in use.
    pub fn new(options: Options) -> (r: Self)
        ensures
            r@.options == options,
            r@.players.len() == 0,
            r@.names.len() == 0,
            r@.lobbies.len() == 0,
            r@.internal.len() == 0,
            r@.external.len() == 0,
            server_ok(r@),
    {
        State {
            options,
            players: Vec::new(),
            used_player_names: Vec::new(),
            lobbies: Vec::new(),
            used_internal_ports: Vec::new(),
            used_external_ports: Vec::new(),
        }
    }

    /// Handles a message of the server's queue.
    pub fn handle(&mut self, msg: InternalMessage) -> (out: Outcome)
        requires
            server_ok(old(self)@),
            handleable(msg),
            msg is NewPlayer ==> old(self).used_player_names@.len() < usize::MAX,
        ensures
            exists|fresh: LobbyId|
                fresh.0 & crate::ids::uuid_v4_mask() == crate::ids::uuid_v4_bits()
                && realizes(final(self)@, out, (#[trigger] handle_step(old(self)@, msg, fresh)).0)
                && launches(out, handle_step(old(self)@, msg, fresh).1),
            server_ok(final(self)@),
    {
        let ghost s0 = self@;
        let ghost m = msg;
        let ghost w = LobbyId(crate::ids::uuid_v4_bits());
        proof {
            assert(crate::ids::uuid_v4_bits() & crate::ids::uuid_v4_mask() == crate::ids::uuid_v4_bits()) by (bit_vector);
        }
        match msg {
            InternalMessage::PlayerMessage { player, message: ClientToLobby::CreateAndJoinLobby } => {
                let out = self.on_create_lobby(player);
                proof {
                    let f = choose|fresh: LobbyId|
                        fresh.0 & crate::ids::uuid_v4_mask() == crate::ids::uuid_v4_bits() && realizes(
                            self@,
                            out,
                            #[trigger] create_lobby_step(s0, player, fresh),
                        );
                    assert(handle_step(s0, m, f).0 == create_lobby_step(s0, player, f));
                }
                out
            },
            _ => {
                let out = self.handle_other(msg);
                proof {
                    assert(handle_step(s0, m, w).1 == handle_step(s0, m, w).1);
                }
                out
            },
        }
    }

    /// Handles a message that creates no lobby.
    fn handle_other(&mut self, msg: InternalMessage) -> (out: Outcome)
        requires
            server_ok(old(self)@),
            handleable(msg),
            msg is NewPlayer ==> old(self).used_player_names@.len() < usize::MAX,
            !(msg matches InternalMessage::PlayerMessage { message: ClientToLobby::CreateAndJoinLobby, .. }),
        ensures
            forall|fresh: LobbyId|
                realizes(final(self)@, out, (#[trigger] handle_step(old(self)@, msg, fresh)).0)
                && launches(out, handle_step(old(self)@, msg, fresh).1),
            server_ok(final(self)@),
    {
        match msg {
            InternalMessage::NewPlayer(p) => self.on_new_player(p),
            InternalMessage::PlayerDisconnected(pid) => self.on_disconnect(pid),
            InternalMessage::PlayerMessage { player, message } => match message {
                ClientToLobby::Handshake { .. } => Outcome { effects: Vec::new(), result: Ok(()), launch: None },
                ClientToLobby::Disconnect => self.on_disconnect(player),
                ClientToLobby::FetchLobbyList => self.on_fetch_lobby_list(player),
                ClientToLobby::CreateAndJoinLobby => Outcome { effects: Vec::new(), result: Ok(()), launch: None },
                ClientToLobby::JoinLobby(lid) => self.on_join_lobby(player, lid),
                ClientToLobby::LeaveCurrentLobby => self.on_leave(player),
                ClientToLobby::GetLobbyInfo(lid) => self.on_get_lobby_info(player, lid),
                ClientToLobby::GetPlayerInfo(q) => self.on_get_player_info(player, q),
                ClientToLobby::SetLobbySettings(settings) => self.on_set_settings(player, settings),
                ClientToLobby::ChangePlayerTeam(mover, team) => self.on_change_team(player, mover, team),
                ClientToLobby::SwitchPlayerPositions(a, b) => self.on_switch(player, a, b),
                ClientToLobby::KickPlayer(k) => self.on_kick(player, k),
                ClientToLobby::GoToChampSelect => self.on_champ_select(player),
                ClientToLobby::SelectChamp(c) => self.on_select_champ(player, c),
                ClientToLobby::LockSelection => self.on_lock(player),
            },
            InternalMessage::InternalPortReleased(port) => self.on_internal_released(port),
            InternalMessage::ExternalPortReleased(port) => self.on_external_released(port),
            InternalMessage::GameServerClosed(lid) => self.on_game_closed(lid),
            InternalMessage::GameTokenCreated(pid, token) => self.on_token(pid, token),
        }
    }
}

} // verus!
