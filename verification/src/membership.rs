//! Who is in which lobby: the lobby server keeps a player's current lobby and
//! the lobby's teams in agreement. Every player of a lobby's teams is listed
//! there once and is a connected player whose current lobby it is, and every
//! player with a current lobby plays in it.

use vstd::prelude::*;
use vstd::multiset::Multiset;
use crate::ids::{LobbyId, PlayerId, Team};
use crate::lobby::{readjusted_if_needed, without_player};
use crate::protocol::{ClientToLobby, LobbyState};
use crate::server::{
    change_team_step, finish_launch_step, network_step, handle_step, led_lobby, lemma_own_lobby_bounds, own_lobby, selection_index,
    set_insert, set_remove, InternalMessage, LaunchView, SelectionView, SettingsView,
    create_lobby_step, disconnect_step, join_lobby_step, leave_step, lemma_find_first, lobby_index, new_lobby, new_player_step, player_index, server_ok,
    with_lobby, with_player_lobby, LobbyModel, PlayerView, ServerModel,
};
use crate::teams::{
    find_player_spec, first_min, in_teams, is_first_position, lemma_in_teams_found, lemma_readjusted_keeps_roster,
    lemma_roster_contains, lemma_roster_update, roster, swapped, total,
};

verus! {

broadcast use vstd::seq_lib::group_to_multiset_ensures;

/// No two players, and no two lobbies, share an id.
pub open spec fn ids_distinct(s: ServerModel) -> bool {
    &&& forall|a: int, b: int| 0 <= a < s.players.len() && 0 <= b < s.players.len() && a != b
        ==> #[trigger] s.players[a].id != #[trigger] s.players[b].id
    &&& forall|a: int, b: int| 0 <= a < s.lobbies.len() && 0 <= b < s.lobbies.len() && a != b
        ==> #[trigger] s.lobbies[a].id != #[trigger] s.lobbies[b].id
}

/// The connected player `p` has `lid` as current lobby.
pub open spec fn placed(s: ServerModel, p: PlayerId, lid: LobbyId) -> bool {
    exists|i: int| 0 <= i < s.players.len() && #[trigger] s.players[i].id == p && s.players[i].current_lobby == Some(lid)
}

/// The player `p` plays in the lobby with id `lid`.
pub open spec fn listed(s: ServerModel, p: PlayerId, lid: LobbyId) -> bool {
    exists|j: int| 0 <= j < s.lobbies.len() && #[trigger] s.lobbies[j].id == lid && roster(s.lobbies[j].teams).count(p) > 0
}

/// A lobby's teams list each player at most once, each player they list is
/// a connected player whose current lobby it is, and each player with a
/// current lobby plays in it.
pub open spec fn membership(s: ServerModel) -> bool {
    &&& forall|j: int, p: PlayerId| 0 <= j < s.lobbies.len() ==> #[trigger] roster(s.lobbies[j].teams).count(p) <= 1
    &&& forall|j: int, p: PlayerId| 0 <= j < s.lobbies.len() && #[trigger] roster(s.lobbies[j].teams).count(p) > 0
        ==> placed(s, p, s.lobbies[j].id)
    &&& forall|i: int| 0 <= i < s.players.len() && (#[trigger] s.players[i]).current_lobby is Some
        ==> listed(s, s.players[i].id, s.players[i].current_lobby->0)
}

// ------------------------------------------------------------------------
// The roster under the changes the server makes to teams

/// Taking a player out of the teams takes one of its places out of the roster.
pub proof fn lemma_roster_without(t: Seq<Seq<PlayerId>>, p: PlayerId)
    ensures
        roster(without_player(t, p)) == roster(t).remove(p),
        without_player(t, p).len() == t.len(),
{
    lemma_in_teams_found(t, p);
    lemma_roster_contains(t, p);
    match find_player_spec(t, p) {
        Some((ti, pi)) => {
            let (a, b) = choose|a: int, b: int| is_first_position(t, p, a, b);
            assert(is_first_position(t, p, ti, pi));
            let r = t[ti].remove(pi);
            lemma_roster_update(t, ti, r);
            let u = t.update(ti, r);
            assert(r.to_multiset() == t[ti].to_multiset().remove(p));
            assert(t[ti].to_multiset().count(p) > 0) by {
                assert(t[ti].contains(p)) by { assert(t[ti][pi] == p); }
            }
            assert forall|x: PlayerId| #[trigger] roster(u).count(x) == roster(t).remove(p).count(x) by {
                assert(roster(u).add(t[ti].to_multiset()).count(x) == roster(t).add(r.to_multiset()).count(x));
            }
            assert(roster(u) =~= roster(t).remove(p));
        },
        None => {
            assert(roster(t) =~= roster(t).remove(p));
        },
    }
}

/// Adding a player to a team adds a place to the roster.
pub proof fn lemma_roster_push_at(t: Seq<Seq<PlayerId>>, i: int, p: PlayerId)
    requires
        0 <= i < t.len(),
    ensures
        roster(t.update(i, t[i].push(p))) == roster(t).insert(p),
{
    let s = t[i].push(p);
    lemma_roster_update(t, i, s);
    let u = t.update(i, s);
    assert(s.to_multiset() == t[i].to_multiset().insert(p));
    assert forall|x: PlayerId| #[trigger] roster(u).count(x) == roster(t).insert(p).count(x) by {
        assert(roster(u).add(t[i].to_multiset()).count(x) == roster(t).add(s.to_multiset()).count(x));
    }
    assert(roster(u) =~= roster(t).insert(p));
}

/// A readjustment, if needed, keeps the roster.
pub proof fn lemma_roster_readjusted_if_needed(t: Seq<Seq<PlayerId>>, tc: int, max: int)
    requires
        1 <= tc,
        0 <= max,
    ensures
        roster(readjusted_if_needed(t, tc, max)) == roster(t),
{
    if crate::lobby::needs_readjustment_spec(t, tc, max) {
        lemma_readjusted_keeps_roster(t, tc, max as nat);
    }
}

// ------------------------------------------------------------------------
// Steps that keep the players, the lobby ids and the rosters

/// A state with the same players, and lobbies with the same ids and
/// rosters in the same order, keeps the ids distinct and the membership.
proof fn lemma_same_rosters(s: ServerModel, s2: ServerModel)
    requires
        ids_distinct(s),
        membership(s),
        s2.players.len() == s.players.len(),
        forall|i: int| 0 <= i < s.players.len() ==> (#[trigger] s2.players[i]).id == s.players[i].id
            && s2.players[i].current_lobby == s.players[i].current_lobby,
        s2.lobbies.len() == s.lobbies.len(),
        forall|j: int| 0 <= j < s.lobbies.len() ==> (#[trigger] s2.lobbies[j]).id == s.lobbies[j].id
            && roster(s2.lobbies[j].teams) == roster(s.lobbies[j].teams),
    ensures
        ids_distinct(s2),
        membership(s2),
{
    assert forall|a: int, b: int| 0 <= a < s2.players.len() && 0 <= b < s2.players.len() && a != b
        implies #[trigger] s2.players[a].id != #[trigger] s2.players[b].id by {
        assert(s.players[a].id != s.players[b].id);
    }
    assert forall|a: int, b: int| 0 <= a < s2.lobbies.len() && 0 <= b < s2.lobbies.len() && a != b
        implies #[trigger] s2.lobbies[a].id != #[trigger] s2.lobbies[b].id by {
        assert(s.lobbies[a].id != s.lobbies[b].id);
    }
    assert forall|j: int, p: PlayerId| 0 <= j < s2.lobbies.len() implies #[trigger] roster(s2.lobbies[j].teams).count(p) <= 1 by {
        assert(s2.lobbies[j].id == s.lobbies[j].id);
        assert(roster(s.lobbies[j].teams).count(p) <= 1);
    }
    assert forall|j: int, p: PlayerId| 0 <= j < s2.lobbies.len() && #[trigger] roster(s2.lobbies[j].teams).count(p) > 0
        implies placed(s2, p, s2.lobbies[j].id) by {
        assert(s2.lobbies[j].id == s.lobbies[j].id);
        assert(roster(s.lobbies[j].teams).count(p) > 0);
        assert(placed(s, p, s.lobbies[j].id));
        let i = choose|i: int| 0 <= i < s.players.len() && #[trigger] s.players[i].id == p
            && s.players[i].current_lobby == Some(s.lobbies[j].id);
        assert(s2.players[i].id == p);
    }
    assert forall|i: int| 0 <= i < s2.players.len() && (#[trigger] s2.players[i]).current_lobby is Some
        implies listed(s2, s2.players[i].id, s2.players[i].current_lobby->0) by {
        assert(s2.players[i].id == s.players[i].id);
        let lid = s.players[i].current_lobby->0;
        assert(listed(s, s.players[i].id, lid));
        let j = choose|j: int| 0 <= j < s.lobbies.len() && #[trigger] s.lobbies[j].id == lid
            && roster(s.lobbies[j].teams).count(s.players[i].id) > 0;
        assert(s2.lobbies[j].id == s.lobbies[j].id);
    }
}

/// A connected player without a current lobby plays in no lobby.
proof fn lemma_unplaced(s: ServerModel, pi: int, j: int)
    requires
        ids_distinct(s),
        membership(s),
        0 <= pi < s.players.len(),
        s.players[pi].current_lobby is None,
        0 <= j < s.lobbies.len(),
    ensures
        roster(s.lobbies[j].teams).count(s.players[pi].id) == 0,
{
    let p = s.players[pi].id;
    if roster(s.lobbies[j].teams).count(p) > 0 {
        assert(placed(s, p, s.lobbies[j].id));
        let i = choose|i: int| 0 <= i < s.players.len() && #[trigger] s.players[i].id == p
            && s.players[i].current_lobby == Some(s.lobbies[j].id);
        if i != pi {
            assert(s.players[i].id != s.players[pi].id);
        }
    }
}

/// A connected player with a current lobby plays once in it, and that lobby
/// is the one `lobby_index` finds.
proof fn lemma_placed_once(s: ServerModel, pi: int)
    requires
        ids_distinct(s),
        membership(s),
        0 <= pi < s.players.len(),
        s.players[pi].current_lobby is Some,
    ensures
        lobby_index(s.lobbies, s.players[pi].current_lobby->0) matches Some(j)
            && roster(s.lobbies[j].teams).count(s.players[pi].id) == 1,
{
    let lid = s.players[pi].current_lobby->0;
    let p = s.players[pi].id;
    assert(listed(s, p, lid));
    let k = choose|k: int| 0 <= k < s.lobbies.len() && #[trigger] s.lobbies[k].id == lid
        && roster(s.lobbies[k].teams).count(p) > 0;
    lemma_find_first(s.lobbies, |l: LobbyModel| l.id == lid);
    match lobby_index(s.lobbies, lid) {
        Some(j) => {
            if j != k {
                assert(s.lobbies[j].id != s.lobbies[k].id);
            }
            assert(roster(s.lobbies[k].teams).count(p) <= 1);
        },
        None => {
            assert((|l: LobbyModel| l.id == lid)(s.lobbies[k]));
        },
    }
}

/// A new connection with a fresh id and no current lobby keeps the ids
/// distinct and the membership.
proof fn lemma_new_player(s: ServerModel, p: PlayerView)
    requires
        ids_distinct(s),
        membership(s),
        player_index(s.players, p.id) is None,
        p.current_lobby is None,
    ensures
        ids_distinct(new_player_step(s, p).state),
        membership(new_player_step(s, p).state),
{
    let s2 = new_player_step(s, p).state;
    let n = s.players.len() as int;
    lemma_find_first(s.players, |q: PlayerView| q.id == p.id);
    assert(s2.players == s.players.push(PlayerView { name: crate::names::unused_name(p.name, s.names), ..p }));
    assert forall|a: int, b: int| 0 <= a < s2.players.len() && 0 <= b < s2.players.len() && a != b
        implies #[trigger] s2.players[a].id != #[trigger] s2.players[b].id by {
        if a == n {
            assert(!(|q: PlayerView| q.id == p.id)(s.players[b]));
        } else if b == n {
            assert(!(|q: PlayerView| q.id == p.id)(s.players[a]));
        } else {
            assert(s.players[a].id != s.players[b].id);
        }
    }
    assert forall|j: int, x: PlayerId| 0 <= j < s2.lobbies.len() && #[trigger] roster(s2.lobbies[j].teams).count(x) > 0
        implies placed(s2, x, s2.lobbies[j].id) by {
        assert(placed(s, x, s.lobbies[j].id));
        let i = choose|i: int| 0 <= i < s.players.len() && #[trigger] s.players[i].id == x
            && s.players[i].current_lobby == Some(s.lobbies[j].id);
        assert(s2.players[i] == s.players[i]);
    }
    assert forall|i: int| 0 <= i < s2.players.len() && (#[trigger] s2.players[i]).current_lobby is Some
        implies listed(s2, s2.players[i].id, s2.players[i].current_lobby->0) by {
        assert(i < n);
        assert(s2.players[i] == s.players[i]);
        assert(listed(s, s.players[i].id, s.players[i].current_lobby->0));
    }
}

/// A new lobby with a fresh id keeps the ids distinct and the membership.
proof fn lemma_create(s: ServerModel, pid: PlayerId, fresh: LobbyId)
    requires
        ids_distinct(s),
        membership(s),
        lobby_index(s.lobbies, fresh) is None,
    ensures
        ids_distinct(create_lobby_step(s, pid, fresh).state),
        membership(create_lobby_step(s, pid, fresh).state),
{
    lemma_find_first(s.players, |q: PlayerView| q.id == pid);
    lemma_find_first(s.lobbies, |l: LobbyModel| l.id == fresh);
    if let Some(pi) = player_index(s.players, pid) {
        if s.players[pi].current_lobby is None {
            let nl = new_lobby(s.players[pi], fresh);
            let s1 = with_player_lobby(s, pi, Some(fresh));
            let s2 = create_lobby_step(s, pid, fresh).state;
            let n = s.lobbies.len() as int;
            assert(s2.lobbies == s.lobbies.push(nl));
            assert(s2.players == s1.players);
            // the new lobby's roster is the creator alone
            let t = nl.teams;
            assert(t.drop_last() =~= seq![seq![pid]]);
            assert(t.drop_last().drop_last() =~= Seq::<Seq<PlayerId>>::empty());
            reveal_with_fuel(roster, 3);
            assert(roster(t) =~= Multiset::empty().add(seq![pid].to_multiset()).add(Seq::<PlayerId>::empty().to_multiset()));
            assert(seq![pid].to_multiset() =~= Seq::<PlayerId>::empty().to_multiset().insert(pid)) by {
                assert(seq![pid] =~= Seq::<PlayerId>::empty().push(pid));
            }
            assert forall|x: PlayerId| roster(t).count(x) == if x == pid { 1nat } else { 0nat } by {}
            assert forall|a: int, b: int| 0 <= a < s2.players.len() && 0 <= b < s2.players.len() && a != b
                implies #[trigger] s2.players[a].id != #[trigger] s2.players[b].id by {
                assert(s.players[a].id != s.players[b].id);
            }
            assert forall|a: int, b: int| 0 <= a < s2.lobbies.len() && 0 <= b < s2.lobbies.len() && a != b
                implies #[trigger] s2.lobbies[a].id != #[trigger] s2.lobbies[b].id by {
                if a == n {
                    assert(!(|l: LobbyModel| l.id == fresh)(s.lobbies[b]));
                } else if b == n {
                    assert(!(|l: LobbyModel| l.id == fresh)(s.lobbies[a]));
                } else {
                    assert(s.lobbies[a].id != s.lobbies[b].id);
                }
            }
            assert forall|j: int, x: PlayerId| 0 <= j < s2.lobbies.len() implies #[trigger] roster(s2.lobbies[j].teams).count(x) <= 1 by {
                if j < n {
                    assert(s2.lobbies[j] == s.lobbies[j]);
                    assert(roster(s.lobbies[j].teams).count(x) <= 1);
                }
            }
            assert forall|j: int, x: PlayerId| 0 <= j < s2.lobbies.len() && #[trigger] roster(s2.lobbies[j].teams).count(x) > 0
                implies placed(s2, x, s2.lobbies[j].id) by {
                if j == n {
                    assert(x == pid);
                    assert(s2.players[pi].id == pid);
                } else {
                    assert(s2.lobbies[j] == s.lobbies[j]);
                    if x == pid {
                        lemma_unplaced(s, pi, j);
                    }
                    assert(placed(s, x, s.lobbies[j].id));
                    let i = choose|i: int| 0 <= i < s.players.len() && #[trigger] s.players[i].id == x
                        && s.players[i].current_lobby == Some(s.lobbies[j].id);
                    assert(i != pi);
                    assert(s2.players[i] == s.players[i]);
                }
            }
            assert forall|i: int| 0 <= i < s2.players.len() && (#[trigger] s2.players[i]).current_lobby is Some
                implies listed(s2, s2.players[i].id, s2.players[i].current_lobby->0) by {
                if i == pi {
                    assert(s2.lobbies[n].id == fresh);
                    assert(roster(s2.lobbies[n].teams).count(pid) > 0);
                } else {
                    assert(s2.players[i] == s.players[i]);
                    let lid = s.players[i].current_lobby->0;
                    assert(listed(s, s.players[i].id, lid));
                    let j = choose|j: int| 0 <= j < s.lobbies.len() && #[trigger] s.lobbies[j].id == lid
                        && roster(s.lobbies[j].teams).count(s.players[i].id) > 0;
                    assert(s2.lobbies[j] == s.lobbies[j]);
                }
            }
        }
    }
}

/// Joining a lobby keeps the ids distinct and the membership.
proof fn lemma_join(s: ServerModel, pid: PlayerId, lid: LobbyId)
    requires
        server_ok(s),
        ids_distinct(s),
        membership(s),
    ensures
        ids_distinct(join_lobby_step(s, pid, lid).state),
        membership(join_lobby_step(s, pid, lid).state),
{
    lemma_find_first(s.players, |q: PlayerView| q.id == pid);
    lemma_find_first(s.lobbies, |l: LobbyModel| l.id == lid);
    let s2 = join_lobby_step(s, pid, lid).state;
    if s2 != s {
        let pi = player_index(s.players, pid)->0;
        let j0 = lobby_index(s.lobbies, lid)->0;
        let l = s.lobbies[j0];
        assert(crate::server::lobby_ok(l));
        let i0 = first_min(l.teams, l.teams.len() as int);
        crate::teams::lemma_first_min(l.teams, l.teams.len() as int);
        let l2 = LobbyModel { teams: l.teams.update(i0, l.teams[i0].push(pid)), ..l };
        let s1 = with_player_lobby(s, pi, Some(lid));
        assert(s2 == with_lobby(s1, j0, l2));
        assert(s.players[pi].current_lobby is None);
        lemma_roster_push_at(l.teams, i0, pid);
        lemma_unplaced(s, pi, j0);
        assert forall|a: int, b: int| 0 <= a < s2.players.len() && 0 <= b < s2.players.len() && a != b
            implies #[trigger] s2.players[a].id != #[trigger] s2.players[b].id by {
            assert(s.players[a].id != s.players[b].id);
        }
        assert forall|a: int, b: int| 0 <= a < s2.lobbies.len() && 0 <= b < s2.lobbies.len() && a != b
            implies #[trigger] s2.lobbies[a].id != #[trigger] s2.lobbies[b].id by {
            assert(s.lobbies[a].id != s.lobbies[b].id);
        }
        assert forall|j: int, x: PlayerId| 0 <= j < s2.lobbies.len() implies #[trigger] roster(s2.lobbies[j].teams).count(x) <= 1 by {
            assert(roster(s.lobbies[j].teams).count(x) <= 1);
        }
        assert forall|j: int, x: PlayerId| 0 <= j < s2.lobbies.len() && #[trigger] roster(s2.lobbies[j].teams).count(x) > 0
            implies placed(s2, x, s2.lobbies[j].id) by {
            if j == j0 && x == pid {
                assert(s2.players[pi].id == pid);
            } else {
                if x == pid {
                    lemma_unplaced(s, pi, j);
                }
                assert(roster(s.lobbies[j].teams).count(x) > 0);
                assert(placed(s, x, s.lobbies[j].id));
                let i = choose|i: int| 0 <= i < s.players.len() && #[trigger] s.players[i].id == x
                    && s.players[i].current_lobby == Some(s.lobbies[j].id);
                assert(i != pi);
                assert(s2.players[i] == s.players[i]);
            }
        }
        assert forall|i: int| 0 <= i < s2.players.len() && (#[trigger] s2.players[i]).current_lobby is Some
            implies listed(s2, s2.players[i].id, s2.players[i].current_lobby->0) by {
            if i == pi {
                assert(s2.lobbies[j0].id == lid);
                assert(roster(s2.lobbies[j0].teams).count(pid) > 0);
            } else {
                assert(s2.players[i] == s.players[i]);
                let lid2 = s.players[i].current_lobby->0;
                assert(listed(s, s.players[i].id, lid2));
                let j = choose|j: int| 0 <= j < s.lobbies.len() && #[trigger] s.lobbies[j].id == lid2
                    && roster(s.lobbies[j].teams).count(s.players[i].id) > 0;
                assert(s2.lobbies[j].id == s.lobbies[j].id);
                assert(roster(s2.lobbies[j].teams).count(s.players[i].id) > 0);
            }
        }
    }
}

/// Leaving a lobby (also on a kick or a disconnection) keeps the ids
/// distinct and the membership, and leaves the player with no current lobby.
proof fn lemma_leave(s: ServerModel, pid: PlayerId)
    requires
        server_ok(s),
        ids_distinct(s),
        membership(s),
    ensures
        ids_distinct(leave_step(s, pid).state),
        membership(leave_step(s, pid).state),
        leave_step(s, pid).state.players.len() == s.players.len(),
        forall|i: int| 0 <= i < s.players.len() ==> (#[trigger] leave_step(s, pid).state.players[i]).id == s.players[i].id
            && leave_step(s, pid).state.players[i].name == s.players[i].name,
        player_index(s.players, pid) matches Some(pi) ==> leave_step(s, pid).state.players[pi].current_lobby is None,
{
    lemma_find_first(s.players, |q: PlayerView| q.id == pid);
    let s2 = leave_step(s, pid).state;
    if let Some(pi) = player_index(s.players, pid) {
        if let Some(lid) = s.players[pi].current_lobby {
            lemma_placed_once(s, pi);
            let j = lobby_index(s.lobbies, lid)->0;
            lemma_find_first(s.lobbies, |l: LobbyModel| l.id == lid);
            let l = s.lobbies[j];
            assert(crate::server::lobby_ok(l));
            let tc = l.settings.team_count as int;
            let max = l.settings.max_players_per_team as int;
            let t1 = without_player(l.teams, pid);
            let teams = readjusted_if_needed(t1, tc, max);
            lemma_roster_without(l.teams, pid);
            lemma_roster_readjusted_if_needed(t1, tc, max);
            let r = roster(l.teams);
            assert(roster(teams) == r.remove(pid));
            assert(r.count(pid) == 1);
            assert forall|x: PlayerId| x != pid implies #[trigger] roster(teams).count(x) == r.count(x) by {}
            assert(roster(teams).count(pid) == 0);
            let s1 = with_player_lobby(s, pi, None);
            assert forall|a: int, b: int| 0 <= a < s2.players.len() && 0 <= b < s2.players.len() && a != b
                implies #[trigger] s2.players[a].id != #[trigger] s2.players[b].id by {
                assert(s.players[a].id != s.players[b].id);
            }
            if total(teams) == 0 {
                crate::teams::lemma_roster_len(teams);
                assert forall|x: PlayerId| #[trigger] roster(teams).count(x) == 0 by {}
                let ls = s.lobbies.remove(j);
                assert(s2.lobbies == ls);
                assert(s2.players == s1.players);
                assert forall|k: int| 0 <= k < ls.len() implies #[trigger] ls[k] == s.lobbies[if k < j { k } else { k + 1 }] by {}
                assert forall|a: int, b: int| 0 <= a < s2.lobbies.len() && 0 <= b < s2.lobbies.len() && a != b
                    implies #[trigger] s2.lobbies[a].id != #[trigger] s2.lobbies[b].id by {
                    let a2 = if a < j { a } else { a + 1 };
                    let b2 = if b < j { b } else { b + 1 };
                    assert(ls[a] == s.lobbies[a2]);
                    assert(ls[b] == s.lobbies[b2]);
                    assert(s.lobbies[a2].id != s.lobbies[b2].id);
                }
                assert forall|k: int, x: PlayerId| 0 <= k < s2.lobbies.len() implies #[trigger] roster(s2.lobbies[k].teams).count(x) <= 1 by {
                    let k2 = if k < j { k } else { k + 1 };
                    assert(ls[k] == s.lobbies[k2]);
                    assert(roster(s.lobbies[k2].teams).count(x) <= 1);
                }
                assert forall|k: int, x: PlayerId| 0 <= k < s2.lobbies.len() && #[trigger] roster(s2.lobbies[k].teams).count(x) > 0
                    implies placed(s2, x, s2.lobbies[k].id) by {
                    let k2 = if k < j { k } else { k + 1 };
                    assert(ls[k] == s.lobbies[k2]);
                    assert(roster(s.lobbies[k2].teams).count(x) > 0);
                    assert(placed(s, x, s.lobbies[k2].id));
                    let i = choose|i: int| 0 <= i < s.players.len() && #[trigger] s.players[i].id == x
                        && s.players[i].current_lobby == Some(s.lobbies[k2].id);
                    if i == pi {
                        assert(s.lobbies[k2].id != s.lobbies[j].id);
                    }
                    assert(s2.players[i] == s.players[i]);
                }
                assert forall|i: int| 0 <= i < s2.players.len() && (#[trigger] s2.players[i]).current_lobby is Some
                    implies listed(s2, s2.players[i].id, s2.players[i].current_lobby->0) by {
                    assert(i != pi);
                    assert(s2.players[i] == s.players[i]);
                    let x = s.players[i].id;
                    assert(x != pid) by { assert(s.players[i].id != s.players[pi].id); }
                    let lid2 = s.players[i].current_lobby->0;
                    assert(listed(s, x, lid2));
                    let k2 = choose|k: int| 0 <= k < s.lobbies.len() && #[trigger] s.lobbies[k].id == lid2
                        && roster(s.lobbies[k].teams).count(x) > 0;
                    if k2 == j {
                        assert(roster(teams).count(x) == r.count(x));
                    }
                    let k = if k2 < j { k2 } else { k2 - 1 };
                    assert(ls[k] == s.lobbies[k2]);
                }
            } else {
                let in_cs = l.state == crate::protocol::LobbyState::InChampSelect;
                let leader = if l.leader == pid && crate::lobby::first_player(t1) is Some {
                    crate::lobby::first_player(t1)->0
                } else {
                    l.leader
                };
                let l2 = LobbyModel {
                    teams,
                    leader,
                    state: if in_cs { crate::protocol::LobbyState::InLobby } else { l.state },
                    selected: if in_cs { Seq::empty() } else { l.selected },
                    ..l
                };
                assert(s2 == with_lobby(s1, j, l2));
                assert forall|a: int, b: int| 0 <= a < s2.lobbies.len() && 0 <= b < s2.lobbies.len() && a != b
                    implies #[trigger] s2.lobbies[a].id != #[trigger] s2.lobbies[b].id by {
                    assert(s.lobbies[a].id != s.lobbies[b].id);
                }
                assert forall|k: int, x: PlayerId| 0 <= k < s2.lobbies.len() implies #[trigger] roster(s2.lobbies[k].teams).count(x) <= 1 by {
                    assert(roster(s.lobbies[k].teams).count(x) <= 1);
                }
                assert forall|k: int, x: PlayerId| 0 <= k < s2.lobbies.len() && #[trigger] roster(s2.lobbies[k].teams).count(x) > 0
                    implies placed(s2, x, s2.lobbies[k].id) by {
                    assert(roster(s.lobbies[k].teams).count(x) > 0);
                    assert(placed(s, x, s.lobbies[k].id));
                    let i = choose|i: int| 0 <= i < s.players.len() && #[trigger] s.players[i].id == x
                        && s.players[i].current_lobby == Some(s.lobbies[k].id);
                    if i == pi {
                        if k != j {
                            assert(s.lobbies[k].id != s.lobbies[j].id);
                        }
                    }
                    assert(s2.players[i] == s.players[i]);
                }
                assert forall|i: int| 0 <= i < s2.players.len() && (#[trigger] s2.players[i]).current_lobby is Some
                    implies listed(s2, s2.players[i].id, s2.players[i].current_lobby->0) by {
                    assert(i != pi);
                    assert(s2.players[i] == s.players[i]);
                    let x = s.players[i].id;
                    assert(x != pid) by { assert(s.players[i].id != s.players[pi].id); }
                    let lid2 = s.players[i].current_lobby->0;
                    assert(listed(s, x, lid2));
                    let k = choose|k: int| 0 <= k < s.lobbies.len() && #[trigger] s.lobbies[k].id == lid2
                        && roster(s.lobbies[k].teams).count(x) > 0;
                    assert(s2.lobbies[k].id == lid2);
                    assert(roster(s2.lobbies[k].teams).count(x) > 0);
                }
            }
        }
    }
}

/// A disconnection keeps the ids distinct and the membership.
proof fn lemma_disconnect(s: ServerModel, pid: PlayerId)
    requires
        server_ok(s),
        ids_distinct(s),
        membership(s),
    ensures
        ids_distinct(disconnect_step(s, pid).state),
        membership(disconnect_step(s, pid).state),
{
    lemma_leave(s, pid);
    let s1 = leave_step(s, pid).state;
    lemma_find_first(s.players, |q: PlayerView| q.id == pid);
    lemma_find_first(s1.players, |q: PlayerView| q.id == pid);
    if let Some(i0) = player_index(s1.players, pid) {
        let pi = player_index(s.players, pid)->0;
        if pi != i0 {
            assert(s1.players[pi].id == pid);
            assert(s1.players[i0].id != s1.players[pi].id);
        }
        assert(s1.players[i0].current_lobby is None);
        let s2 = disconnect_step(s, pid).state;
        let ps = s1.players.remove(i0);
        assert(s2.players == ps);
        assert(s2.lobbies == s1.lobbies);
        assert forall|k: int| 0 <= k < ps.len() implies #[trigger] ps[k] == s1.players[if k < i0 { k } else { k + 1 }] by {}
        assert forall|a: int, b: int| 0 <= a < s2.players.len() && 0 <= b < s2.players.len() && a != b
            implies #[trigger] s2.players[a].id != #[trigger] s2.players[b].id by {
            let a2 = if a < i0 { a } else { a + 1 };
            let b2 = if b < i0 { b } else { b + 1 };
            assert(ps[a] == s1.players[a2]);
            assert(ps[b] == s1.players[b2]);
            assert(s1.players[a2].id != s1.players[b2].id);
        }
        assert forall|a: int, b: int| 0 <= a < s2.lobbies.len() && 0 <= b < s2.lobbies.len() && a != b
            implies #[trigger] s2.lobbies[a].id != #[trigger] s2.lobbies[b].id by {
            assert(s1.lobbies[a].id != s1.lobbies[b].id);
        }
        assert forall|k: int, x: PlayerId| 0 <= k < s2.lobbies.len() implies #[trigger] roster(s2.lobbies[k].teams).count(x) <= 1 by {
            assert(roster(s1.lobbies[k].teams).count(x) <= 1);
        }
        assert forall|k: int, x: PlayerId| 0 <= k < s2.lobbies.len() && #[trigger] roster(s2.lobbies[k].teams).count(x) > 0
            implies placed(s2, x, s2.lobbies[k].id) by {
            assert(roster(s1.lobbies[k].teams).count(x) > 0);
            assert(placed(s1, x, s1.lobbies[k].id));
            let i = choose|i: int| 0 <= i < s1.players.len() && #[trigger] s1.players[i].id == x
                && s1.players[i].current_lobby == Some(s1.lobbies[k].id);
            assert(i != i0);
            let i2 = if i < i0 { i } else { i - 1 };
            assert(ps[i2] == s1.players[i]);
        }
        assert forall|i: int| 0 <= i < s2.players.len() && (#[trigger] s2.players[i]).current_lobby is Some
            implies listed(s2, s2.players[i].id, s2.players[i].current_lobby->0) by {
            let i2 = if i < i0 { i } else { i + 1 };
            assert(ps[i] == s1.players[i2]);
            assert(listed(s1, s1.players[i2].id, s1.players[i2].current_lobby->0));
        }
    }
}

/// Changing one lobby, keeping its id and its roster, keeps the ids
/// distinct and the membership.
proof fn lemma_lobby_same_roster(s: ServerModel, j: int, l2: LobbyModel)
    requires
        ids_distinct(s),
        membership(s),
        0 <= j < s.lobbies.len(),
        l2.id == s.lobbies[j].id,
        roster(l2.teams) == roster(s.lobbies[j].teams),
    ensures
        ids_distinct(with_lobby(s, j, l2)),
        membership(with_lobby(s, j, l2)),
{
    lemma_same_rosters(s, with_lobby(s, j, l2));
}

/// Moving a player of the mover's lobby to another team keeps the ids
/// distinct and the membership.
proof fn lemma_change_team(s: ServerModel, pid: PlayerId, mover: PlayerId, team: Team)
    requires
        ids_distinct(s),
        membership(s),
        own_lobby(s, pid) matches Ok(j) ==> in_teams(s.lobbies[j].teams, mover),
    ensures
        ids_distinct(change_team_step(s, pid, mover, team).state),
        membership(change_team_step(s, pid, mover, team).state),
{
    lemma_own_lobby_bounds(s, pid);
    if let Ok(j) = own_lobby(s, pid) {
        let l = s.lobbies[j];
        if change_team_step(s, pid, mover, team).state != s {
            let t1 = without_player(l.teams, mover);
            lemma_roster_without(l.teams, mover);
            lemma_roster_contains(l.teams, mover);
            lemma_roster_push_at(t1, team.0 as int, mover);
            let t2 = t1.update(team.0 as int, t1[team.0 as int].push(mover));
            assert(roster(t2) =~= roster(l.teams));
            lemma_lobby_same_roster(s, j, LobbyModel { teams: t2, ..l });
        }
    }
}

/// Handling a message keeps the ids of players and of lobbies distinct, the
/// players of each lobby's teams listed once, each a connected player whose
/// current lobby it is, and each player who has a current lobby playing in
/// it, provided that a new connection brings an id not in use and no current
/// lobby, that a new lobby gets an id not in use, and that a player moved to
/// another team plays in the lobby of the player who moves them.
pub proof fn lemma_handle_keeps_membership(s: ServerModel, msg: InternalMessage, fresh: LobbyId)
    requires
        server_ok(s),
        ids_distinct(s),
        membership(s),
        msg matches InternalMessage::NewPlayer(p) ==> player_index(s.players, p@.id) is None && p@.current_lobby is None,
        msg matches InternalMessage::PlayerMessage { message: ClientToLobby::CreateAndJoinLobby, .. }
            ==> lobby_index(s.lobbies, fresh) is None,
        msg matches InternalMessage::PlayerMessage { player, message: ClientToLobby::ChangePlayerTeam(mover, _) }
            ==> (own_lobby(s, player) matches Ok(j) ==> in_teams(s.lobbies[j].teams, mover)),
    ensures
        ids_distinct(handle_step(s, msg, fresh).0.state),
        membership(handle_step(s, msg, fresh).0.state),
{
    match msg {
        InternalMessage::NewPlayer(p) => {
            lemma_new_player(s, p@);
        },
        InternalMessage::PlayerDisconnected(pid) => {
            lemma_disconnect(s, pid);
        },
        InternalMessage::PlayerMessage { player, message } => match message {
            ClientToLobby::Disconnect => {
                lemma_disconnect(s, player);
            },
            ClientToLobby::CreateAndJoinLobby => {
                lemma_create(s, player, fresh);
            },
            ClientToLobby::JoinLobby(lid) => {
                lemma_join(s, player, lid);
            },
            ClientToLobby::LeaveCurrentLobby => {
                lemma_leave(s, player);
            },
            ClientToLobby::KickPlayer(k) => {
                lemma_leave(s, k);
            },
            ClientToLobby::SetLobbySettings(settings) => {
                lemma_own_lobby_bounds(s, player);
                if let Ok(j) = led_lobby(s, player) {
                    let l = s.lobbies[j];
                    let new = settings@;
                    let tc: int = if new.team_count < 1 { 1 } else { new.team_count as int };
                    let max: int = if new.max_players_per_team < 1 { 1 } else { new.max_players_per_team as int };
                    lemma_roster_readjusted_if_needed(l.teams, tc, max);
                    let ns = SettingsView {
                        team_count: if new.team_count < 1 { 1 } else { new.team_count },
                        max_players_per_team: if new.max_players_per_team < 1 { 1 } else { new.max_players_per_team },
                        ..new
                    };
                    lemma_lobby_same_roster(s, j, LobbyModel {
                        settings: ns,
                        teams: readjusted_if_needed(l.teams, ns.team_count as int, ns.max_players_per_team as int),
                        ..l
                    });
                }
            },
            ClientToLobby::ChangePlayerTeam(mover, team) => {
                lemma_change_team(s, player, mover, team);
            },
            ClientToLobby::SwitchPlayerPositions(a, b) => {
                lemma_own_lobby_bounds(s, player);
                if let Ok(j) = led_lobby(s, player) {
                    let l = s.lobbies[j];
                    if a != b {
                        if let (Some((ta, ia)), Some((tb, ib))) = (find_player_spec(l.teams, a), find_player_spec(l.teams, b)) {
                            let (xa, ya) = choose|x: int, y: int| is_first_position(l.teams, a, x, y);
                            let (xb, yb) = choose|x: int, y: int| is_first_position(l.teams, b, x, y);
                            assert(is_first_position(l.teams, a, ta, ia));
                            assert(is_first_position(l.teams, b, tb, ib));
                            crate::teams::lemma_swapped_keeps_roster(l.teams, ta, ia, tb, ib);
                            lemma_lobby_same_roster(s, j, LobbyModel { teams: swapped(l.teams, ta, ia, tb, ib), ..l });
                        }
                    }
                }
            },
            ClientToLobby::GoToChampSelect => {
                lemma_own_lobby_bounds(s, player);
                if let Ok(j) = led_lobby(s, player) {
                    let l = s.lobbies[j];
                    lemma_lobby_same_roster(s, j, LobbyModel { state: LobbyState::InChampSelect, ..l });
                }
            },
            ClientToLobby::SelectChamp(c) => {
                lemma_own_lobby_bounds(s, player);
                if let Ok(j) = own_lobby(s, player) {
                    let l = s.lobbies[j];
                    let champ = c.0@;
                    match selection_index(l.selected, player) {
                        Some(k) => {
                            let sel2 = l.selected.update(k, (l.selected[k].0, SelectionView { champ, locked: false }));
                            lemma_lobby_same_roster(s, j, LobbyModel { selected: sel2, ..l });
                        },
                        None => {
                            let sel2 = l.selected.push((player, SelectionView { champ, locked: false }));
                            lemma_lobby_same_roster(s, j, LobbyModel { selected: sel2, ..l });
                        },
                    }
                }
            },
            ClientToLobby::LockSelection => {
                lemma_own_lobby_bounds(s, player);
                if let Ok(j) = own_lobby(s, player) {
                    let l = s.lobbies[j];
                    if let Some(k) = selection_index(l.selected, player) {
                        let sel2 = l.selected.update(k, (l.selected[k].0, SelectionView { locked: true, ..l.selected[k].1 }));
                        lemma_lobby_same_roster(s, j, LobbyModel { selected: sel2, ..l });
                    }
                }
            },
            _ => {},
        },
        InternalMessage::GameServerClosed(lid) => {
            lemma_find_first(s.lobbies, |l: LobbyModel| l.id == lid);
            if let Some(j) = lobby_index(s.lobbies, lid) {
                let l = s.lobbies[j];
                lemma_lobby_same_roster(s, j, LobbyModel { state: LobbyState::InLobby, selected: Seq::empty(), ..l });
            }
        },
        InternalMessage::InternalPortReleased(port) => {
            lemma_same_rosters(s, ServerModel { internal: set_remove(s.internal, port), ..s });
        },
        InternalMessage::ExternalPortReleased(port) => {
            lemma_same_rosters(s, ServerModel { external: set_remove(s.external, port), ..s });
        },
        InternalMessage::GameTokenCreated(..) => {},
    }
}

/// Finishing a launch keeps the ids distinct and the membership.
pub proof fn lemma_finish_launch_keeps_membership(s: ServerModel, g: LaunchView, spawned: bool)
    requires
        ids_distinct(s),
        membership(s),
    ensures
        ids_distinct(finish_launch_step(s, g, spawned).state),
        membership(finish_launch_step(s, g, spawned).state),
{
    if spawned {
        let s1 = ServerModel {
            internal: set_insert(s.internal, g.internal_port),
            external: set_insert(s.external, g.external_port),
            ..s
        };
        lemma_same_rosters(s, s1);
        lemma_find_first(s1.lobbies, |l: LobbyModel| l.id == g.lobby);
        if let Some(j) = lobby_index(s1.lobbies, g.lobby) {
            lemma_lobby_same_roster(s1, j, LobbyModel { state: LobbyState::InGame, ..s1.lobbies[j] });
        }
    }
}

/// Reading a player's address again keeps the ids distinct and the membership.
pub proof fn lemma_network_keeps_membership(s: ServerModel, pid: PlayerId, is_ipv4: bool, is_local: bool)
    requires
        ids_distinct(s),
        membership(s),
    ensures
        ids_distinct(network_step(s, pid, is_ipv4, is_local)),
        membership(network_step(s, pid, is_ipv4, is_local)),
{
    lemma_find_first(s.players, |q: PlayerView| q.id == pid);
    lemma_same_rosters(s, network_step(s, pid, is_ipv4, is_local));
}

} // verus!
