//! A lobby on the lobby server: its settings, its teams, its leader and the
//! champion choices of its players.

use vstd::prelude::*;
use crate::ids::{LobbyId, PlayerId};
use crate::protocol::{ChampionSelection, LobbyInfo, LobbySettings, LobbyShortInfo, LobbyState, word_product};
use crate::teams::{
    add_to_smallest_team, all_empty, count_players, first_min, readjust_teams, readjusted,
    remove_from_teams, find_player_spec, teams_view, total, in_teams,
};

verus! {

/// The first team, among the first `k`, that has a player.
pub open spec fn first_nonempty(t: Seq<Seq<PlayerId>>, k: int) -> Option<int>
    decreases k,
{
    if k <= 0 {
        None
    } else {
        match first_nonempty(t, k - 1) {
            Some(j) => Some(j),
            None => if t[k - 1].len() > 0 {
                Some(k - 1)
            } else {
                None
            },
        }
    }
}

/// The first player of the teams, read team by team.
pub open spec fn first_player(t: Seq<Seq<PlayerId>>) -> Option<PlayerId> {
    match first_nonempty(t, t.len() as int) {
        Some(j) => Some(t[j][0]),
        None => None,
    }
}

/// Whether the teams need a readjustment: their number differs from the
/// setting, or some but not all teams hold more players than allowed.
pub open spec fn needs_readjustment_spec(t: Seq<Seq<PlayerId>>, tc: int, max: int) -> bool {
    t.len() != tc || ((exists|i: int| 0 <= i < t.len() && #[trigger] t[i].len() > max) && !(forall|i: int|
        0 <= i < t.len() ==> #[trigger] t[i].len() > max))
}

/// The teams after a readjustment, if one is needed.
pub open spec fn readjusted_if_needed(t: Seq<Seq<PlayerId>>, tc: int, max: int) -> Seq<Seq<PlayerId>> {
    if needs_readjustment_spec(t, tc, max) {
        readjusted(t, tc, max as nat)
    } else {
        t
    }
}

/// The teams after `p` has been taken out of them (its first occurrence).
pub open spec fn without_player(t: Seq<Seq<PlayerId>>, p: PlayerId) -> Seq<Seq<PlayerId>> {
    match find_player_spec(t, p) {
        Some((ti, pi)) => t.update(ti, t[ti].remove(pi)),
        None => t,
    }
}

proof fn lemma_first_nonempty(t: Seq<Seq<PlayerId>>, k: int)
    requires
        0 <= k <= t.len(),
    ensures
        match first_nonempty(t, k) {
            Some(j) => 0 <= j < k && t[j].len() > 0 && forall|i: int| 0 <= i < j ==> #[trigger] t[i].len() == 0,
            None => forall|i: int| 0 <= i < k ==> #[trigger] t[i].len() == 0,
        },
    decreases k,
{
    if k > 0 {
        lemma_first_nonempty(t, k - 1);
    }
}

proof fn lemma_first_nonempty_extend(t: Seq<Seq<PlayerId>>, j: int, k: int)
    requires
        0 <= j <= k,
        first_nonempty(t, j) is Some,
    ensures
        first_nonempty(t, k) == first_nonempty(t, j),
    decreases k - j,
{
    if k > j {
        lemma_first_nonempty_extend(t, j, k - 1);
    }
}

/// All teams are empty exactly when there is no player in them.
pub proof fn lemma_all_empty_total(t: Seq<Seq<PlayerId>>)
    ensures
        (forall|i: int| 0 <= i < t.len() ==> #[trigger] t[i].len() == 0) <==> total(t) == 0,
    decreases t.len(),
{
    if t.len() > 0 {
        lemma_all_empty_total(t.drop_last());
        if forall|i: int| 0 <= i < t.drop_last().len() ==> #[trigger] t.drop_last()[i].len() == 0 {
            if t.last().len() == 0 {
                assert forall|i: int| 0 <= i < t.len() implies #[trigger] t[i].len() == 0 by {
                    if i < t.len() - 1 {
                        assert(t[i] == t.drop_last()[i]);
                    }
                }
            }
        }
        if forall|i: int| 0 <= i < t.len() ==> #[trigger] t[i].len() == 0 {
            assert forall|i: int| 0 <= i < t.drop_last().len() implies #[trigger] t.drop_last()[i].len() == 0 by {
                assert(t.drop_last()[i] == t[i]);
            }
            assert(t[t.len() - 1].len() == 0);
        }
    }
}

/// The teams that the server keeps after a change (readjusted if needed)
/// have no team with more players than allowed, when there is room for all
/// players in `tc` teams of `max`.
pub proof fn lemma_readjusted_if_needed_fits(t: Seq<Seq<PlayerId>>, tc: int, max: int)
    requires
        1 <= tc,
        0 <= max,
        total(t) <= tc * max,
    ensures
        forall|i: int| 0 <= i < readjusted_if_needed(t, tc, max).len() ==> #[trigger] readjusted_if_needed(t, tc, max)[i].len() <= max,
{
    if needs_readjustment_spec(t, tc, max) {
        crate::teams::lemma_readjusted_fits(t, tc, max as nat);
    } else {
        // the teams number `tc` and, as they cannot all be over `max`, none is
        if exists|i: int| 0 <= i < t.len() && #[trigger] t[i].len() > max {
            let i = choose|i: int| 0 <= i < t.len() && #[trigger] t[i].len() > max;
            assert(forall|j: int| 0 <= j < t.len() ==> #[trigger] t[j].len() > max);
            crate::teams::lemma_total_exceeds(t, max);
            assert(t.len() == tc);
        }
    }
}

/// Taking a player out of the teams leaves every other player in them.
pub proof fn lemma_without_player_keeps_others(t: Seq<Seq<PlayerId>>, p: PlayerId, q: PlayerId)
    requires
        q != p,
    ensures
        in_teams(without_player(t, p), q) == in_teams(t, q),
{
    let u = without_player(t, p);
    if let Some((ti, pi)) = find_player_spec(t, p) {
        let (a, b) = choose|a: int, b: int| crate::teams::is_first_position(t, p, a, b);
        assert(crate::teams::is_first_position(t, p, ti, pi));
        let r = t[ti].remove(pi);
        t[ti].remove_ensures(pi);
        if in_teams(u, q) {
            let i = choose|i: int| 0 <= i < u.len() && #[trigger] u[i].contains(q);
            if i == ti {
                let k = choose|k: int| 0 <= k < r.len() && r[k] == q;
                if k < pi {
                    assert(t[ti][k] == q);
                } else {
                    assert(t[ti][k + 1] == q);
                }
                assert(t[ti].contains(q));
            } else {
                assert(t[i] == u[i]);
            }
        }
        if in_teams(t, q) {
            let i = choose|i: int| 0 <= i < t.len() && #[trigger] t[i].contains(q);
            if i == ti {
                let k = choose|k: int| 0 <= k < t[ti].len() && t[ti][k] == q;
                assert(k != pi);
                if k < pi {
                    assert(r[k] == q);
                } else {
                    assert(r[k - 1] == q);
                }
                assert(u[ti].contains(q));
            } else {
                assert(u[i] == t[i]);
                assert(u[i].contains(q));
            }
        }
    }
}

/// The first player of the teams plays in them; when there is none, the
/// teams are empty.
pub proof fn lemma_first_player_plays(t: Seq<Seq<PlayerId>>)
    ensures
        first_player(t) matches Some(x) ==> in_teams(t, x),
        first_player(t) is None ==> total(t) == 0,
{
    lemma_first_nonempty(t, t.len() as int);
    lemma_all_empty_total(t);
    if let Some(j) = first_nonempty(t, t.len() as int) {
        assert(t[j].contains(t[j][0]));
    }
}

/// Pushing a player into a team adds the player to the teams.
pub proof fn lemma_push_in_teams(t: Seq<Seq<PlayerId>>, i: int, p: PlayerId, q: PlayerId)
    requires
        0 <= i < t.len(),
    ensures
        in_teams(t.update(i, t[i].push(p)), q) == (in_teams(t, q) || q == p),
{
    let u = t.update(i, t[i].push(p));
    if in_teams(u, q) && q != p {
        let k = choose|k: int| 0 <= k < u.len() && #[trigger] u[k].contains(q);
        if k == i {
            let m = choose|m: int| 0 <= m < u[i].len() && u[i][m] == q;
            assert(t[i][m] == q);
            assert(t[i].contains(q));
        } else {
            assert(t[k] == u[k]);
        }
    }
    if in_teams(t, q) {
        let k = choose|k: int| 0 <= k < t.len() && #[trigger] t[k].contains(q);
        if k == i {
            let m = choose|m: int| 0 <= m < t[i].len() && t[i][m] == q;
            assert(u[i][m] == q);
            assert(u[i].contains(q));
        } else {
            assert(u[k] == t[k]);
            assert(u[k].contains(q));
        }
    }
    if q == p {
        assert(u[i][t[i].len() as int] == p);
        assert(u[i].contains(p));
    }
}

/// Readjusting the teams, if needed, keeps every player in them.
pub proof fn lemma_readjusted_if_needed_keeps(t: Seq<Seq<PlayerId>>, tc: int, max: int, q: PlayerId)
    requires
        1 <= tc,
        0 <= max,
    ensures
        in_teams(readjusted_if_needed(t, tc, max), q) == in_teams(t, q),
{
    if needs_readjustment_spec(t, tc, max) {
        crate::teams::lemma_readjusted_keeps_roster(t, tc, max as nat);
        crate::teams::lemma_roster_contains(t, q);
        crate::teams::lemma_roster_contains(readjusted(t, tc, max as nat), q);
    }
}

/// Copies a team list.
pub fn clone_teams(teams: &Vec<Vec<PlayerId>>) -> (r: Vec<Vec<PlayerId>>)
    ensures
        teams_view(r@) == teams_view(teams@),
        r@.len() == teams@.len(),
{
    let mut r: Vec<Vec<PlayerId>> = Vec::new();
    let mut i: usize = 0;
    while i < teams.len()
        invariant
            i <= teams.len(),
            r@.len() == i,
            forall|j: int| 0 <= j < i ==> #[trigger] r@[j]@ == teams@[j]@,
        decreases teams.len() - i,
    {
        let team = &teams[i];
        let mut c: Vec<PlayerId> = Vec::new();
        let mut k: usize = 0;
        while k < team.len()
            invariant
                k <= team.len(),
                c@ == team@.take(k as int),
            decreases team.len() - k,
        {
            c.push(team[k]);
            k = k + 1;
            proof {
                assert(c@ =~= team@.take(k as int));
            }
        }
        proof {
            assert(team@.take(k as int) =~= team@);
        }
        r.push(c);
        i = i + 1;
    }
    proof {
        assert(teams_view(r@) =~= teams_view(teams@));
    }
    r
}

/// Copies a list of champion selections.
pub fn clone_selections(s: &Vec<(PlayerId, ChampionSelection)>) -> (r: Vec<(PlayerId, ChampionSelection)>)
    ensures
        r@ == s@,
{
    let mut r: Vec<(PlayerId, ChampionSelection)> = Vec::new();
    let mut i: usize = 0;
    while i < s.len()
        invariant
            i <= s.len(),
            r@ == s@.take(i as int),
        decreases s.len() - i,
    {
        let (p, sel) = &s[i];
        r.push((*p, sel.clone()));
        i = i + 1;
        proof {
            assert(r@ =~= s@.take(i as int));
        }
    }
    proof {
        assert(s@.take(i as int) =~= s@);
    }
    r
}

/// The first player of the teams, read team by team.
pub fn first_player_of(teams: &Vec<Vec<PlayerId>>) -> (r: Option<PlayerId>)
    ensures
        r == first_player(teams_view(teams@)),
{
    let ghost t = teams_view(teams@);
    let mut j: usize = 0;
    while j < teams.len()
        invariant
            t == teams_view(teams@),
            j <= teams@.len(),
            first_nonempty(t, j as int) is None,
        decreases teams.len() - j,
    {
        if teams[j].len() > 0 {
            proof {
                lemma_first_nonempty_extend(t, j as int + 1, t.len() as int);
            }
            return Some(teams[j][0]);
        }
        j = j + 1;
    }
    None
}

/// A lobby on the lobby server.
#[derive(Debug)]
pub struct Lobby {
    pub id: LobbyId,
    pub settings: LobbySettings,
    pub teams: Vec<Vec<PlayerId>>,
    pub leader: PlayerId,
    pub lobby_state: LobbyState,
    /// The champion selection of each player; no player occurs twice.
    pub selected_champs: Vec<(PlayerId, ChampionSelection)>,
}

impl Lobby {
    /// The teams of the lobby.
    pub open spec fn team_model(&self) -> Seq<Seq<PlayerId>> {
        teams_view(self.teams@)
    }

    /// The lobby is sound: it is set to have at least one team, and it has
    /// at least one team.
    pub open spec fn wf(&self) -> bool {
        &&& self.settings.team_count >= 1
        &&& self.teams@.len() >= 1
    }

    /// The number of players in the lobby's teams.
    pub fn player_count(&self) -> (n: usize)
        requires
            total(self.team_model()) <= usize::MAX,
        ensures
            n == total(self.team_model()),
    {
        count_players(&self.teams)
    }

    /// Whether no team of the lobby has a player.
    pub fn is_empty(&self) -> (r: bool)
        ensures
            r == (forall|i: int| 0 <= i < self.teams@.len() ==> #[trigger] self.team_model()[i].len() == 0),
            r == (total(self.team_model()) == 0),
    {
        proof {
            lemma_all_empty_total(self.team_model());
        }
        all_empty(&self.teams)
    }

    /// The lobby as the lobby list shows it.
    pub fn get_short_info(&self) -> (r: LobbyShortInfo)
        requires
            total(self.team_model()) <= usize::MAX,
        ensures
            r.id == self.id,
            r.name == self.settings.name,
            r.player_count == total(self.team_model()),
            r.max_player_count == word_product(self.settings.max_players_per_team, self.teams@.len() as usize),
    {
        LobbyShortInfo {
            id: self.id,
            name: self.settings.name.clone(),
            player_count: self.player_count(),
            max_player_count: self.settings.max_players_per_team.wrapping_mul(self.teams.len()),
        }
    }

    /// Everything a client is told of the lobby.
    pub fn get_info(&self) -> (r: LobbyInfo)
        requires
            total(self.team_model()) <= usize::MAX,
        ensures
            r.short.id == self.id,
            r.short.name == self.settings.name,
            r.short.player_count == total(self.team_model()),
            r.short.max_player_count == word_product(self.settings.max_players_per_team, self.teams@.len() as usize),
            r.settings == self.settings,
            teams_view(r.teams@) == self.team_model(),
            r.leader == self.leader,
            r.lobby_state == self.lobby_state,
            r.selected_champs@ == self.selected_champs@,
    {
        LobbyInfo {
            short: self.get_short_info(),
            settings: self.settings.clone(),
            teams: clone_teams(&self.teams),
            leader: self.leader,
            lobby_state: self.lobby_state,
            selected_champs: clone_selections(&self.selected_champs),
        }
    }

    /// Adds a player to the first of the teams with the fewest players.
    pub fn add_player(&mut self, player: PlayerId)
        requires
            old(self).teams@.len() > 0,
        ensures
            ({
                let t = old(self).team_model();
                let i = first_min(t, t.len() as int);
                final(self).team_model() == t.update(i, t[i].push(player))
            }),
            final(self).teams@.len() == old(self).teams@.len(),
            final(self).id == old(self).id,
            final(self).settings == old(self).settings,
            final(self).leader == old(self).leader,
            final(self).lobby_state == old(self).lobby_state,
            final(self).selected_champs == old(self).selected_champs,
    {
        add_to_smallest_team(&mut self.teams, player);
    }

    /// Readjusts the players so that no team has more players than it is
    /// allowed to, if possible (see `readjust_teams`).
    pub fn readjust_players(&mut self)
        requires
            old(self).settings.team_count >= 1 || total(old(self).team_model()) == 0,
        ensures
            final(self).team_model() == readjusted(
                old(self).team_model(),
                old(self).settings.team_count as int,
                old(self).settings.max_players_per_team as nat,
            ),
            final(self).id == old(self).id,
            final(self).settings == old(self).settings,
            final(self).leader == old(self).leader,
            final(self).lobby_state == old(self).lobby_state,
            final(self).selected_champs == old(self).selected_champs,
    {
        let tc = self.settings.team_count;
        let max = self.settings.max_players_per_team;
        readjust_teams(&mut self.teams, tc, max);
    }

    /// Whether the teams need a readjustment.
    pub fn needs_readjustment(&self) -> (r: bool)
        ensures
            r == needs_readjustment_spec(
                self.team_model(),
                self.settings.team_count as int,
                self.settings.max_players_per_team as int,
            ),
    {
        let max = self.settings.max_players_per_team;
        if self.teams.len() != self.settings.team_count {
            return true;
        }
        let mut any_over = false;
        let mut all_over = true;
        let mut i: usize = 0;
        while i < self.teams.len()
            invariant
                i <= self.teams@.len(),
                max == self.settings.max_players_per_team,
                any_over == (exists|j: int| 0 <= j < i && #[trigger] self.team_model()[j].len() > max),
                all_over == (forall|j: int| 0 <= j < i ==> #[trigger] self.team_model()[j].len() > max),
            decreases self.teams.len() - i,
        {
            if self.teams[i].len() > max {
                any_over = true;
                proof {
                    assert(self.team_model()[i as int].len() > max);
                }
            } else {
                all_over = false;
                proof {
                    assert(!(self.team_model()[i as int].len() > max));
                }
            }
            i = i + 1;
        }
        any_over && !all_over
    }

    /// Readjusts the teams when they need it.
    pub fn readjust_if_needed(&mut self)
        requires
            old(self).wf(),
        ensures
            final(self).team_model() == readjusted_if_needed(
                old(self).team_model(),
                old(self).settings.team_count as int,
                old(self).settings.max_players_per_team as int,
            ),
            final(self).wf(),
            final(self).id == old(self).id,
            final(self).settings == old(self).settings,
            final(self).leader == old(self).leader,
            final(self).lobby_state == old(self).lobby_state,
            final(self).selected_champs == old(self).selected_champs,
    {
        if self.needs_readjustment() {
            proof {
                crate::teams::lemma_readjusted_keeps_roster(
                    self.team_model(),
                    self.settings.team_count as int,
                    self.settings.max_players_per_team as nat,
                );
            }
            self.readjust_players();
        }
    }

    /// Takes a player out of the lobby's teams. Unless the removal is only
    /// temporary, a leaving leader hands the lead to the first remaining
    /// player and the teams are readjusted if needed.
    pub fn remove_player(&mut self, player_id: PlayerId, only_temporarily: bool)
        requires
            old(self).wf(),
        ensures
            ({
                let t1 = without_player(old(self).team_model(), player_id);
                if only_temporarily {
                    &&& final(self).team_model() == t1
                    &&& final(self).leader == old(self).leader
                } else {
                    &&& final(self).team_model() == readjusted_if_needed(
                        t1,
                        old(self).settings.team_count as int,
                        old(self).settings.max_players_per_team as int,
                    )
                    &&& final(self).leader == if old(self).leader == player_id && first_player(t1) is Some {
                        first_player(t1)->0
                    } else {
                        old(self).leader
                    }
                }
            }),
            final(self).wf(),
            final(self).id == old(self).id,
            final(self).settings == old(self).settings,
            final(self).lobby_state == old(self).lobby_state,
            final(self).selected_champs == old(self).selected_champs,
    {
        remove_from_teams(&mut self.teams, player_id);
        if !only_temporarily {
            if self.leader == player_id {
                match first_player_of(&self.teams) {
                    Some(p) => {
                        self.leader = p;
                    },
                    None => {},
                }
            }
            self.readjust_if_needed();
        }
    }
}

} // verus!
