//! The teams of a lobby: a list of teams, each an ordered list of players.
//!
//! The mathematical model of a team list is a `Seq<Seq<PlayerId>>`; the
//! players of all teams together form a multiset (`roster`), which every
//! rearrangement keeps.

use vstd::prelude::*;
use vstd::multiset::Multiset;
use crate::ids::PlayerId;

verus! {

broadcast use vstd::seq_lib::group_to_multiset_ensures;

/// The model of a team list.
pub open spec fn teams_view(teams: Seq<Vec<PlayerId>>) -> Seq<Seq<PlayerId>> {
    teams.map_values(|t: Vec<PlayerId>| t@)
}

/// The number of players in all teams together.
pub open spec fn total(t: Seq<Seq<PlayerId>>) -> nat
    decreases t.len(),
{
    if t.len() == 0 {
        0
    } else {
        total(t.drop_last()) + t.last().len()
    }
}

/// The players of all teams together, as a multiset.
pub open spec fn roster(t: Seq<Seq<PlayerId>>) -> Multiset<PlayerId>
    decreases t.len(),
{
    if t.len() == 0 {
        Multiset::empty()
    } else {
        roster(t.drop_last()).add(t.last().to_multiset())
    }
}

/// Whether `p` plays in one of the teams.
pub open spec fn in_teams(t: Seq<Seq<PlayerId>>, p: PlayerId) -> bool {
    exists|i: int| 0 <= i < t.len() && #[trigger] t[i].contains(p)
}

/// The teams after the last player of team `from` has moved to the end of team `to`.
pub open spec fn move_last(t: Seq<Seq<PlayerId>>, from: int, to: int) -> Seq<Seq<PlayerId>> {
    let p = t[from].last();
    let t1 = t.update(from, t[from].drop_last());
    t1.update(to, t1[to].push(p))
}

/// The first team among the first `k` with the fewest players.
pub open spec fn first_min(t: Seq<Seq<PlayerId>>, k: int) -> int
    decreases k,
{
    if k <= 1 {
        0
    } else {
        let m = first_min(t, k - 1);
        if t[k - 1].len() < t[m].len() {
            k - 1
        } else {
            m
        }
    }
}

/// The first team among the first `k` with fewer than `max` players.
pub open spec fn first_space(t: Seq<Seq<PlayerId>>, k: int, max: nat) -> Option<int>
    decreases k,
{
    if k <= 0 {
        None
    } else {
        match first_space(t, k - 1, max) {
            Some(j) => Some(j),
            None => if t[k - 1].len() < max {
                Some(k - 1)
            } else {
                None
            },
        }
    }
}

/// Where a player leaving a team beyond the first `tc` goes: the first team
/// with room, or else the first of the fullest-least teams.
pub open spec fn evacuation_target(t: Seq<Seq<PlayerId>>, tc: int, max: nat) -> int {
    match first_space(t, tc, max) {
        Some(j) => j,
        None => first_min(t, tc),
    }
}

/// Moves the last `n` players of team `from`, one by one, to their evacuation targets.
pub open spec fn evacuate(t: Seq<Seq<PlayerId>>, from: int, n: nat, tc: int, max: nat) -> Seq<Seq<PlayerId>>
    decreases n,
{
    if n == 0 {
        t
    } else {
        evacuate(move_last(t, from, evacuation_target(t, tc, max)), from, (n - 1) as nat, tc, max)
    }
}

/// Empties the teams with index in `tc..k`, last first.
pub open spec fn evacuate_extra(t: Seq<Seq<PlayerId>>, k: int, tc: int, max: nat) -> Seq<Seq<PlayerId>>
    decreases k - tc,
{
    if k <= tc {
        t
    } else {
        evacuate_extra(evacuate(t, k - 1, t[k - 1].len(), tc, max), k - 1, tc, max)
    }
}

/// First phase of a readjustment: when there are more teams than `tc`, the
/// teams beyond `tc` are emptied and the last team is dropped.
pub open spec fn shrink_phase(t: Seq<Seq<PlayerId>>, tc: int, max: nat) -> Seq<Seq<PlayerId>> {
    if t.len() > tc {
        evacuate_extra(t, t.len() as int, tc, max).drop_last()
    } else {
        t
    }
}

/// Second phase of a readjustment: empty teams are added up to `tc` teams.
pub open spec fn grow_phase(t: Seq<Seq<PlayerId>>, tc: int) -> Seq<Seq<PlayerId>> {
    if t.len() < tc {
        t + Seq::new((tc - t.len()) as nat, |i: int| Seq::<PlayerId>::empty())
    } else {
        t
    }
}

/// Moves the last `n` players of team `from`, one by one, to the first
/// team with room among the first `tc`; a player for whom no team has room stays.
pub open spec fn shed(t: Seq<Seq<PlayerId>>, from: int, n: nat, tc: int, max: nat) -> Seq<Seq<PlayerId>>
    decreases n,
{
    if n == 0 {
        t
    } else {
        let t1 = match first_space(t, tc, max) {
            Some(j) => move_last(t, from, j),
            None => t,
        };
        shed(t1, from, (n - 1) as nat, tc, max)
    }
}

/// Third phase of a readjustment, for the teams `0..k`: each team with more
/// than `max` players sheds its excess.
pub open spec fn balance_phase(t: Seq<Seq<PlayerId>>, k: int, tc: int, max: nat) -> Seq<Seq<PlayerId>>
    decreases k,
{
    if k <= 0 {
        t
    } else {
        let t1 = balance_phase(t, k - 1, tc, max);
        if t1[k - 1].len() > max {
            shed(t1, k - 1, (t1[k - 1].len() - max) as nat, tc, max)
        } else {
            t1
        }
    }
}

/// The teams after a readjustment to `tc` teams of at most `max` players.
pub open spec fn readjusted(t: Seq<Seq<PlayerId>>, tc: int, max: nat) -> Seq<Seq<PlayerId>> {
    balance_phase(grow_phase(shrink_phase(t, tc, max), tc), tc, tc, max)
}

// ------------------------------------------------------------------------
// Lemmas on the roster

pub proof fn lemma_roster_len(t: Seq<Seq<PlayerId>>)
    ensures
        roster(t).len() == total(t),
    decreases t.len(),
{
    if t.len() > 0 {
        lemma_roster_len(t.drop_last());
    }
}

pub proof fn lemma_roster_update(t: Seq<Seq<PlayerId>>, i: int, s: Seq<PlayerId>)
    requires
        0 <= i < t.len(),
    ensures
        roster(t.update(i, s)).add(t[i].to_multiset()) == roster(t).add(s.to_multiset()),
        total(t.update(i, s)) + t[i].len() == total(t) + s.len(),
    decreases t.len(),
{
    let u = t.update(i, s);
    if i == t.len() - 1 {
        assert(u.drop_last() =~= t.drop_last());
        assert(roster(u.drop_last()).add(s.to_multiset()).add(t[i].to_multiset()) =~=
            roster(t.drop_last()).add(t[i].to_multiset()).add(s.to_multiset()));
    } else {
        lemma_roster_update(t.drop_last(), i, s);
        assert(u.drop_last() =~= t.drop_last().update(i, s));
        assert(roster(u.drop_last()).add(u.last().to_multiset()).add(t[i].to_multiset()) =~=
            roster(u.drop_last()).add(t[i].to_multiset()).add(t.last().to_multiset()));
        assert(roster(t.drop_last()).add(s.to_multiset()).add(t.last().to_multiset()) =~=
            roster(t.drop_last()).add(t.last().to_multiset()).add(s.to_multiset()));
    }
}

pub proof fn lemma_roster_push(t: Seq<Seq<PlayerId>>, s: Seq<PlayerId>)
    ensures
        roster(t.push(s)) == roster(t).add(s.to_multiset()),
        total(t.push(s)) == total(t) + s.len(),
{
    assert(t.push(s).drop_last() =~= t);
}

pub proof fn lemma_roster_contains(t: Seq<Seq<PlayerId>>, p: PlayerId)
    ensures
        roster(t).count(p) > 0 <==> in_teams(t, p),
    decreases t.len(),
{
    if t.len() > 0 {
        lemma_roster_contains(t.drop_last(), p);
        if in_teams(t, p) {
            let i = choose|i: int| 0 <= i < t.len() && #[trigger] t[i].contains(p);
            if i < t.len() - 1 {
                assert(t.drop_last()[i] == t[i]);
            }
        }
        if in_teams(t.drop_last(), p) {
            let i = choose|i: int| 0 <= i < t.drop_last().len() && #[trigger] t.drop_last()[i].contains(p);
            assert(t[i] == t.drop_last()[i]);
        }
    }
}

/// Moving a player from one team to another keeps the roster.
pub proof fn lemma_move_last_roster(t: Seq<Seq<PlayerId>>, from: int, to: int)
    requires
        0 <= from < t.len(),
        0 <= to < t.len(),
        from != to,
        t[from].len() > 0,
    ensures
        roster(move_last(t, from, to)) == roster(t),
        total(move_last(t, from, to)) == total(t),
        move_last(t, from, to).len() == t.len(),
        move_last(t, from, to)[from].len() == t[from].len() - 1,
        move_last(t, from, to)[to].len() == t[to].len() + 1,
        forall|i: int| 0 <= i < t.len() && i != from && i != to ==> #[trigger] move_last(t, from, to)[i] == t[i],
{
    let p = t[from].last();
    let t1 = t.update(from, t[from].drop_last());
    lemma_roster_update(t, from, t[from].drop_last());
    lemma_roster_update(t1, to, t1[to].push(p));
    assert(t[from].drop_last().push(p) =~= t[from]);
    assert(t[from].to_multiset() =~= t[from].drop_last().to_multiset().insert(p));
    assert(t1[to].push(p).to_multiset() =~= t1[to].to_multiset().insert(p));
    let u = move_last(t, from, to);
    assert forall|x: PlayerId| roster(u).count(x) == roster(t).count(x) by {
        assert(roster(u).add(t1[to].to_multiset()).count(x) == roster(t1).add(t1[to].push(p).to_multiset()).count(x));
        assert(roster(t1).add(t[from].to_multiset()).count(x) == roster(t).add(t[from].drop_last().to_multiset()).count(x));
    }
    assert(roster(u) =~= roster(t));
}

// ------------------------------------------------------------------------
// Lemmas on the readjustment phases

pub proof fn lemma_first_min(t: Seq<Seq<PlayerId>>, k: int)
    requires
        1 <= k <= t.len(),
    ensures
        0 <= first_min(t, k) < k,
        forall|j: int| 0 <= j < k ==> t[first_min(t, k)].len() <= #[trigger] t[j].len(),
        forall|j: int| 0 <= j < first_min(t, k) ==> #[trigger] t[j].len() > t[first_min(t, k)].len(),
    decreases k,
{
    if k > 1 {
        lemma_first_min(t, k - 1);
    }
}

pub proof fn lemma_first_space(t: Seq<Seq<PlayerId>>, k: int, max: nat)
    requires
        0 <= k <= t.len(),
    ensures
        match first_space(t, k, max) {
            Some(j) => 0 <= j < k && t[j].len() < max && forall|i: int| 0 <= i < j ==> #[trigger] t[i].len() >= max,
            None => forall|i: int| 0 <= i < k ==> #[trigger] t[i].len() >= max,
        },
    decreases k,
{
    if k > 0 {
        lemma_first_space(t, k - 1, max);
    }
}

proof fn lemma_first_space_extend(t: Seq<Seq<PlayerId>>, j: int, k: int, max: nat)
    requires
        0 <= j <= k,
        first_space(t, j, max) is Some,
    ensures
        first_space(t, k, max) == first_space(t, j, max),
    decreases k - j,
{
    if k > j {
        lemma_first_space_extend(t, j, k - 1, max);
    }
}

proof fn lemma_evacuation_target(t: Seq<Seq<PlayerId>>, tc: int, max: nat)
    requires
        1 <= tc <= t.len(),
    ensures
        0 <= evacuation_target(t, tc, max) < tc,
{
    lemma_first_min(t, tc);
    lemma_first_space(t, tc, max);
}

proof fn lemma_evacuate(t: Seq<Seq<PlayerId>>, from: int, n: nat, tc: int, max: nat)
    requires
        1 <= tc <= from < t.len(),
        n <= t[from].len(),
    ensures
        evacuate(t, from, n, tc, max).len() == t.len(),
        roster(evacuate(t, from, n, tc, max)) == roster(t),
        evacuate(t, from, n, tc, max)[from].len() == t[from].len() - n,
        forall|i: int| tc <= i < t.len() && i != from ==> #[trigger] evacuate(t, from, n, tc, max)[i] == t[i],
    decreases n,
{
    if n > 0 {
        let target = evacuation_target(t, tc, max);
        lemma_evacuation_target(t, tc, max);
        lemma_move_last_roster(t, from, target);
        lemma_evacuate(move_last(t, from, target), from, (n - 1) as nat, tc, max);
    }
}

proof fn lemma_evacuate_extra(t: Seq<Seq<PlayerId>>, k: int, tc: int, max: nat)
    requires
        1 <= tc,
        tc <= k <= t.len(),
    ensures
        evacuate_extra(t, k, tc, max).len() == t.len(),
        roster(evacuate_extra(t, k, tc, max)) == roster(t),
        forall|i: int| tc <= i < k ==> #[trigger] evacuate_extra(t, k, tc, max)[i].len() == 0,
        forall|i: int| k <= i < t.len() ==> #[trigger] evacuate_extra(t, k, tc, max)[i] == t[i],
    decreases k - tc,
{
    if k > tc {
        let t1 = evacuate(t, k - 1, t[k - 1].len(), tc, max);
        lemma_evacuate(t, k - 1, t[k - 1].len(), tc, max);
        lemma_evacuate_extra(t1, k - 1, tc, max);
    }
}

proof fn lemma_shrink_phase(t: Seq<Seq<PlayerId>>, tc: int, max: nat)
    requires
        1 <= tc,
    ensures
        roster(shrink_phase(t, tc, max)) == roster(t),
        shrink_phase(t, tc, max).len() == if t.len() > tc { t.len() - 1 } else { t.len() as int },
{
    if t.len() > tc {
        let e = evacuate_extra(t, t.len() as int, tc, max);
        lemma_evacuate_extra(t, t.len() as int, tc, max);
        assert(e.drop_last().push(e.last()) =~= e);
        lemma_roster_push(e.drop_last(), e.last());
        assert(e.last().to_multiset() =~= Multiset::empty());
        assert(roster(e.drop_last()) =~= roster(e));
    }
}

proof fn lemma_grow_phase(t: Seq<Seq<PlayerId>>, tc: int)
    ensures
        roster(grow_phase(t, tc)) == roster(t),
        grow_phase(t, tc).len() == if t.len() < tc { tc } else { t.len() as int },
        forall|i: int| 0 <= i < t.len() ==> #[trigger] grow_phase(t, tc)[i] == t[i],
        forall|i: int| t.len() <= i < grow_phase(t, tc).len() ==> #[trigger] grow_phase(t, tc)[i].len() == 0,
    decreases tc - t.len(),
{
    if t.len() < tc {
        let g = grow_phase(t, tc);
        let t1 = t.push(Seq::<PlayerId>::empty());
        lemma_grow_phase(t1, tc);
        assert(grow_phase(t1, tc) =~= g);
        lemma_roster_push(t, Seq::<PlayerId>::empty());
        assert(Seq::<PlayerId>::empty().to_multiset() =~= Multiset::empty());
        assert(roster(t1) =~= roster(t));
    }
}

proof fn lemma_shed(t: Seq<Seq<PlayerId>>, from: int, n: nat, tc: int, max: nat)
    requires
        0 <= from < tc <= t.len(),
        t[from].len() >= max + n,
    ensures
        shed(t, from, n, tc, max).len() == t.len(),
        roster(shed(t, from, n, tc, max)) == roster(t),
        forall|i: int| tc <= i < t.len() ==> #[trigger] shed(t, from, n, tc, max)[i] == t[i],
    decreases n,
{
    if n > 0 {
        lemma_first_space(t, tc, max);
        let t1 = match first_space(t, tc, max) {
            Some(j) => move_last(t, from, j),
            None => t,
        };
        match first_space(t, tc, max) {
            Some(j) => {
                lemma_move_last_roster(t, from, j);
            },
            None => {},
        }
        lemma_shed(t1, from, (n - 1) as nat, tc, max);
    }
}

proof fn lemma_balance_phase(t: Seq<Seq<PlayerId>>, k: int, tc: int, max: nat)
    requires
        0 <= k <= tc <= t.len(),
    ensures
        balance_phase(t, k, tc, max).len() == t.len(),
        roster(balance_phase(t, k, tc, max)) == roster(t),
        forall|i: int| tc <= i < t.len() ==> #[trigger] balance_phase(t, k, tc, max)[i] == t[i],
    decreases k,
{
    if k > 0 {
        lemma_balance_phase(t, k - 1, tc, max);
        let t1 = balance_phase(t, k - 1, tc, max);
        if t1[k - 1].len() > max {
            lemma_shed(t1, k - 1, (t1[k - 1].len() - max) as nat, tc, max);
        }
    }
}

// ------------------------------------------------------------------------
// Lemmas on the capacity of the teams

proof fn lemma_total_at_least(t: Seq<Seq<PlayerId>>, k: int, max: nat, from: int)
    requires
        0 <= k <= t.len(),
        forall|i: int| 0 <= i < k ==> #[trigger] t[i].len() >= max,
    ensures
        total(t.take(k)) >= k * max + (if 0 <= from < k { t[from].len() - max } else { 0 }),
    decreases k,
{
    if k > 0 {
        lemma_total_at_least(t, k - 1, max, from);
        lemma_total_take(t, k - 1);
        assert(k * max == (k - 1) * max + max) by (nonlinear_arith);
    } else {
        assert(t.take(0) =~= Seq::<Seq<PlayerId>>::empty());
    }
}

/// When every team holds more than `max` players, there are more than
/// `max` players per team.
pub proof fn lemma_total_exceeds(t: Seq<Seq<PlayerId>>, max: int)
    requires
        t.len() >= 1,
        0 <= max,
        forall|j: int| 0 <= j < t.len() ==> #[trigger] t[j].len() > max,
    ensures
        total(t) > t.len() * max,
{
    lemma_total_at_least(t, t.len() as int, max as nat, 0);
    assert(t.take(t.len() as int) =~= t);
}

/// When the players fit in `tc` teams of `max`, a team of the first `tc`
/// that has more than `max` players leaves room in another of them.
proof fn lemma_room_left(t: Seq<Seq<PlayerId>>, tc: int, max: nat, from: int)
    requires
        0 <= from < tc <= t.len(),
        total(t) <= tc * max,
        t[from].len() > max,
    ensures
        first_space(t, tc, max) is Some,
{
    lemma_first_space(t, tc, max);
    if first_space(t, tc, max) is None {
        lemma_total_at_least(t, tc, max, from);
        lemma_total_take_le(t, tc);
    }
}

proof fn lemma_shed_fits(t: Seq<Seq<PlayerId>>, from: int, n: nat, tc: int, max: nat)
    requires
        0 <= from < tc <= t.len(),
        t[from].len() >= max + n,
        total(t) <= tc * max,
    ensures
        shed(t, from, n, tc, max)[from].len() == t[from].len() - n,
        total(shed(t, from, n, tc, max)) == total(t),
        forall|i: int| 0 <= i < tc && i != from && t[i].len() <= max ==> #[trigger] shed(t, from, n, tc, max)[i].len() <= max,
    decreases n,
{
    if n > 0 {
        lemma_room_left(t, tc, max, from);
        lemma_first_space(t, tc, max);
        let j = first_space(t, tc, max)->0;
        assert(j != from);
        let t1 = move_last(t, from, j);
        lemma_move_last_roster(t, from, j);
        lemma_shed_fits(t1, from, (n - 1) as nat, tc, max);
        assert forall|i: int| 0 <= i < tc && i != from && t[i].len() <= max implies #[trigger] shed(t, from, n, tc, max)[i].len() <= max by {
            assert(t1[i].len() <= max);
        }
    }
}

proof fn lemma_balance_fits(t: Seq<Seq<PlayerId>>, k: int, tc: int, max: nat)
    requires
        0 <= k <= tc <= t.len(),
        total(t) <= tc * max,
    ensures
        forall|i: int| 0 <= i < k ==> #[trigger] balance_phase(t, k, tc, max)[i].len() <= max,
        total(balance_phase(t, k, tc, max)) == total(t),
    decreases k,
{
    if k > 0 {
        lemma_balance_fits(t, k - 1, tc, max);
        lemma_balance_phase(t, k - 1, tc, max);
        let t1 = balance_phase(t, k - 1, tc, max);
        if t1[k - 1].len() > max {
            let n = (t1[k - 1].len() - max) as nat;
            lemma_shed_fits(t1, k - 1, n, tc, max);
        }
    }
}

/// A readjustment leaves no team with more players than allowed when there
/// is room for all players: when they number at most `tc` times `max`,
/// every team ends with at most `max` players.
pub proof fn lemma_readjusted_fits(t: Seq<Seq<PlayerId>>, tc: int, max: nat)
    requires
        1 <= tc,
        total(t) <= tc * max,
    ensures
        forall|i: int| 0 <= i < readjusted(t, tc, max).len() ==> #[trigger] readjusted(t, tc, max)[i].len() <= max,
{
    let s = shrink_phase(t, tc, max);
    lemma_shrink_phase(t, tc, max);
    let g = grow_phase(s, tc);
    lemma_grow_phase(s, tc);
    lemma_roster_len(t);
    lemma_roster_len(s);
    lemma_roster_len(g);
    // the teams from `tc` on are empty
    assert forall|i: int| tc <= i < g.len() implies #[trigger] g[i].len() == 0 by {
        if t.len() > tc {
            let e = evacuate_extra(t, t.len() as int, tc, max);
            lemma_evacuate_extra(t, t.len() as int, tc, max);
            assert(s[i] == e[i]);
        }
    }
    lemma_balance_fits(g, tc, tc, max);
    lemma_balance_phase(g, tc, tc, max);
    let r = readjusted(t, tc, max);
    assert forall|i: int| 0 <= i < r.len() implies #[trigger] r[i].len() <= max by {
        if i >= tc {
            assert(r[i] == g[i]);
        }
    }
}

/// A readjustment moves players between teams and drops only empty teams:
/// the players of all teams together stay the same.
pub proof fn lemma_readjusted_keeps_roster(t: Seq<Seq<PlayerId>>, tc: int, max: nat)
    requires
        1 <= tc,
    ensures
        roster(readjusted(t, tc, max)) == roster(t),
        readjusted(t, tc, max).len() == if t.len() > tc { t.len() - 1 } else { tc },
{
    let s = shrink_phase(t, tc, max);
    lemma_shrink_phase(t, tc, max);
    let g = grow_phase(s, tc);
    lemma_grow_phase(s, tc);
    lemma_balance_phase(g, tc, tc, max);
}


proof fn lemma_total_take(t: Seq<Seq<PlayerId>>, i: int)
    requires
        0 <= i < t.len(),
    ensures
        total(t.take(i + 1)) == total(t.take(i)) + t[i].len(),
{
    assert(t.take(i + 1).drop_last() =~= t.take(i));
}

proof fn lemma_total_take_le(t: Seq<Seq<PlayerId>>, i: int)
    requires
        0 <= i <= t.len(),
    ensures
        total(t.take(i)) <= total(t),
    decreases t.len() - i,
{
    if i < t.len() {
        lemma_total_take(t, i);
        lemma_total_take_le(t, i + 1);
    } else {
        assert(t.take(i) =~= t);
    }
}

/// `(ti, pi)` is where `p` first plays: the first team holding `p`, and `p`'s
/// first position in it.
pub open spec fn is_first_position(t: Seq<Seq<PlayerId>>, p: PlayerId, ti: int, pi: int) -> bool {
    &&& 0 <= ti < t.len()
    &&& 0 <= pi < t[ti].len()
    &&& t[ti][pi] == p
    &&& forall|j: int| 0 <= j < ti ==> !(#[trigger] t[j]).contains(p)
    &&& forall|k: int| 0 <= k < pi ==> #[trigger] t[ti][k] != p
}

/// Where `p` first plays, if anywhere.
pub open spec fn find_player_spec(t: Seq<Seq<PlayerId>>, p: PlayerId) -> Option<(int, int)> {
    if exists|ti: int, pi: int| is_first_position(t, p, ti, pi) {
        let (ti, pi) = choose|ti: int, pi: int| is_first_position(t, p, ti, pi);
        Some((ti, pi))
    } else {
        None
    }
}

proof fn lemma_first_index(s: Seq<PlayerId>, p: PlayerId)
    requires
        s.contains(p),
    ensures
        exists|k: int| 0 <= k < s.len() && s[k] == p && forall|m: int| 0 <= m < k ==> #[trigger] s[m] != p,
    decreases s.len(),
{
    if s.drop_last().contains(p) {
        lemma_first_index(s.drop_last(), p);
        let k = choose|k: int| 0 <= k < s.drop_last().len() && s.drop_last()[k] == p
            && forall|m: int| 0 <= m < k ==> #[trigger] s.drop_last()[m] != p;
        assert(s[k] == p);
        assert forall|m: int| 0 <= m < k implies #[trigger] s[m] != p by {
            assert(s[m] == s.drop_last()[m]);
        }
    } else {
        let k = s.len() - 1;
        assert forall|m: int| 0 <= m < k implies #[trigger] s[m] != p by {
            assert(s[m] == s.drop_last()[m]);
        }
        let i = choose|i: int| 0 <= i < s.len() && s[i] == p;
        if i < k {
            assert(s.drop_last()[i] == p);
        }
        assert(s[k] == p);
    }
}

/// A player plays in the teams exactly when the player has a first place in them.
pub proof fn lemma_in_teams_found(t: Seq<Seq<PlayerId>>, p: PlayerId)
    ensures
        in_teams(t, p) <==> find_player_spec(t, p) is Some,
    decreases t.len(),
{
    if find_player_spec(t, p) is Some {
        let (a, b) = choose|a: int, b: int| is_first_position(t, p, a, b);
        assert(t[a].contains(p)) by { assert(t[a][b] == p); }
    }
    if in_teams(t, p) {
        let u = t.drop_last();
        if in_teams(u, p) {
            lemma_in_teams_found(u, p);
            let (a, b) = choose|a: int, b: int| is_first_position(u, p, a, b);
            assert(is_first_position(u, p, a, b));
            assert forall|j: int| 0 <= j < a implies !(#[trigger] t[j]).contains(p) by {
                assert(t[j] == u[j]);
            }
            assert(t[a] == u[a]);
            assert(is_first_position(t, p, a, b));
        } else {
            let a = t.len() - 1;
            let i = choose|i: int| 0 <= i < t.len() && #[trigger] t[i].contains(p);
            if i < a {
                assert(u[i] == t[i]);
                assert(u[i].contains(p));
            }
            lemma_first_index(t[a], p);
            let b = choose|k: int| 0 <= k < t[a].len() && t[a][k] == p && forall|m: int| 0 <= m < k ==> #[trigger] t[a][m] != p;
            assert forall|j: int| 0 <= j < a implies !(#[trigger] t[j]).contains(p) by {
                assert(t[j] == u[j]);
                if t[j].contains(p) {
                    assert(u[j].contains(p));
                }
            }
            assert(is_first_position(t, p, a, b));
        }
    }
}

proof fn lemma_find_player_spec(t: Seq<Seq<PlayerId>>, p: PlayerId, r: Option<(usize, usize)>)
    requires
        match r {
            Some((ti, pi)) => is_first_position(t, p, ti as int, pi as int),
            None => !in_teams(t, p),
        },
    ensures
        match r {
            Some((ti, pi)) => find_player_spec(t, p) == Some((ti as int, pi as int)),
            None => find_player_spec(t, p) is None,
        },
{
    match r {
        Some((ti, pi)) => {
            assert(is_first_position(t, p, ti as int, pi as int));
            let (a, b) = choose|a: int, b: int| is_first_position(t, p, a, b);
            assert(is_first_position(t, p, a, b));
            if a < ti {
                assert(t[a].contains(p)) by { assert(t[a][b] == p); }
            }
            if ti < a {
                assert(t[ti as int].contains(p)) by { assert(t[ti as int][pi as int] == p); }
            }
            assert(a == ti);
            if b < pi {
                assert(t[ti as int][b] == p);
            }
            if pi < b {
                assert(t[a][pi as int] == p);
            }
        },
        None => {
            if exists|ti: int, pi: int| is_first_position(t, p, ti, pi) {
                let (a, b) = choose|a: int, b: int| is_first_position(t, p, a, b);
                assert(t[a].contains(p)) by { assert(t[a][b] == p); }
            }
        },
    }
}

// ------------------------------------------------------------------------
// Executable operations on team lists

/// The number of players in all teams together.
pub fn count_players(teams: &Vec<Vec<PlayerId>>) -> (n: usize)
    requires
        total(teams_view(teams@)) <= usize::MAX,
    ensures
        n == total(teams_view(teams@)),
{
    let ghost t = teams_view(teams@);
    let mut n: usize = 0;
    let mut i: usize = 0;
    while i < teams.len()
        invariant
            t == teams_view(teams@),
            total(t) <= usize::MAX,
            i <= teams.len(),
            n == total(t.take(i as int)),
        decreases teams.len() - i,
    {
        proof {
            lemma_total_take(t, i as int);
            lemma_total_take_le(t, i as int + 1);
        }
        n = n + teams[i].len();
        i = i + 1;
    }
    proof {
        assert(t.take(i as int) =~= t);
    }
    n
}

/// Whether no team has a player.
pub fn all_empty(teams: &Vec<Vec<PlayerId>>) -> (r: bool)
    ensures
        r == (forall|i: int| 0 <= i < teams@.len() ==> #[trigger] teams_view(teams@)[i].len() == 0),
{
    let mut i: usize = 0;
    while i < teams.len()
        invariant
            i <= teams.len(),
            forall|j: int| 0 <= j < i ==> #[trigger] teams_view(teams@)[j].len() == 0,
        decreases teams.len() - i,
    {
        if teams[i].len() != 0 {
            assert(teams_view(teams@)[i as int].len() != 0);
            return false;
        }
        i = i + 1;
    }
    true
}

/// The index of the first team, among the first `k`, with the fewest players.
pub fn first_min_team(teams: &Vec<Vec<PlayerId>>, k: usize) -> (r: usize)
    requires
        1 <= k <= teams@.len(),
    ensures
        r == first_min(teams_view(teams@), k as int),
        r < k,
{
    let ghost t = teams_view(teams@);
    let mut m: usize = 0;
    let mut j: usize = 1;
    while j < k
        invariant
            t == teams_view(teams@),
            1 <= j <= k <= teams@.len(),
            m == first_min(t, j as int),
            m < j,
        decreases k - j,
    {
        if teams[j].len() < teams[m].len() {
            m = j;
        }
        j = j + 1;
    }
    m
}

/// The index of the first team, among the first `k`, with fewer than `max` players.
pub fn first_team_with_space(teams: &Vec<Vec<PlayerId>>, k: usize, max: usize) -> (r: Option<usize>)
    requires
        k <= teams@.len(),
    ensures
        match r {
            Some(j) => first_space(teams_view(teams@), k as int, max as nat) == Some(j as int) && j < k,
            None => first_space(teams_view(teams@), k as int, max as nat) is None,
        },
{
    let ghost t = teams_view(teams@);
    let mut j: usize = 0;
    while j < k
        invariant
            t == teams_view(teams@),
            j <= k <= teams@.len(),
            first_space(t, j as int, max as nat) is None,
        decreases k - j,
    {
        if teams[j].len() < max {
            proof {
                lemma_first_space_extend(t, j as int + 1, k as int, max as nat);
            }
            return Some(j);
        }
        j = j + 1;
    }
    None
}

/// Moves the last player of team `from` to the end of team `to`.
fn move_last_player(teams: &mut Vec<Vec<PlayerId>>, from: usize, to: usize)
    requires
        from < old(teams)@.len(),
        to < old(teams)@.len(),
        from != to,
        old(teams)@[from as int]@.len() > 0,
    ensures
        teams_view(final(teams)@) == move_last(teams_view(old(teams)@), from as int, to as int),
        final(teams)@.len() == old(teams)@.len(),
{
    let ghost t = teams_view(teams@);
    let p = teams[from].pop().unwrap();
    teams[to].push(p);
    proof {
        assert(teams_view(teams@) =~= move_last(t, from as int, to as int));
    }
}

/// Adds a player to the first of the teams with the fewest players.
pub fn add_to_smallest_team(teams: &mut Vec<Vec<PlayerId>>, p: PlayerId)
    requires
        old(teams)@.len() > 0,
    ensures
        ({
            let t = teams_view(old(teams)@);
            let i = first_min(t, t.len() as int);
            teams_view(final(teams)@) == t.update(i, t[i].push(p))
        }),
        final(teams)@.len() == old(teams)@.len(),
{
    let ghost t = teams_view(teams@);
    let i = first_min_team(teams, teams.len());
    teams[i].push(p);
    proof {
        assert(teams_view(teams@) =~= t.update(i as int, t[i as int].push(p)));
    }
}

/// Where a player plays: the first team holding the player, and the player's
/// first position in it.
pub fn find_player(teams: &Vec<Vec<PlayerId>>, p: PlayerId) -> (r: Option<(usize, usize)>)
    ensures
        match r {
            Some((ti, pi)) => is_first_position(teams_view(teams@), p, ti as int, pi as int),
            None => !in_teams(teams_view(teams@), p),
        },
        match r {
            Some((ti, pi)) => find_player_spec(teams_view(teams@), p) == Some((ti as int, pi as int)),
            None => find_player_spec(teams_view(teams@), p) is None,
        },
{
    let ghost t = teams_view(teams@);
    let mut ti: usize = 0;
    while ti < teams.len()
        invariant
            t == teams_view(teams@),
            ti <= teams@.len(),
            forall|j: int| 0 <= j < ti ==> !(#[trigger] t[j]).contains(p),
        decreases teams.len() - ti,
    {
        let team = &teams[ti];
        let mut pi: usize = 0;
        while pi < team.len()
            invariant
                t == teams_view(teams@),
                team@ == t[ti as int],
                ti < teams@.len(),
                forall|j: int| 0 <= j < ti ==> !(#[trigger] t[j]).contains(p),
                pi <= team@.len(),
                forall|k: int| 0 <= k < pi ==> #[trigger] t[ti as int][k] != p,
            decreases team.len() - pi,
        {
            if team[pi] == p {
                proof {
                    assert(t[ti as int][pi as int] == p);
                    lemma_find_player_spec(t, p, Some((ti, pi)));
                }
                return Some((ti, pi));
            }
            pi = pi + 1;
        }
        ti = ti + 1;
    }
    proof {
        lemma_find_player_spec(t, p, None);
    }
    None
}

/// Removes the first occurrence of a player from the teams.
pub fn remove_from_teams(teams: &mut Vec<Vec<PlayerId>>, p: PlayerId) -> (r: Option<(usize, usize)>)
    ensures
        match r {
            Some((ti, pi)) => find_player_spec(teams_view(old(teams)@), p) == Some((ti as int, pi as int)),
            None => find_player_spec(teams_view(old(teams)@), p) is None,
        },
        match r {
            Some((ti, pi)) => teams_view(final(teams)@) == teams_view(old(teams)@).update(
                ti as int,
                teams_view(old(teams)@)[ti as int].remove(pi as int),
            ),
            None => final(teams)@ == old(teams)@,
        },
        final(teams)@.len() == old(teams)@.len(),
{
    let ghost t = teams_view(teams@);
    let r = find_player(teams, p);
    match r {
        Some((ti, pi)) => {
            teams[ti].remove(pi);
            proof {
                assert(teams_view(teams@) =~= t.update(ti as int, t[ti as int].remove(pi as int)));
            }
        },
        None => {},
    }
    r
}

/// The teams after the players at `(ta, ia)` and `(tb, ib)` have traded places.
pub open spec fn swapped(t: Seq<Seq<PlayerId>>, ta: int, ia: int, tb: int, ib: int) -> Seq<Seq<PlayerId>> {
    let pa = t[ta][ia];
    let pb = t[tb][ib];
    let t1 = t.update(ta, t[ta].update(ia, pb));
    t1.update(tb, t1[tb].update(ib, pa))
}

/// Trades the places of the players at `(ta, ia)` and `(tb, ib)`.
pub fn swap_players(teams: &mut Vec<Vec<PlayerId>>, ta: usize, ia: usize, tb: usize, ib: usize)
    requires
        ta < old(teams)@.len(),
        tb < old(teams)@.len(),
        ia < old(teams)@[ta as int]@.len(),
        ib < old(teams)@[tb as int]@.len(),
    ensures
        teams_view(final(teams)@) == swapped(teams_view(old(teams)@), ta as int, ia as int, tb as int, ib as int),
        final(teams)@.len() == old(teams)@.len(),
{
    let ghost t = teams_view(teams@);
    let pa = teams[ta][ia];
    let pb = teams[tb][ib];
    teams[ta].set(ia, pb);
    let ghost t1 = teams_view(teams@);
    proof {
        assert(t1 =~= t.update(ta as int, t[ta as int].update(ia as int, pb)));
    }
    teams[tb].set(ib, pa);
    proof {
        assert(teams_view(teams@) =~= swapped(t, ta as int, ia as int, tb as int, ib as int));
    }
}

/// Trading the places of two players keeps the roster.
pub proof fn lemma_swapped_keeps_roster(t: Seq<Seq<PlayerId>>, ta: int, ia: int, tb: int, ib: int)
    requires
        0 <= ta < t.len(),
        0 <= tb < t.len(),
        0 <= ia < t[ta].len(),
        0 <= ib < t[tb].len(),
    ensures
        roster(swapped(t, ta, ia, tb, ib)) == roster(t),
        swapped(t, ta, ia, tb, ib).len() == t.len(),
{
    let pa = t[ta][ia];
    let pb = t[tb][ib];
    let s1 = t[ta].update(ia, pb);
    let t1 = t.update(ta, s1);
    let s2 = t1[tb].update(ib, pa);
    let u = t1.update(tb, s2);
    lemma_roster_update(t, ta, s1);
    lemma_roster_update(t1, tb, s2);
    // update of one position: multiset changes by removing old, inserting new
    assert(s1.to_multiset() =~= t[ta].to_multiset().remove(pa).insert(pb)) by {
        lemma_update_multiset(t[ta], ia, pb);
    }
    assert(s2.to_multiset() =~= t1[tb].to_multiset().remove(t1[tb][ib]).insert(pa)) by {
        lemma_update_multiset(t1[tb], ib, pa);
    }
    if ta == tb && ia == ib {
        assert(s1 =~= t[ta]);
        assert(t1 =~= t);
        assert(s2 =~= t[tb]);
        assert(u =~= t);
    } else {
        assert(t1[tb][ib] == pb);
        assert forall|x: PlayerId| roster(u).count(x) == roster(t).count(x) by {
            assert(roster(u).add(t1[tb].to_multiset()).count(x) == roster(t1).add(s2.to_multiset()).count(x));
            assert(roster(t1).add(t[ta].to_multiset()).count(x) == roster(t).add(s1.to_multiset()).count(x));
            assert(t[ta].to_multiset().count(pa) > 0) by { assert(t[ta].contains(pa)); }
            assert(t1[tb].to_multiset().count(pb) > 0) by { assert(t1[tb][ib] == pb); assert(t1[tb].contains(pb)); }
        }
        assert(roster(u) =~= roster(t));
    }
}

proof fn lemma_update_multiset(s: Seq<PlayerId>, i: int, x: PlayerId)
    requires
        0 <= i < s.len(),
    ensures
        s.update(i, x).to_multiset() =~= s.to_multiset().remove(s[i]).insert(x),
{
    let u = s.update(i, x);
    assert(u.remove(i) =~= s.remove(i));
    assert(u.remove(i).to_multiset() == u.to_multiset().remove(u[i]));
    assert(s.remove(i).to_multiset() == s.to_multiset().remove(s[i]));
    assert(u.contains(x)) by { assert(u[i] == x); }
    assert forall|y: PlayerId| u.to_multiset().count(y) == s.to_multiset().remove(s[i]).insert(x).count(y) by {
        assert(u.to_multiset().remove(x).count(y) == s.to_multiset().remove(s[i]).count(y));
    }
}

/// Readjusts the teams to `tc` teams of at most `max` players, as far as the
/// players fit: players of teams beyond the first `tc` move, last first, to
/// the first team with room (or else to the first least-populated team), the
/// last team is dropped, missing teams are added empty, and each team with
/// more than `max` players passes its last players on to the first teams with
/// room, as long as there is room.
pub fn readjust_teams(teams: &mut Vec<Vec<PlayerId>>, tc: usize, max: usize)
    requires
        tc >= 1 || total(teams_view(old(teams)@)) == 0,
    ensures
        teams_view(final(teams)@) == readjusted(teams_view(old(teams)@), tc as int, max as nat),
{
    let ghost t0 = teams_view(teams@);
    proof {
        crate::lobby::lemma_all_empty_total(t0);
    }
    let n_teams = teams.len();
    if n_teams > tc {
        let mut k = n_teams;
        while k > tc
            invariant
                tc >= 1 || teams_view(teams@) == t0,
                tc >= 1 || forall|i: int| 0 <= i < t0.len() ==> #[trigger] t0[i].len() == 0,
                tc <= k <= n_teams,
                teams@.len() == n_teams,
                evacuate_extra(teams_view(teams@), k as int, tc as int, max as nat)
                    == evacuate_extra(t0, n_teams as int, tc as int, max as nat),
            decreases k,
        {
            let from = k - 1;
            let n = teams[from].len();
            let ghost tk = teams_view(teams@);
            let mut i: usize = 0;
            while i < n
                invariant
                    tc >= 1 || n == 0,
                    tc >= 1 || teams_view(teams@) == tk,
                    tc <= from < n_teams,
                    teams@.len() == n_teams,
                    i <= n,
                    teams_view(teams@)[from as int].len() == n - i,
                    evacuate(teams_view(teams@), from as int, (n - i) as nat, tc as int, max as nat)
                        == evacuate(tk, from as int, n as nat, tc as int, max as nat),
                decreases n - i,
            {
                let ghost cur = teams_view(teams@);
                let target = match first_team_with_space(teams, tc, max) {
                    Some(j) => j,
                    None => first_min_team(teams, tc),
                };
                proof {
                    assert(target as int == evacuation_target(cur, tc as int, max as nat));
                    lemma_move_last_roster(cur, from as int, target as int);
                }
                move_last_player(teams, from, target);
                i = i + 1;
            }
            k = k - 1;
        }
        teams.pop();
        proof {
            assert(teams_view(teams@) =~= shrink_phase(t0, tc as int, max as nat));
        }
    }
    let ghost s0 = teams_view(teams@);
    proof {
        assert(s0 == shrink_phase(t0, tc as int, max as nat));
    }
    while teams.len() < tc
        invariant
            grow_phase(teams_view(teams@), tc as int) == grow_phase(s0, tc as int),
        decreases tc - teams.len(),
    {
        let ghost cur = teams_view(teams@);
        teams.push(Vec::new());
        proof {
            assert(teams_view(teams@) =~= cur.push(Seq::<PlayerId>::empty()));
            assert(grow_phase(teams_view(teams@), tc as int) =~= grow_phase(cur, tc as int));
        }
    }
    let ghost g = teams_view(teams@);
    proof {
        assert(grow_phase(g, tc as int) =~= g);
    }
    let mut from: usize = 0;
    while from < tc
        invariant
            tc <= teams@.len(),
            g.len() == teams@.len(),
            from <= tc,
            teams_view(teams@) == balance_phase(g, from as int, tc as int, max as nat),
        decreases tc - from,
    {
        let ghost t1 = teams_view(teams@);
        if teams[from].len() > max {
            let amount = teams[from].len() - max;
            let mut i: usize = 0;
            while i < amount
                invariant
                    tc <= teams@.len(),
                    g.len() == teams@.len(),
                    from < tc,
                    i <= amount,
                    teams_view(teams@)[from as int].len() >= max + (amount - i),
                    shed(teams_view(teams@), from as int, (amount - i) as nat, tc as int, max as nat)
                        == shed(t1, from as int, amount as nat, tc as int, max as nat),
                decreases amount - i,
            {
                let ghost cur = teams_view(teams@);
                match first_team_with_space(teams, tc, max) {
                    Some(to) => {
                        proof {
                            lemma_first_space(cur, tc as int, max as nat);
                        }
                        move_last_player(teams, from, to);
                    },
                    None => {},
                }
                i = i + 1;
            }
        }
        from = from + 1;
    }
}

} // verus!
