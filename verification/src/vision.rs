//! Which units the game client shows: those of the player's team, and those
//! that the player's team sees.

use vstd::prelude::*;
use crate::ids::Team;

verus! {

/// Whether a unit is drawn: as its parent is (`Inherited`), or not at all.
#[derive(Debug, Clone, Copy, PartialEq, Eq, Structural)]
pub enum Visibility {
    Inherited,
    Hidden,
}

/// A unit's visibility for team `me`: shown when it is of team `me` or team
/// `me` sees it.
pub open spec fn visibility_for(team: Team, visible_by: Seq<Team>, me: Team) -> Visibility {
    if team == me || visible_by.contains(me) {
        Visibility::Inherited
    } else {
        Visibility::Hidden
    }
}

/// A unit is shown exactly when it is of the player's team or the player's
/// team is anywhere among the teams that see it; the order in which those
/// teams are listed, and repeats among them, do not matter.
pub proof fn lemma_shown_when_seen(team: Team, visible_by: Seq<Team>, me: Team, other: Seq<Team>)
    ensures
        team == me ==> visibility_for(team, visible_by, me) == Visibility::Inherited,
        forall|i: int| 0 <= i < visible_by.len() && #[trigger] visible_by[i] == me
            ==> visibility_for(team, visible_by, me) == Visibility::Inherited,
        team != me && (forall|i: int| 0 <= i < visible_by.len() ==> #[trigger] visible_by[i] != me)
            ==> visibility_for(team, visible_by, me) == Visibility::Hidden,
        visible_by.to_set() == other.to_set() ==> visibility_for(team, visible_by, me) == visibility_for(team, other, me),
{
    assert forall|i: int| 0 <= i < visible_by.len() && #[trigger] visible_by[i] == me
        implies visibility_for(team, visible_by, me) == Visibility::Inherited by {
        assert(visible_by.contains(me));
    }
    if visible_by.to_set() == other.to_set() {
        assert(visible_by.to_set().contains(me) == visible_by.contains(me));
        assert(other.to_set().contains(me) == other.contains(me));
    }
}

/// The visibility of one unit, of team `team` and seen by the teams
/// `visible_by`, for the player's team `me`.
pub fn unit_visibility(team: Team, visible_by: &Vec<Team>, me: Team) -> (r: Visibility)
    ensures
        r == visibility_for(team, visible_by@, me),
{
    if team == me {
        return Visibility::Inherited;
    }
    let mut i: usize = 0;
    while i < visible_by.len()
        invariant
            i <= visible_by@.len(),
            forall|j: int| 0 <= j < i ==> visible_by@[j] != me,
        decreases visible_by.len() - i,
    {
        if visible_by[i] == me {
            return Visibility::Inherited;
        }
        i = i + 1;
    }
    Visibility::Hidden
}

/// The visibility of each unit, given as its team and the teams that see
/// it, for the player's team `me`.
pub fn change_visibility(units: &Vec<(Team, Vec<Team>)>, me: Team) -> (r: Vec<Visibility>)
    ensures
        r@.len() == units@.len(),
        forall|k: int| 0 <= k < units@.len() ==> #[trigger] r@[k] == visibility_for(units@[k].0, units@[k].1@, me),
{
    let mut r: Vec<Visibility> = Vec::new();
    let mut k: usize = 0;
    while k < units.len()
        invariant
            k <= units@.len(),
            r@.len() == k,
            forall|m: int| 0 <= m < k ==> #[trigger] r@[m] == visibility_for(units@[m].0, units@[m].1@, me),
        decreases units.len() - k,
    {
        let v = unit_visibility(units[k].0, &units[k].1, me);
        r.push(v);
        k = k + 1;
    }
    r
}

} // verus!
