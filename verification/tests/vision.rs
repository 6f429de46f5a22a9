use moba_lobby::ids::Team;
use moba_lobby::vision::{change_visibility, unit_visibility, Visibility};

#[test]
fn own_and_seen_units_are_shown_the_others_hidden() {
    let me = Team(1);
    assert_eq!(unit_visibility(Team(1), &vec![], me), Visibility::Inherited);
    assert_eq!(unit_visibility(Team(0), &vec![Team(0), Team(1)], me), Visibility::Inherited);
    assert_eq!(unit_visibility(Team(0), &vec![Team(0), Team(2)], me), Visibility::Hidden);
    let units = vec![(Team(0), vec![]), (Team(1), vec![]), (Team(2), vec![Team(1)])];
    assert_eq!(
        change_visibility(&units, me),
        vec![Visibility::Hidden, Visibility::Inherited, Visibility::Inherited]
    );
}
