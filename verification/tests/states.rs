use moba_lobby::states::{StateList, UnitState};

fn state(priority: i64, proto: &str) -> UnitState<f32> {
    UnitState { priority, proto: proto.to_string(), data: 1.0 }
}

fn protos(l: &StateList<f32>) -> Vec<&str> {
    l.states.iter().map(|s| s.proto.as_str()).collect()
}

#[test]
fn states_go_in_order_of_priority() {
    let mut l = StateList::new(state(0, "idle"));
    l.add_state(state(1, "moving"));
    l.add_state(state(2, "attacking"));
    assert_eq!(protos(&l), vec!["idle", "moving", "attacking"]);
    assert_eq!(l.current_state().proto, "attacking");
    l.remove_state(&"moving".to_string());
    assert_eq!(protos(&l), vec!["idle", "attacking"]);
    l.add_state(state(1, "moving"));
    assert_eq!(protos(&l), vec!["idle", "moving", "attacking"]);
    assert_eq!(l.current_state().proto, "attacking");
    l.add_state(state(1, "moving again"));
    assert_eq!(protos(&l), vec!["idle", "moving", "moving again", "attacking"]);
}

#[test]
fn the_first_state_stays() {
    let mut l = StateList::new(state(0, "idle"));
    l.remove_state(&"idle".to_string());
    assert_eq!(protos(&l), vec!["idle"]);
    l.remove_state(&"unknown".to_string());
    assert_eq!(protos(&l), vec!["idle"]);
}

#[test]
fn every_change_is_counted() {
    let mut l = StateList::new(state(0, "idle"));
    assert_eq!(l.x, 0);
    l.add_state(state(1, "moving"));
    l.remove_state(&"moving".to_string());
    assert_eq!(l.x, 2);
    l.x = 255;
    l.add_state(state(1, "moving"));
    assert_eq!(l.x, 0);
}

#[test]
fn a_state_below_the_first_goes_to_the_end() {
    let mut l = StateList::new(state(0, "idle"));
    l.add_state(state(-1, "low"));
    assert_eq!(protos(&l), vec!["idle", "low"]);
    assert_eq!(l.current_state().proto, "low");
}
