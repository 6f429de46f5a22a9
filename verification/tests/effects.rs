use moba_lobby::effects::{DeferredCommands, EffectList};

#[test]
fn effects_are_kept_by_id() {
    let mut list: EffectList<&str> = EffectList::new();
    list.add_effect(true, 1, "burn");
    list.add_effect(false, 2, "slow");
    assert_eq!(list.effect_list, vec![(1, "burn"), (2, "slow")]);
    assert_eq!(list.updatable, vec![1]);
    list.add_effect(true, 1, "burn harder");
    assert_eq!(list.effect_list, vec![(1, "burn harder"), (2, "slow")]);
    assert_eq!(list.updatable, vec![1]);
    assert_eq!(list.position(2), Some(1));
    assert_eq!(list.position(3), None);
    list.remove_effect(1);
    assert_eq!(list.effect_list, vec![(2, "slow")]);
    assert!(list.updatable.is_empty());
    list.remove_effect(7);
    assert_eq!(list.effect_list, vec![(2, "slow")]);
}

#[test]
fn ready_commands_come_out_in_order_and_the_rest_are_swap_removed() {
    let mut q: DeferredCommands<&str> = DeferredCommands::new();
    q.defer(1, "c0");
    q.defer(2, "c1");
    q.defer(1, "c2");
    q.defer(3, "c3");
    let ready = q.take_ready(&vec![1]);
    assert_eq!(ready, vec![(1, "c0"), (1, "c2")]);
    // swap_remove at 2 and then at 0
    assert_eq!(q.queue, vec![(3, "c3"), (2, "c1")]);
    assert_eq!(q.take_ready(&vec![]), vec![]);
    assert_eq!(q.take_ready(&vec![2, 3]), vec![(3, "c3"), (2, "c1")]);
    assert!(q.queue.is_empty());
}
