use wt_tools::router::GroupRouter;

#[test]
fn a_new_router_has_no_targets() {
    let router = GroupRouter::new();
    assert_eq!(router.targets("all"), Vec::<u64>::new());
    assert!(!router.is_member("all", 1));
}

#[test]
fn a_payload_goes_to_the_channels_of_its_group() {
    let mut router = GroupRouter::new();
    router.join("all", 1);
    router.join("ops", 2);
    router.join("all", 3);
    router.join("ops", 1);
    assert_eq!(router.targets("all"), vec![1, 3]);
    assert_eq!(router.targets("ops"), vec![2, 1]);
    assert_eq!(router.targets("none"), Vec::<u64>::new());
    assert!(router.is_member("all", 3));
    assert!(!router.is_member("all", 2));
}

#[test]
fn joining_twice_is_joining_once() {
    let mut router = GroupRouter::new();
    router.join("all", 1);
    router.join("all", 1);
    assert_eq!(router.targets("all"), vec![1]);
    router.leave("all", 1);
    assert_eq!(router.targets("all"), Vec::<u64>::new());
}

#[test]
fn a_channel_that_left_gets_nothing() {
    let mut router = GroupRouter::new();
    router.join("all", 1);
    router.join("all", 2);
    router.join("ops", 2);
    router.leave("all", 2);
    assert_eq!(router.targets("all"), vec![1]);
    assert_eq!(router.targets("ops"), vec![2]);
    router.leave("all", 7);
    router.leave("none", 1);
    assert_eq!(router.targets("all"), vec![1]);
}

#[test]
fn removing_a_channel_takes_it_out_of_every_group() {
    let mut router = GroupRouter::new();
    router.join("a", 1);
    router.join("b", 1);
    router.join("a", 2);
    router.join("c", 1);
    router.remove_channel(1);
    assert_eq!(router.targets("a"), vec![2]);
    assert_eq!(router.targets("b"), Vec::<u64>::new());
    assert_eq!(router.targets("c"), Vec::<u64>::new());
}

#[test]
fn group_names_are_compared_character_by_character() {
    let mut router = GroupRouter::new();
    router.join("Ops", 1);
    router.join("ops", 2);
    router.join("ops ", 3);
    assert_eq!(router.targets("ops"), vec![2]);
}
