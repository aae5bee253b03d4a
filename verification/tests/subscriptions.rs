use hermes::subscriptions::{Store, Target};

#[test]
fn watches_persist_and_can_be_removed() {
    let target = Target::new(1, 2);
    let mut store = Store::new();

    assert!(store.watch("darkstardevx/gateflow", target.clone()));
    assert!(!store.watch("darkstardevx/gateflow", target.clone()));
    assert_eq!(store.repos_for(&target), vec!["darkstardevx/gateflow"]);

    let reloaded = Store::from_entries(&store.entries());
    let mut reloaded = reloaded;
    assert_eq!(
        reloaded.targets_for("darkstardevx/gateflow"),
        vec![target.clone()]
    );
    assert!(reloaded.unwatch("darkstardevx/gateflow", &target));
    assert!(reloaded.is_empty());
}

#[test]
fn targets_are_kept_in_guild_then_channel_order() {
    let mut store = Store::new();
    assert!(store.watch("darkstardevx/echo", Target::new(2, 1)));
    assert!(store.watch("darkstardevx/echo", Target::new(1, 9)));
    assert!(store.watch("darkstardevx/echo", Target::new(1, 3)));
    assert_eq!(
        store.targets_for("darkstardevx/echo"),
        vec![Target::new(1, 3), Target::new(1, 9), Target::new(2, 1)]
    );
    assert_eq!(store.count(), 3);
}

#[test]
fn repositories_are_listed_in_name_order() {
    let mut store = Store::new();
    let t = Target::new(5, 6);
    assert!(store.watch("darkstardevx/wraithflow", t));
    assert!(store.watch("darkstardevx/agentforge", t));
    assert!(store.watch("darkstardevx/cybercore", t));
    assert!(store.watch("darkstardevx/cybercore", Target::new(7, 8)));
    assert_eq!(
        store.repos_for(&t),
        vec![
            "darkstardevx/agentforge",
            "darkstardevx/cybercore",
            "darkstardevx/wraithflow"
        ]
    );
    assert_eq!(store.repos_for(&Target::new(7, 8)), vec!["darkstardevx/cybercore"]);
    assert_eq!(store.count(), 4);
    assert!(!store.is_empty());
}

#[test]
fn unwatching_keeps_other_targets_and_repositories() {
    let mut store = Store::new();
    let a = Target::new(1, 1);
    let b = Target::new(1, 2);
    assert!(store.watch("r/one", a));
    assert!(store.watch("r/one", b));
    assert!(store.watch("r/two", a));
    assert!(store.unwatch("r/one", &a));
    assert!(!store.unwatch("r/one", &a));
    assert!(!store.unwatch("r/missing", &a));
    assert_eq!(store.targets_for("r/one"), vec![b]);
    assert_eq!(store.targets_for("r/two"), vec![a]);
    assert!(store.unwatch("r/one", &b));
    assert_eq!(store.targets_for("r/one"), Vec::<Target>::new());
    assert_eq!(store.repos_for(&b), Vec::<String>::new());
    let entries = store.entries();
    assert_eq!(entries.len(), 1);
    assert_eq!(entries[0].0, "r/two");
}

#[test]
fn later_saved_entries_replace_earlier_ones() {
    let entries = vec![
        ("r/b".to_string(), vec![Target::new(1, 1)]),
        ("r/a".to_string(), vec![Target::new(2, 2)]),
        ("r/b".to_string(), vec![Target::new(3, 3), Target::new(4, 4)]),
    ];
    let store = Store::from_entries(&entries);
    assert_eq!(store.count(), 3);
    assert_eq!(store.targets_for("r/b"), vec![Target::new(3, 3), Target::new(4, 4)]);
    let saved = store.entries();
    assert_eq!(saved[0].0, "r/a");
    assert_eq!(saved[1].0, "r/b");
}

#[test]
fn unwatch_right_after_watch_gives_the_store_back() {
    let mut store = Store::new();
    assert!(store.watch("darkstardevx/echo", Target::new(1, 3)));
    assert!(store.watch("darkstardevx/echo", Target::new(2, 1)));
    assert!(store.watch("darkstardevx/gateflow", Target::new(1, 3)));
    let before = store.entries();

    assert!(store.watch("darkstardevx/echo", Target::new(1, 9)));
    assert!(store.unwatch("darkstardevx/echo", &Target::new(1, 9)));
    assert_eq!(store.entries(), before);

    assert!(store.watch("darkstardevx/agentforge", Target::new(7, 7)));
    assert!(store.unwatch("darkstardevx/agentforge", &Target::new(7, 7)));
    assert_eq!(store.entries(), before);
}

#[test]
fn unwatch_keeps_stored_lists_non_empty_and_ascending() {
    let mut store = Store::new();
    assert!(store.watch("darkstardevx/echo", Target::new(2, 1)));
    assert!(store.watch("darkstardevx/echo", Target::new(1, 3)));
    assert!(store.watch("darkstardevx/gateflow", Target::new(4, 4)));
    assert!(store.unwatch("darkstardevx/echo", &Target::new(2, 1)));
    assert!(store.unwatch("darkstardevx/gateflow", &Target::new(4, 4)));
    assert_eq!(
        store.entries(),
        vec![("darkstardevx/echo".to_string(), vec![Target::new(1, 3)])]
    );
    assert_eq!(store.count(), 1);
}

#[test]
fn unwatch_after_watch_restores_a_loaded_unsorted_list_in_order() {
    let loaded = vec![(
        "darkstardevx/echo".to_string(),
        vec![Target::new(2, 1), Target::new(1, 3)],
    )];
    let mut store = Store::from_entries(&loaded);
    assert_eq!(store.count(), 2);
    assert!(store.watch("darkstardevx/echo", Target::new(5, 5)));
    assert!(store.unwatch("darkstardevx/echo", &Target::new(5, 5)));
    assert_eq!(
        store.targets_for("darkstardevx/echo"),
        vec![Target::new(1, 3), Target::new(2, 1)]
    );
    assert_eq!(store.count(), 2);
}
