use room_pubsub::membership::{
    connect, create_room, create_room_with_id, create_transaction, locate_subscriber, plan_create,
    subscribe, subscribe_transaction, unsubscribe, unsubscribe_transaction, MembershipError,
};
use room_pubsub::memory::MemoryStore;
use room_pubsub::store::{Mutation, StoreError};

fn ids(v: &[&str]) -> Vec<String> {
    v.iter().map(|s| s.to_string()).collect()
}

#[test]
fn connect_registers_without_room() {
    let mut store = MemoryStore::new();
    assert_eq!(connect(&mut store, "A"), Ok(()));
    assert_eq!(store.connection_room("A"), Some(None));
}

#[test]
fn end_to_end_room_lifecycle() {
    let mut store = MemoryStore::new();
    connect(&mut store, "A").unwrap();

    let room = create_room(&mut store, "A").unwrap();
    assert_eq!(store.room_subscribers(&room), Some(ids(&["A"])));
    assert_eq!(store.room_creator(&room), Some("A".to_string()));
    assert_eq!(store.connection_room("A"), Some(Some(room.clone())));

    assert_eq!(subscribe(&mut store, "B", Some(&room)), Ok(()));
    assert_eq!(store.room_subscribers(&room), Some(ids(&["A", "B"])));
    assert_eq!(store.connection_room("B"), Some(Some(room.clone())));

    assert_eq!(unsubscribe(&mut store, "B"), Ok(()));
    assert_eq!(store.room_subscribers(&room), Some(ids(&["A"])));
    assert_eq!(store.connection_room("B"), Some(None));

    assert_eq!(unsubscribe(&mut store, "A"), Ok(()));
    assert_eq!(store.room_subscribers(&room), Some(Vec::new()));
    assert_eq!(store.connection_room("A"), Some(None));
    assert_eq!(store.room_creator(&room), Some("A".to_string()));
}

#[test]
fn subscribe_to_missing_room_is_not_found() {
    let mut store = MemoryStore::new();
    assert_eq!(
        subscribe(&mut store, "C", Some("nonexistent-room")),
        Err(MembershipError::NotFound)
    );
    assert_eq!(store.connection_room("C"), None);
    connect(&mut store, "C").unwrap();
    assert_eq!(
        subscribe(&mut store, "C", Some("nonexistent-room")),
        Err(MembershipError::NotFound)
    );
    assert_eq!(store.connection_room("C"), Some(None));
}

#[test]
fn subscribe_lists_connection_once() {
    let mut store = MemoryStore::new();
    create_room_with_id(&mut store, "A", "r1").unwrap();
    subscribe(&mut store, "B", Some("r1")).unwrap();
    assert_eq!(store.connection_room("B"), Some(Some("r1".to_string())));
    let roster = store.room_subscribers("r1").unwrap();
    assert_eq!(roster.iter().filter(|c| c.as_str() == "B").count(), 1);
}

#[test]
fn subscribe_then_unsubscribe_leaves_nothing_behind() {
    let mut store = MemoryStore::new();
    create_room_with_id(&mut store, "A", "r1").unwrap();
    subscribe(&mut store, "B", Some("r1")).unwrap();
    unsubscribe(&mut store, "B").unwrap();
    assert_eq!(store.connection_room("B"), Some(None));
    assert!(!store.room_subscribers("r1").unwrap().contains(&"B".to_string()));
}

#[test]
fn repeated_subscribe_never_duplicates() {
    let mut store = MemoryStore::new();
    create_room_with_id(&mut store, "A", "r1").unwrap();
    create_room_with_id(&mut store, "X", "r2").unwrap();
    subscribe(&mut store, "B", Some("r1")).unwrap();
    assert_eq!(
        subscribe(&mut store, "B", Some("r1")),
        Err(MembershipError::AlreadyAssociated)
    );
    assert_eq!(
        subscribe(&mut store, "B", Some("r2")),
        Err(MembershipError::AlreadyAssociated)
    );
    assert_eq!(
        subscribe(&mut store, "A", Some("r1")),
        Err(MembershipError::AlreadyAssociated)
    );
    assert_eq!(store.room_subscribers("r1"), Some(ids(&["A", "B"])));
    assert_eq!(store.room_subscribers("r2"), Some(ids(&["X"])));
}

#[test]
fn connect_twice_leaves_room_unset() {
    let mut store = MemoryStore::new();
    assert_eq!(connect(&mut store, "A"), Ok(()));
    assert_eq!(connect(&mut store, "A"), Ok(()));
    assert_eq!(store.connection_room("A"), Some(None));
}

#[test]
fn connect_clears_an_earlier_room() {
    let mut store = MemoryStore::new();
    create_room_with_id(&mut store, "A", "r1").unwrap();
    connect(&mut store, "A").unwrap();
    assert_eq!(store.connection_room("A"), Some(None));
}

#[test]
fn concurrent_unsubscribes_empty_the_roster() {
    let mut store = MemoryStore::new();
    create_room_with_id(&mut store, "c1", "r").unwrap();
    subscribe(&mut store, "c2", Some("r")).unwrap();

    // Both read the roster before either commits.
    let snapshot = store.room_subscribers("r").unwrap();
    let tx1 = unsubscribe_transaction("c1", "r", &snapshot).unwrap();
    let tx2 = unsubscribe_transaction("c2", "r", &snapshot).unwrap();

    assert_eq!(store.transact(&tx1), Ok(()));
    // The second was built from a stale roster: position 1 no longer exists.
    assert_eq!(store.transact(&tx2), Err(StoreError::Aborted));
    assert_eq!(store.room_subscribers("r"), Some(ids(&["c2"])));
    assert_eq!(store.connection_room("c2"), Some(Some("r".to_string())));

    // Retried from a fresh read, it commits.
    let fresh = store.room_subscribers("r").unwrap();
    let tx2 = unsubscribe_transaction("c2", "r", &fresh).unwrap();
    assert_eq!(store.transact(&tx2), Ok(()));
    assert_eq!(store.room_subscribers("r"), Some(Vec::new()));
    assert_eq!(store.connection_room("c1"), Some(None));
    assert_eq!(store.connection_room("c2"), Some(None));
}

#[test]
fn concurrent_unsubscribes_in_the_other_order() {
    let mut store = MemoryStore::new();
    create_room_with_id(&mut store, "c1", "r").unwrap();
    subscribe(&mut store, "c2", Some("r")).unwrap();
    let snapshot = store.room_subscribers("r").unwrap();
    let tx1 = unsubscribe_transaction("c1", "r", &snapshot).unwrap();
    let tx2 = unsubscribe_transaction("c2", "r", &snapshot).unwrap();
    assert_eq!(store.transact(&tx2), Ok(()));
    assert_eq!(store.transact(&tx1), Err(StoreError::Aborted));
    assert_eq!(unsubscribe(&mut store, "c1"), Ok(()));
    assert_eq!(store.room_subscribers("r"), Some(Vec::new()));
}

#[test]
fn unsubscribe_without_room_is_not_associated() {
    let mut store = MemoryStore::new();
    create_room_with_id(&mut store, "A", "r1").unwrap();
    connect(&mut store, "B").unwrap();
    assert_eq!(unsubscribe(&mut store, "B"), Err(MembershipError::NotAssociated));
    assert_eq!(store.connection_room("B"), Some(None));
    assert_eq!(store.room_subscribers("r1"), Some(ids(&["A"])));
}

#[test]
fn unsubscribe_unknown_connection_is_not_found() {
    let mut store = MemoryStore::new();
    assert_eq!(unsubscribe(&mut store, "Z"), Err(MembershipError::NotFound));
}

#[test]
fn subscribe_without_room_id_is_bad_request() {
    let mut store = MemoryStore::new();
    create_room_with_id(&mut store, "A", "r1").unwrap();
    assert_eq!(subscribe(&mut store, "B", None), Err(MembershipError::BadRequest));
    assert_eq!(store.connection_room("B"), None);
}

#[test]
fn create_with_taken_id_is_conflict() {
    let mut store = MemoryStore::new();
    create_room_with_id(&mut store, "A", "r1").unwrap();
    connect(&mut store, "B").unwrap();
    assert_eq!(create_room_with_id(&mut store, "B", "r1"), Err(MembershipError::Conflict));
    assert_eq!(store.room_creator("r1"), Some("A".to_string()));
    assert_eq!(store.connection_room("B"), Some(None));
}

#[test]
fn create_while_in_a_room_is_already_associated() {
    let mut store = MemoryStore::new();
    create_room_with_id(&mut store, "A", "r1").unwrap();
    assert_eq!(create_room(&mut store, "A"), Err(MembershipError::AlreadyAssociated));
    assert_eq!(create_room_with_id(&mut store, "A", "r2"), Err(MembershipError::AlreadyAssociated));
    assert_eq!(store.room_subscribers("r2"), None);
}

#[test]
fn unsubscribe_from_roster_that_omits_it_is_inconsistent() {
    let mut store = MemoryStore::new();
    create_room_with_id(&mut store, "A", "r1").unwrap();
    let broken = vec![Mutation::AssignRoom { connection_id: "C".to_string(), room_id: "r1".to_string() }];
    store.transact(&broken).unwrap();
    assert_eq!(unsubscribe(&mut store, "C"), Err(MembershipError::InconsistentState));
    assert_eq!(store.connection_room("C"), Some(Some("r1".to_string())));
}

#[test]
fn subscribe_when_roster_already_lists_it_is_inconsistent() {
    let mut store = MemoryStore::new();
    create_room_with_id(&mut store, "A", "r1").unwrap();
    connect(&mut store, "A").unwrap();
    assert_eq!(subscribe(&mut store, "A", Some("r1")), Err(MembershipError::InconsistentState));
    assert_eq!(store.connection_room("A"), Some(None));
    assert_eq!(store.room_subscribers("r1"), Some(ids(&["A"])));
}

#[test]
fn unsubscribe_for_room_that_is_gone_is_not_found() {
    let mut store = MemoryStore::new();
    let broken = vec![Mutation::AssignRoom { connection_id: "C".to_string(), room_id: "gone".to_string() }];
    store.transact(&broken).unwrap();
    assert_eq!(unsubscribe(&mut store, "C"), Err(MembershipError::NotFound));
}

#[test]
fn generated_room_ids_are_hyphenated_and_distinct() {
    let mut store = MemoryStore::new();
    let r1 = create_room(&mut store, "A").unwrap();
    let r2 = create_room(&mut store, "B").unwrap();
    assert_eq!(r1.len(), 36);
    assert_eq!(r1.matches('-').count(), 4);
    assert_ne!(r1, r2);
    assert_eq!(store.room_subscribers(&r2), Some(ids(&["B"])));
}

#[test]
fn locate_finds_first_position() {
    assert_eq!(locate_subscriber(&ids(&["A", "B", "C"]), "B"), Some(1));
    assert_eq!(locate_subscriber(&ids(&["A", "B", "C"]), "D"), None);
    assert_eq!(locate_subscriber(&Vec::new(), "A"), None);
}

#[test]
fn unsubscribe_transaction_targets_located_position() {
    let roster = ids(&["A", "B", "C"]);
    match unsubscribe_transaction("C", "r", &roster).unwrap().as_slice() {
        [Mutation::RemoveSubscriberAt { room_id, index, expected }, Mutation::ClearRoom { connection_id, room_id: r2 }] => {
            assert_eq!(room_id, "r");
            assert_eq!(*index, 2);
            assert_eq!(expected, &roster);
            assert_eq!(connection_id, "C");
            assert_eq!(r2, "r");
        }
        _ => panic!("unexpected transaction shape"),
    }
    assert!(matches!(
        unsubscribe_transaction("D", "r", &roster),
        Err(MembershipError::InconsistentState)
    ));
}

#[test]
fn transaction_with_failing_condition_applies_nothing() {
    let mut store = MemoryStore::new();
    let tx = vec![
        Mutation::RegisterConnection { connection_id: "A".to_string() },
        Mutation::AppendSubscriber { room_id: "none".to_string(), connection_id: "A".to_string() },
    ];
    assert_eq!(store.transact(&tx), Err(StoreError::Aborted));
    assert_eq!(store.connection_room("A"), None);
}

#[test]
fn plan_create_names_a_fresh_room() {
    let (room, tx) = plan_create("A");
    assert_eq!(room.len(), 36);
    match tx.as_slice() {
        [Mutation::AssignRoom { connection_id, room_id }, Mutation::CreateRoom { room_id: r2, creator_id }] => {
            assert_eq!(connection_id, "A");
            assert_eq!(room_id, &room);
            assert_eq!(r2, &room);
            assert_eq!(creator_id, "A");
        }
        _ => panic!("unexpected transaction shape"),
    }
    let mut store = MemoryStore::new();
    assert_eq!(store.transact(&tx), Ok(()));
    assert_eq!(store.room_subscribers(&room), Some(ids(&["A"])));
}

#[test]
fn connection_side_comes_first() {
    assert!(matches!(
        create_transaction("A", "r").as_slice(),
        [Mutation::AssignRoom { .. }, Mutation::CreateRoom { .. }]
    ));
    assert!(matches!(
        subscribe_transaction("A", "r").as_slice(),
        [Mutation::AssignRoom { .. }, Mutation::AppendSubscriber { .. }]
    ));
}

#[test]
fn create_after_connect_succeeds() {
    let mut store = MemoryStore::new();
    connect(&mut store, "A").unwrap();
    let room = create_room(&mut store, "A").unwrap();
    assert_eq!(store.room_subscribers(&room), Some(ids(&["A"])));
    assert_eq!(store.room_creator(&room), Some("A".to_string()));
    assert_eq!(store.connection_room("A"), Some(Some(room)));
}
