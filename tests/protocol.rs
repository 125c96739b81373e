use room_pubsub::membership::MembershipError;
use room_pubsub::protocol::{
    after_commit, connection_room_from_record, rejection_error, roster_from_record, CommitOutcome, NextStep,
    RoomAttribute, RosterAttribute, BACKOFF_STEP_MS, MAX_ATTEMPTS,
};
use room_pubsub::routing::{parse_route, Route};
use room_pubsub::store::Mutation;

#[test]
fn routes_are_recognised() {
    assert_eq!(parse_route(Some("$connect")), Ok(Route::Connect));
    assert_eq!(parse_route(Some("create")), Ok(Route::CreateRoom));
    assert_eq!(parse_route(Some("subscribe")), Ok(Route::Subscribe));
    assert_eq!(parse_route(Some("unsubscribe")), Ok(Route::Unsubscribe));
}

#[test]
fn unknown_routes_are_refused() {
    assert_eq!(parse_route(Some("$disconnect")), Err(MembershipError::UnrecognizedRoute));
    assert_eq!(parse_route(Some("")), Err(MembershipError::UnrecognizedRoute));
    assert_eq!(parse_route(None), Err(MembershipError::UnrecognizedRoute));
}

#[test]
fn connection_room_records_decode() {
    assert_eq!(connection_room_from_record(None), Err(MembershipError::NotFound));
    assert_eq!(
        connection_room_from_record(Some(RoomAttribute::Missing)),
        Err(MembershipError::NotAssociated)
    );
    assert_eq!(
        connection_room_from_record(Some(RoomAttribute::Text(String::new()))),
        Err(MembershipError::NotAssociated)
    );
    assert_eq!(
        connection_room_from_record(Some(RoomAttribute::Other)),
        Err(MembershipError::MalformedRecord)
    );
    assert_eq!(
        connection_room_from_record(Some(RoomAttribute::Text("r1".to_string()))),
        Ok("r1".to_string())
    );
}

#[test]
fn roster_records_decode() {
    assert_eq!(roster_from_record(None), Err(MembershipError::NotFound));
    assert_eq!(
        roster_from_record(Some(RosterAttribute::Missing)),
        Err(MembershipError::MalformedRecord)
    );
    assert_eq!(
        roster_from_record(Some(RosterAttribute::Other)),
        Err(MembershipError::MalformedRecord)
    );
    assert_eq!(
        roster_from_record(Some(RosterAttribute::Ids(vec!["A".to_string()]))),
        Ok(vec!["A".to_string()])
    );
}

#[test]
fn commit_outcomes_decide_next_step() {
    assert_eq!(after_commit(0, CommitOutcome::Committed), NextStep::Done);
    assert_eq!(
        after_commit(0, CommitOutcome::Unavailable),
        NextStep::Fail(MembershipError::StoreUnavailable)
    );
    assert_eq!(
        after_commit(0, CommitOutcome::ConditionFailed),
        NextStep::Retry { attempt: 1, delay_ms: 25 }
    );
    assert_eq!(
        after_commit(2, CommitOutcome::ConditionFailed),
        NextStep::Retry { attempt: 3, delay_ms: 3 * BACKOFF_STEP_MS }
    );
    assert_eq!(
        after_commit(MAX_ATTEMPTS - 1, CommitOutcome::ConditionFailed),
        NextStep::Fail(MembershipError::ConcurrencyConflict)
    );
    assert_eq!(
        after_commit(u32::MAX, CommitOutcome::ConditionFailed),
        NextStep::Fail(MembershipError::ConcurrencyConflict)
    );
}

#[test]
fn rejected_mutations_name_their_error() {
    let c = || "c".to_string();
    let r = || "r".to_string();
    assert_eq!(
        rejection_error(&Mutation::CreateRoom { room_id: r(), creator_id: c() }),
        MembershipError::Conflict
    );
    assert_eq!(
        rejection_error(&Mutation::AssignRoom { connection_id: c(), room_id: r() }),
        MembershipError::AlreadyAssociated
    );
    assert_eq!(
        rejection_error(&Mutation::AppendSubscriber { room_id: r(), connection_id: c() }),
        MembershipError::InconsistentState
    );
    assert_eq!(
        rejection_error(&Mutation::ClearRoom { connection_id: c(), room_id: r() }),
        MembershipError::ConcurrencyConflict
    );
    assert_eq!(
        rejection_error(&Mutation::RemoveSubscriberAt { room_id: r(), index: 0, expected: vec![c()] }),
        MembershipError::ConcurrencyConflict
    );
}
