//! The decisions of the unsubscribe protocol against a remote store: reading
//! the two records, and what to do after each attempt to commit.
use vstd::prelude::*;

use crate::membership::MembershipError;
use crate::store::{ids_view, Mutation};

verus! {

/// How many times an unsubscribe is attempted before a conflict is reported.
pub const MAX_ATTEMPTS: u32 = 5;

/// The pause before a retry grows by this many milliseconds per attempt.
pub const BACKOFF_STEP_MS: u64 = 25;

/// The room attribute of a stored connection, as read.
pub enum RoomAttribute {
    Missing,
    Text(String),
    Other,
}

/// The roster attribute of a stored room, as read.
pub enum RosterAttribute {
    Missing,
    Ids(Vec<String>),
    Other,
}

/// What came of one attempt to commit a transaction.
#[derive(Debug, PartialEq, Eq, Structural, Clone, Copy)]
pub enum CommitOutcome {
    Committed,
    /// A condition did not hold: another writer changed a record since it was read.
    ConditionFailed,
    Unavailable,
}

/// What to do after an attempt.
#[derive(Debug, PartialEq, Eq, Structural, Clone, Copy)]
pub enum NextStep {
    Done,
    /// Start again from reading the connection, after `delay_ms`.
    Retry { attempt: u32, delay_ms: u64 },
    Fail(MembershipError),
}

/// The room a connection record names: `NotFound` without a record,
/// `NotAssociated` when the room is missing or empty, `MalformedRecord` when
/// it is not a string.
pub fn connection_room_from_record(record: Option<RoomAttribute>) -> (r: Result<
    String,
    MembershipError,
>)
    ensures
        match record {
            None => r == Err::<String, MembershipError>(MembershipError::NotFound),
            Some(RoomAttribute::Missing) => r == Err::<String, MembershipError>(
                MembershipError::NotAssociated,
            ),
            Some(RoomAttribute::Text(s)) => if s@.len() == 0 {
                r == Err::<String, MembershipError>(MembershipError::NotAssociated)
            } else {
                r matches Ok(room) && room@ == s@
            },
            Some(RoomAttribute::Other) => r == Err::<String, MembershipError>(
                MembershipError::MalformedRecord,
            ),
        },
{
    match record {
        None => Err(MembershipError::NotFound),
        Some(RoomAttribute::Missing) => Err(MembershipError::NotAssociated),
        Some(RoomAttribute::Text(s)) => {
            if s.as_str().is_empty() {
                Err(MembershipError::NotAssociated)
            } else {
                Ok(s)
            }
        },
        Some(RoomAttribute::Other) => Err(MembershipError::MalformedRecord),
    }
}

/// The roster a room record holds: `NotFound` without a record,
/// `MalformedRecord` when the roster is missing or not a list of strings.
pub fn roster_from_record(record: Option<RosterAttribute>) -> (r: Result<
    Vec<String>,
    MembershipError,
>)
    ensures
        match record {
            None => r == Err::<Vec<String>, MembershipError>(MembershipError::NotFound),
            Some(RosterAttribute::Ids(v)) => r matches Ok(ids) && ids_view(ids@) == ids_view(v@),
            Some(_) => r == Err::<Vec<String>, MembershipError>(MembershipError::MalformedRecord),
        },
{
    match record {
        None => Err(MembershipError::NotFound),
        Some(RosterAttribute::Ids(v)) => Ok(v),
        Some(_) => Err(MembershipError::MalformedRecord),
    }
}

/// Decides what follows attempt number `attempt` (counted from 0): a commit
/// ends the operation, an unreachable store fails it, and a failed condition
/// is retried with a growing pause until `MAX_ATTEMPTS` attempts were made.
pub fn after_commit(attempt: u32, outcome: CommitOutcome) -> (r: NextStep)
    ensures
        outcome == CommitOutcome::Committed ==> r == NextStep::Done,
        outcome == CommitOutcome::Unavailable ==> r == NextStep::Fail(
            MembershipError::StoreUnavailable,
        ),
        outcome == CommitOutcome::ConditionFailed && attempt + 1 < MAX_ATTEMPTS ==> r
            == (NextStep::Retry {
            attempt: (attempt + 1) as u32,
            delay_ms: (BACKOFF_STEP_MS * (attempt + 1)) as u64,
        }),
        outcome == CommitOutcome::ConditionFailed && attempt + 1 >= MAX_ATTEMPTS ==> r
            == NextStep::Fail(MembershipError::ConcurrencyConflict),
{
    match outcome {
        CommitOutcome::Committed => NextStep::Done,
        CommitOutcome::Unavailable => NextStep::Fail(MembershipError::StoreUnavailable),
        CommitOutcome::ConditionFailed => {
            if attempt >= MAX_ATTEMPTS - 1 {
                NextStep::Fail(MembershipError::ConcurrencyConflict)
            } else {
                let next = attempt + 1;
                NextStep::Retry { attempt: next, delay_ms: BACKOFF_STEP_MS * (next as u64) }
            }
        },
    }
}

/// The error that a rejected mutation of a create or subscribe transaction
/// stands for, where the room was read to exist beforehand: a taken room id
/// is `Conflict`, a connection that already has a room is
/// `AlreadyAssociated`, a roster that already lists the connection is
/// `InconsistentState`. A rejected removal or clearing means that another
/// writer got in first, `ConcurrencyConflict`.
pub fn rejection_error(m: &Mutation) -> (r: MembershipError)
    ensures
        r == match m {
            Mutation::CreateRoom { .. } => MembershipError::Conflict,
            Mutation::AssignRoom { .. } => MembershipError::AlreadyAssociated,
            Mutation::AppendSubscriber { .. } => MembershipError::InconsistentState,
            Mutation::RegisterConnection { .. } => MembershipError::StoreUnavailable,
            _ => MembershipError::ConcurrencyConflict,
        },
{
    match m {
        Mutation::CreateRoom { .. } => MembershipError::Conflict,
        Mutation::AssignRoom { .. } => MembershipError::AlreadyAssociated,
        Mutation::AppendSubscriber { .. } => MembershipError::InconsistentState,
        Mutation::RegisterConnection { .. } => MembershipError::StoreUnavailable,
        _ => MembershipError::ConcurrencyConflict,
    }
}

} // verus!
