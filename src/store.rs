//! A transactional key-value store holding connection and room records.
//!
//! A transaction is a list of mutations. Every mutation carries a condition
//! that is evaluated against the state before the transaction; if all hold,
//! the effects are applied in order, otherwise nothing is applied.
use vstd::prelude::*;


verus! {

/// A stored connection: its id and the room it is associated with, if any.
pub struct Connection {
    pub id: String,
    pub room: Option<String>,
}

/// A stored room: its id, the connection that created it, and its roster.
pub struct Room {
    pub id: String,
    pub created_by: String,
    pub subscribers: Vec<String>,
}

/// The abstract contents of a room record.
pub struct RoomState {
    pub created_by: Seq<char>,
    pub subscribers: Seq<Seq<char>>,
}

/// The abstract contents of the whole store: each connection id maps to its
/// room (or `None`), each room id to its record.
pub struct StoreState {
    pub connections: Map<Seq<char>, Option<Seq<char>>>,
    pub rooms: Map<Seq<char>, RoomState>,
}

/// Why a transaction was not applied.
#[derive(Debug, PartialEq, Eq, Structural, Clone, Copy)]
pub enum StoreError {
    /// A condition of the transaction did not hold; nothing was applied.
    Aborted,
}

/// One write of a transaction.
pub enum Mutation {
    /// Create or overwrite the connection with no room. Unconditional.
    RegisterConnection { connection_id: String },
    /// Set the connection's room, provided it has none (a missing record counts as none).
    AssignRoom { connection_id: String, room_id: String },
    /// Clear the connection's room, provided it is currently `room_id`.
    ClearRoom { connection_id: String, room_id: String },
    /// Create a room whose roster is its creator, provided no room has that id.
    CreateRoom { room_id: String, creator_id: String },
    /// Append to a room's roster, provided the room exists and does not list the connection.
    AppendSubscriber { room_id: String, connection_id: String },
    /// Remove the roster entry at `index`, provided the roster still equals `expected`.
    RemoveSubscriberAt { room_id: String, index: usize, expected: Vec<String> },
}

/// A mutation with its ids read as character sequences.
pub enum MutationView {
    RegisterConnection { connection_id: Seq<char> },
    AssignRoom { connection_id: Seq<char>, room_id: Seq<char> },
    ClearRoom { connection_id: Seq<char>, room_id: Seq<char> },
    CreateRoom { room_id: Seq<char>, creator_id: Seq<char> },
    AppendSubscriber { room_id: Seq<char>, connection_id: Seq<char> },
    RemoveSubscriberAt { room_id: Seq<char>, index: nat, expected: Seq<Seq<char>> },
}

impl View for Mutation {
    type V = MutationView;

    open spec fn view(&self) -> MutationView {
        match self {
            Mutation::RegisterConnection { connection_id } => MutationView::RegisterConnection {
                connection_id: connection_id@,
            },
            Mutation::AssignRoom { connection_id, room_id } => MutationView::AssignRoom {
                connection_id: connection_id@,
                room_id: room_id@,
            },
            Mutation::ClearRoom { connection_id, room_id } => MutationView::ClearRoom {
                connection_id: connection_id@,
                room_id: room_id@,
            },
            Mutation::CreateRoom { room_id, creator_id } => MutationView::CreateRoom {
                room_id: room_id@,
                creator_id: creator_id@,
            },
            Mutation::AppendSubscriber { room_id, connection_id } => MutationView::AppendSubscriber {
                room_id: room_id@,
                connection_id: connection_id@,
            },
            Mutation::RemoveSubscriberAt { room_id, index, expected } => MutationView::RemoveSubscriberAt {
                room_id: room_id@,
                index: *index as nat,
                expected: ids_view(expected@),
            },
        }
    }
}

pub open spec fn tx_view(tx: Seq<Mutation>) -> Seq<MutationView> {
    tx.map_values(|m: Mutation| m@)
}

pub open spec fn opt_view(o: Option<String>) -> Option<Seq<char>> {
    match o {
        Some(s) => Some(s@),
        None => None,
    }
}

pub open spec fn ids_view(v: Seq<String>) -> Seq<Seq<char>> {
    v.map_values(|x: String| x@)
}

/// The connection has no room: either it is not stored, or its room is unset.
pub open spec fn connection_free(s: StoreState, c: Seq<char>) -> bool {
    !s.connections.contains_key(c) || s.connections[c] is None
}

/// No roster in the store lists a connection twice.
pub open spec fn rosters_distinct(s: StoreState) -> bool {
    forall|r: Seq<char>| #[trigger]
        s.rooms.contains_key(r) ==> s.rooms[r].subscribers.no_duplicates()
}

pub open spec fn with_connection(s: StoreState, c: Seq<char>, room: Option<Seq<char>>) -> StoreState {
    StoreState { connections: s.connections.insert(c, room), ..s }
}

pub open spec fn with_room(s: StoreState, r: Seq<char>, st: RoomState) -> StoreState {
    StoreState { rooms: s.rooms.insert(r, st), ..s }
}

pub open spec fn with_roster(s: StoreState, r: Seq<char>, roster: Seq<Seq<char>>) -> StoreState {
    with_room(s, r, RoomState { subscribers: roster, ..s.rooms[r] })
}

/// The condition under which a mutation may be applied to `s`.
pub open spec fn condition(s: StoreState, m: MutationView) -> bool {
    match m {
        MutationView::RegisterConnection { .. } => true,
        MutationView::AssignRoom { connection_id, .. } => connection_free(s, connection_id),
        MutationView::ClearRoom { connection_id, room_id } => s.connections.contains_key(
            connection_id,
        ) && s.connections[connection_id] == Some(room_id),
        MutationView::CreateRoom { room_id, .. } => !s.rooms.contains_key(room_id),
        MutationView::AppendSubscriber { room_id, connection_id } => s.rooms.contains_key(room_id)
            && !s.rooms[room_id].subscribers.contains(connection_id),
        MutationView::RemoveSubscriberAt { room_id, index, expected } => s.rooms.contains_key(room_id)
            && s.rooms[room_id].subscribers == expected && index < expected.len(),
    }
}

/// What a mutation does to `s`. It is total: where its target is missing or
/// the write would break a roster, it leaves `s` as it is.
pub open spec fn effect(s: StoreState, m: MutationView) -> StoreState {
    match m {
        MutationView::RegisterConnection { connection_id } => with_connection(s, connection_id, None),
        MutationView::AssignRoom { connection_id, room_id } => with_connection(
            s,
            connection_id,
            Some(room_id),
        ),
        MutationView::ClearRoom { connection_id, .. } => with_connection(s, connection_id, None),
        MutationView::CreateRoom { room_id, creator_id } => with_room(
            s,
            room_id,
            RoomState { created_by: creator_id, subscribers: seq![creator_id] },
        ),
        MutationView::AppendSubscriber { room_id, connection_id } => {
            if s.rooms.contains_key(room_id) && !s.rooms[room_id].subscribers.contains(
                connection_id,
            ) {
                with_roster(s, room_id, s.rooms[room_id].subscribers.push(connection_id))
            } else {
                s
            }
        },
        MutationView::RemoveSubscriberAt { room_id, index, .. } => {
            if s.rooms.contains_key(room_id) && index < s.rooms[room_id].subscribers.len() {
                with_roster(s, room_id, s.rooms[room_id].subscribers.remove(index as int))
            } else {
                s
            }
        },
    }
}

pub open spec fn effect_all(s: StoreState, tx: Seq<MutationView>) -> StoreState
    decreases tx.len(),
{
    if tx.len() == 0 {
        s
    } else {
        effect(effect_all(s, tx.drop_last()), tx.last())
    }
}

/// The state after committing `tx` on `s`, or `None` when a condition fails.
pub open spec fn commit(s: StoreState, tx: Seq<MutationView>) -> Option<StoreState> {
    if forall|i: int| 0 <= i < tx.len() ==> condition(s, #[trigger] tx[i]) {
        Some(effect_all(s, tx))
    } else {
        None
    }
}

pub proof fn lemma_remove_keeps_distinct(s: Seq<Seq<char>>, i: int)
    requires
        s.no_duplicates(),
        0 <= i < s.len(),
    ensures
        s.remove(i).no_duplicates(),
        !s.remove(i).contains(s[i]),
{
    let t = s.remove(i);
    assert forall|a: int, b: int| 0 <= a < t.len() && 0 <= b < t.len() && a != b implies t[a]
        != t[b] by {
        let a2 = if a < i { a } else { a + 1 };
        let b2 = if b < i { b } else { b + 1 };
        assert(t[a] == s[a2] && t[b] == s[b2]);
    }
    assert forall|a: int| 0 <= a < t.len() implies t[a] != s[i] by {
        let a2 = if a < i { a } else { a + 1 };
        assert(t[a] == s[a2]);
    }
}

/// Every mutation keeps every roster free of duplicates.
pub proof fn lemma_effect_keeps_rosters_distinct(s: StoreState, m: MutationView)
    requires
        rosters_distinct(s),
    ensures
        rosters_distinct(effect(s, m)),
{
    let n = effect(s, m);
    match m {
        MutationView::CreateRoom { room_id, creator_id } => {
            assert(seq![creator_id].no_duplicates());
        },
        MutationView::AppendSubscriber { room_id, connection_id } => {
            if s.rooms.contains_key(room_id) && !s.rooms[room_id].subscribers.contains(
                connection_id,
            ) {
                let old_r = s.rooms[room_id].subscribers;
                let new_r = old_r.push(connection_id);
                assert(old_r.no_duplicates());
                assert forall|a: int, b: int|
                    0 <= a < new_r.len() && 0 <= b < new_r.len() && a != b implies new_r[a]
                    != new_r[b] by {
                    if a < old_r.len() && b < old_r.len() {
                    } else if a < old_r.len() {
                        assert(old_r.contains(old_r[a]));
                    } else {
                        assert(old_r.contains(old_r[b]));
                    }
                }
                assert(n.rooms[room_id].subscribers == new_r);
            }
        },
        MutationView::RemoveSubscriberAt { room_id, index, .. } => {
            if s.rooms.contains_key(room_id) && index < s.rooms[room_id].subscribers.len() {
                lemma_remove_keeps_distinct(s.rooms[room_id].subscribers, index as int);
            }
        },
        _ => {},
    }
}

/// A committed transaction, whatever its mutations, keeps every roster free of
/// duplicates.
pub proof fn lemma_commit_keeps_rosters_distinct(s: StoreState, tx: Seq<MutationView>)
    requires
        rosters_distinct(s),
    ensures
        rosters_distinct(effect_all(s, tx)),
        commit(s, tx) matches Some(n) ==> rosters_distinct(n),
    decreases tx.len(),
{
    if tx.len() > 0 {
        lemma_commit_keeps_rosters_distinct(s, tx.drop_last());
        lemma_effect_keeps_rosters_distinct(effect_all(s, tx.drop_last()), tx.last());
    }
}

} // verus!
