//! The four membership transitions, each written as one store transaction
//! that changes the connection record and the room record together.
use vstd::prelude::*;

use crate::memory::MemoryStore;
use crate::store::{
    commit, condition, connection_free, effect, effect_all, ids_view, tx_view,
    with_connection, with_room, with_roster, Mutation, MutationView, RoomState, StoreState,
};

verus! {

/// Why a membership operation failed.
#[derive(Debug, PartialEq, Eq, Structural, Clone, Copy)]
pub enum MembershipError {
    /// The connection or room that the operation names is not stored.
    NotFound,
    /// The request's payload is missing or does not name a room.
    BadRequest,
    /// The connection has no room to leave.
    NotAssociated,
    /// The connection already belongs to a room, so it can neither create nor join one.
    AlreadyAssociated,
    /// A room with the chosen id already exists.
    Conflict,
    /// The two records already disagree: the connection names a room whose
    /// roster does not list it, or a roster lists a connection with no room.
    InconsistentState,
    /// A concurrent writer kept changing the room for every allowed attempt.
    ConcurrencyConflict,
    /// The store could not be reached.
    StoreUnavailable,
    /// A stored attribute does not have the expected shape.
    MalformedRecord,
    /// The inbound route key names no operation.
    UnrecognizedRoute,
}

/// `i` is the first position of `x` in `s`.
pub open spec fn is_first_index(s: Seq<Seq<char>>, x: Seq<char>, i: int) -> bool {
    0 <= i < s.len() && s[i] == x && forall|j: int| 0 <= j < i ==> s[j] != x
}

/// The first position of `x` in `s` (meaningful when `s` contains `x`).
pub open spec fn first_index(s: Seq<Seq<char>>, x: Seq<char>) -> int {
    choose|i: int| is_first_index(s, x, i)
}

pub proof fn lemma_first_index(s: Seq<Seq<char>>, x: Seq<char>, i: int)
    requires
        is_first_index(s, x, i),
    ensures
        first_index(s, x) == i,
{
    let k = first_index(s, x);
    assert(is_first_index(s, x, k));
    if k < i {
        assert(s[k] != x);
    } else if i < k {
        assert(s[i] != x);
    }
}

pub proof fn lemma_first_index_exists(s: Seq<Seq<char>>, x: Seq<char>)
    requires
        s.contains(x),
    ensures
        is_first_index(s, x, first_index(s, x)),
    decreases s.len(),
{
    if s[0] == x {
        assert(is_first_index(s, x, 0));
    } else {
        let t = s.subrange(1, s.len() as int);
        let k = choose|k: int| 0 <= k < s.len() && s[k] == x;
        assert(t[k - 1] == x);
        lemma_first_index_exists(t, x);
        let j = first_index(t, x);
        assert forall|m: int| 0 <= m < j + 1 implies s[m] != x by {
            if m > 0 {
                assert(s[m] == t[m - 1]);
            }
        }
        assert(is_first_index(s, x, j + 1));
    }
}

/// The store after `c` connects: its record exists with no room.
pub open spec fn after_connect(s: StoreState, c: Seq<char>) -> StoreState {
    with_connection(s, c, None)
}

/// The store after `c` creates room `r`: the room lists only `c`, created by
/// `c`, and `c` is associated with `r`.
pub open spec fn after_create(s: StoreState, c: Seq<char>, r: Seq<char>) -> StoreState {
    with_connection(
        with_room(s, r, RoomState { created_by: c, subscribers: seq![c] }),
        c,
        Some(r),
    )
}

/// The store after `c` joins room `r`: `c` is appended to the roster and
/// associated with `r`.
pub open spec fn after_subscribe(s: StoreState, c: Seq<char>, r: Seq<char>) -> StoreState {
    with_connection(with_roster(s, r, s.rooms[r].subscribers.push(c)), c, Some(r))
}

/// The store after `c` leaves room `r`: the roster entry at `c`'s position is
/// removed and `c`'s room is cleared. The room itself stays, with its
/// creator unchanged, even when its creator leaves or its roster empties.
pub open spec fn after_unsubscribe(s: StoreState, c: Seq<char>, r: Seq<char>) -> StoreState {
    with_connection(
        with_roster(
            s,
            r,
            s.rooms[r].subscribers.remove(first_index(s.rooms[r].subscribers, c)),
        ),
        c,
        None,
    )
}

pub open spec fn opt_str_view(o: Option<&str>) -> Option<Seq<char>> {
    match o {
        Some(s) => Some(s@),
        None => None,
    }
}

/// What creating room `r` for `c` does to `s`: the new state, or the error.
pub open spec fn create_result(s: StoreState, c: Seq<char>, r: Seq<char>) -> Result<
    StoreState,
    MembershipError,
> {
    if !connection_free(s, c) {
        Err(MembershipError::AlreadyAssociated)
    } else if s.rooms.contains_key(r) {
        Err(MembershipError::Conflict)
    } else {
        Ok(after_create(s, c, r))
    }
}

/// What subscribing `c` to the room named in the payload does to `s`.
pub open spec fn subscribe_result(s: StoreState, c: Seq<char>, room: Option<Seq<char>>) -> Result<
    StoreState,
    MembershipError,
> {
    match room {
        None => Err(MembershipError::BadRequest),
        Some(r) => if !s.rooms.contains_key(r) {
            Err(MembershipError::NotFound)
        } else if !connection_free(s, c) {
            Err(MembershipError::AlreadyAssociated)
        } else if s.rooms[r].subscribers.contains(c) {
            Err(MembershipError::InconsistentState)
        } else {
            Ok(after_subscribe(s, c, r))
        },
    }
}

/// What unsubscribing `c` does to `s`.
pub open spec fn unsubscribe_result(s: StoreState, c: Seq<char>) -> Result<
    StoreState,
    MembershipError,
> {
    if !s.connections.contains_key(c) {
        Err(MembershipError::NotFound)
    } else {
        match s.connections[c] {
            None => Err(MembershipError::NotAssociated),
            Some(r) => if !s.rooms.contains_key(r) {
                Err(MembershipError::NotFound)
            } else if !s.rooms[r].subscribers.contains(c) {
                Err(MembershipError::InconsistentState)
            } else {
                Ok(after_unsubscribe(s, c, r))
            },
        }
    }
}

pub proof fn lemma_commit_one(s: StoreState, m: MutationView)
    ensures
        commit(s, seq![m]) == if condition(s, m) {
            Some(effect(s, m))
        } else {
            None::<StoreState>
        },
{
    let tx = seq![m];
    assert(tx.drop_last() =~= Seq::<MutationView>::empty());
    assert(tx[0] == m);
    assert(effect_all(s, tx.drop_last()) == s);
    assert(effect_all(s, tx) == effect(s, m));
    if condition(s, m) {
        assert forall|i: int| 0 <= i < tx.len() implies condition(s, #[trigger] tx[i]) by {}
    } else {
        assert(!condition(s, tx[0]));
    }
}

pub proof fn lemma_commit_two(s: StoreState, m1: MutationView, m2: MutationView)
    ensures
        commit(s, seq![m1, m2]) == if condition(s, m1) && condition(s, m2) {
            Some(effect(effect(s, m1), m2))
        } else {
            None::<StoreState>
        },
{
    let tx = seq![m1, m2];
    assert(tx.drop_last() =~= seq![m1]);
    assert(seq![m1].drop_last() =~= Seq::<MutationView>::empty());
    assert(tx[0] == m1 && tx[1] == m2);
    assert(effect_all(s, seq![m1].drop_last()) == s);
    assert(effect_all(s, seq![m1]) == effect(s, m1));
    assert(effect_all(s, tx) == effect(effect(s, m1), m2));
    if condition(s, m1) && condition(s, m2) {
        assert forall|i: int| 0 <= i < tx.len() implies condition(s, #[trigger] tx[i]) by {}
    } else if !condition(s, m1) {
        assert(!condition(s, tx[0]));
    } else {
        assert(!condition(s, tx[1]));
    }
}

/// The transaction that registers `connection_id` with no room.
pub fn connect_transaction(connection_id: &str) -> (tx: Vec<Mutation>)
    ensures
        tx_view(tx@) == seq![MutationView::RegisterConnection { connection_id: connection_id@ }],
{
    let tx = vec![Mutation::RegisterConnection { connection_id: connection_id.to_owned() }];
    assert(tx_view(tx@) =~= seq![
        MutationView::RegisterConnection { connection_id: connection_id@ },
    ]);
    tx
}

/// The transaction that associates `connection_id` with room `room_id` and
/// creates that room for it. The connection's side comes first, so that a
/// connection that already has a room is reported as such before a taken
/// room id.
pub fn create_transaction(connection_id: &str, room_id: &str) -> (tx: Vec<Mutation>)
    ensures
        tx_view(tx@) == seq![
            MutationView::AssignRoom { connection_id: connection_id@, room_id: room_id@ },
            MutationView::CreateRoom { room_id: room_id@, creator_id: connection_id@ },
        ],
{
    let tx = vec![
        Mutation::AssignRoom { connection_id: connection_id.to_owned(), room_id: room_id.to_owned() },
        Mutation::CreateRoom { room_id: room_id.to_owned(), creator_id: connection_id.to_owned() },
    ];
    assert(tx_view(tx@) =~= seq![
        MutationView::AssignRoom { connection_id: connection_id@, room_id: room_id@ },
        MutationView::CreateRoom { room_id: room_id@, creator_id: connection_id@ },
    ]);
    tx
}

/// The transaction that associates `connection_id` with room `room_id` and
/// appends it to that room's roster. The connection's side comes first, so
/// that a connection that already has a room is reported as such before a
/// roster that already lists it.
pub fn subscribe_transaction(connection_id: &str, room_id: &str) -> (tx: Vec<Mutation>)
    ensures
        tx_view(tx@) == seq![
            MutationView::AssignRoom { connection_id: connection_id@, room_id: room_id@ },
            MutationView::AppendSubscriber { room_id: room_id@, connection_id: connection_id@ },
        ],
{
    let tx = vec![
        Mutation::AssignRoom { connection_id: connection_id.to_owned(), room_id: room_id.to_owned() },
        Mutation::AppendSubscriber {
            room_id: room_id.to_owned(),
            connection_id: connection_id.to_owned(),
        },
    ];
    assert(tx_view(tx@) =~= seq![
        MutationView::AssignRoom { connection_id: connection_id@, room_id: room_id@ },
        MutationView::AppendSubscriber { room_id: room_id@, connection_id: connection_id@ },
    ]);
    tx
}

/// The unsubscribe transaction of `c` from room `r`, built from the roster
/// `q` as it was read: remove `c`'s position in `q` provided the roster is
/// still `q`, and clear `c`'s room provided it is still `r`.
pub open spec fn unsubscribe_mutations(c: Seq<char>, r: Seq<char>, q: Seq<Seq<char>>) -> Seq<
    MutationView,
> {
    seq![
        MutationView::RemoveSubscriberAt { room_id: r, index: first_index(q, c) as nat, expected: q },
        MutationView::ClearRoom { connection_id: c, room_id: r },
    ]
}

/// The first position of `connection_id` in `subscribers`, if it is there.
pub fn locate_subscriber(subscribers: &Vec<String>, connection_id: &str) -> (r: Option<usize>)
    ensures
        match r {
            Some(i) => is_first_index(ids_view(subscribers@), connection_id@, i as int),
            None => !ids_view(subscribers@).contains(connection_id@),
        },
{
    let c = connection_id.to_owned();
    let mut i: usize = 0;
    while i < subscribers.len()
        invariant
            c@ == connection_id@,
            i <= subscribers@.len(),
            forall|j: int| 0 <= j < i ==> subscribers@[j]@ != c@,
        decreases subscribers@.len() - i,
    {
        if subscribers[i] == c {
            assert forall|j: int| 0 <= j < i implies ids_view(subscribers@)[j] != c@ by {
                assert(ids_view(subscribers@)[j] == subscribers@[j]@);
            }
            return Some(i);
        }
        i += 1;
    }
    assert forall|j: int| 0 <= j < ids_view(subscribers@).len() implies ids_view(
        subscribers@,
    )[j] != c@ by {
        assert(ids_view(subscribers@)[j] == subscribers@[j]@);
    }
    None
}

/// The transaction that removes `connection_id` from the roster it was read
/// in and clears its room. The removal is guarded by the roster as read, so
/// the position still denotes `connection_id` when the transaction commits.
/// Fails with `InconsistentState` when the roster does not list the connection.
pub fn unsubscribe_transaction(
    connection_id: &str,
    room_id: &str,
    subscribers: &Vec<String>,
) -> (r: Result<Vec<Mutation>, MembershipError>)
    ensures
        !ids_view(subscribers@).contains(connection_id@) ==> r == Err::<Vec<Mutation>, MembershipError>(
            MembershipError::InconsistentState,
        ),
        ids_view(subscribers@).contains(connection_id@) ==> (r matches Ok(tx) && tx_view(tx@)
            == unsubscribe_mutations(connection_id@, room_id@, ids_view(subscribers@))),
{
    match locate_subscriber(subscribers, connection_id) {
        None => Err(MembershipError::InconsistentState),
        Some(index) => {
            proof {
                lemma_first_index(ids_view(subscribers@), connection_id@, index as int);
            }
            let mut expected: Vec<String> = Vec::new();
            let mut k: usize = 0;
            while k < subscribers.len()
                invariant
                    k <= subscribers@.len(),
                    expected@ == subscribers@.subrange(0, k as int),
                decreases subscribers@.len() - k,
            {
                expected.push(subscribers[k].clone());
                k += 1;
                assert(expected@ =~= subscribers@.subrange(0, k as int));
            }
            assert(expected@ =~= subscribers@);
            let tx = vec![
                Mutation::RemoveSubscriberAt { room_id: room_id.to_owned(), index, expected },
                Mutation::ClearRoom {
                    connection_id: connection_id.to_owned(),
                    room_id: room_id.to_owned(),
                },
            ];
            assert(tx_view(tx@) =~= unsubscribe_mutations(
                connection_id@,
                room_id@,
                ids_view(subscribers@),
            ));
            Ok(tx)
        },
    }
}

/// Registers `connection_id` with no room, overwriting any earlier record of it.
pub fn connect(store: &mut MemoryStore, connection_id: &str) -> (r: Result<(), MembershipError>)
    requires
        old(store).wf(),
    ensures
        final(store).wf(),
        r is Ok,
        final(store)@ == after_connect(old(store)@, connection_id@),
{
    let tx = connect_transaction(connection_id);
    proof {
        lemma_commit_one(store@, tx_view(tx@)[0]);
    }
    match store.transact(&tx) {
        Ok(()) => Ok(()),
        Err(_) => Err(MembershipError::StoreUnavailable),
    }
}

/// Creates room `room_id` with `connection_id` as its creator and only
/// subscriber, and associates the connection with it, in one transaction.
pub fn create_room_with_id(store: &mut MemoryStore, connection_id: &str, room_id: &str) -> (r:
    Result<(), MembershipError>)
    requires
        old(store).wf(),
    ensures
        final(store).wf(),
        match create_result(old(store)@, connection_id@, room_id@) {
            Ok(n) => r is Ok && final(store)@ == n,
            Err(e) => r == Err::<(), MembershipError>(e) && final(store)@ == old(store)@,
        },
{
    match store.connection_room(connection_id) {
        Some(Some(_)) => {
            return Err(MembershipError::AlreadyAssociated);
        },
        _ => {},
    }
    let tx = create_transaction(connection_id, room_id);
    proof {
        lemma_commit_two(store@, tx_view(tx@)[0], tx_view(tx@)[1]);
    }
    match store.transact(&tx) {
        Ok(()) => Ok(()),
        Err(_) => Err(MembershipError::Conflict),
    }
}

/// Creates a room under a freshly generated id for `connection_id`, as
/// `create_room_with_id` does, and returns the id.
pub fn create_room(store: &mut MemoryStore, connection_id: &str) -> (r: Result<
    String,
    MembershipError,
>)
    requires
        old(store).wf(),
    ensures
        final(store).wf(),
        !connection_free(old(store)@, connection_id@) ==> r == Err::<String, MembershipError>(
            MembershipError::AlreadyAssociated,
        ) && final(store)@ == old(store)@,
        connection_free(old(store)@, connection_id@) ==> match r {
            Ok(id) => !old(store)@.rooms.contains_key(id@) && final(store)@ == after_create(
                old(store)@,
                connection_id@,
                id@,
            ),
            Err(e) => e == MembershipError::Conflict && final(store)@ == old(store)@,
        },
        connection_free(old(store)@, connection_id@) && (forall|k: Seq<char>| #[trigger]
            old(store)@.rooms.contains_key(k) ==> k.len() != 36) ==> r is Ok,
{
    let room_id = new_room_id();
    match create_room_with_id(store, connection_id, room_id.as_str()) {
        Ok(()) => Ok(room_id),
        Err(e) => Err(e),
    }
}

/// A freshly generated room id for `connection_id`'s new room, with the
/// transaction that creates the room and associates the connection with it.
pub fn plan_create(connection_id: &str) -> (r: (String, Vec<Mutation>))
    ensures
        r.0@.len() == 36,
        tx_view(r.1@) == seq![
            MutationView::AssignRoom { connection_id: connection_id@, room_id: r.0@ },
            MutationView::CreateRoom { room_id: r.0@, creator_id: connection_id@ },
        ],
{
    let room_id = new_room_id();
    let tx = create_transaction(connection_id, room_id.as_str());
    (room_id, tx)
}

/// Joins `connection_id` to the room named by `room_id`: appends it to the
/// roster and associates it with the room, in one transaction.
///
/// A connection that already belongs to a room (this one or another) is
/// refused: joining again would list it twice, and joining a second room
/// would leave it on the first roster.
pub fn subscribe(store: &mut MemoryStore, connection_id: &str, room_id: Option<&str>) -> (r:
    Result<(), MembershipError>)
    requires
        old(store).wf(),
    ensures
        final(store).wf(),
        match subscribe_result(old(store)@, connection_id@, opt_str_view(room_id)) {
            Ok(n) => r is Ok && final(store)@ == n,
            Err(e) => r == Err::<(), MembershipError>(e) && final(store)@ == old(store)@,
        },
{
    let room = match room_id {
        None => {
            return Err(MembershipError::BadRequest);
        },
        Some(room) => room,
    };
    if store.room_subscribers(room).is_none() {
        return Err(MembershipError::NotFound);
    }
    match store.connection_room(connection_id) {
        Some(Some(_)) => {
            return Err(MembershipError::AlreadyAssociated);
        },
        _ => {},
    }
    let tx = subscribe_transaction(connection_id, room);
    proof {
        lemma_commit_two(store@, tx_view(tx@)[0], tx_view(tx@)[1]);
    }
    match store.transact(&tx) {
        Ok(()) => Ok(()),
        Err(_) => Err(MembershipError::InconsistentState),
    }
}

/// Removes `connection_id` from the room it belongs to: reads its room, reads
/// that room's roster, locates the connection in it, and commits the removal
/// and the clearing of the connection's room in one transaction guarded by
/// the roster as read.
pub fn unsubscribe(store: &mut MemoryStore, connection_id: &str) -> (r: Result<
    (),
    MembershipError,
>)
    requires
        old(store).wf(),
    ensures
        final(store).wf(),
        match unsubscribe_result(old(store)@, connection_id@) {
            Ok(n) => r is Ok && final(store)@ == n,
            Err(e) => r == Err::<(), MembershipError>(e) && final(store)@ == old(store)@,
        },
{
    let room = match store.connection_room(connection_id) {
        None => {
            return Err(MembershipError::NotFound);
        },
        Some(None) => {
            return Err(MembershipError::NotAssociated);
        },
        Some(Some(room)) => room,
    };
    let subscribers = match store.room_subscribers(room.as_str()) {
        None => {
            return Err(MembershipError::NotFound);
        },
        Some(v) => v,
    };
    let tx = match unsubscribe_transaction(connection_id, room.as_str(), &subscribers) {
        Err(e) => {
            return Err(e);
        },
        Ok(tx) => tx,
    };
    proof {
        let s = store@;
        let subs = s.rooms[room@].subscribers;
        lemma_first_index_exists(subs, connection_id@);
        lemma_commit_two(s, tx_view(tx@)[0], tx_view(tx@)[1]);
    }
    match store.transact(&tx) {
        Ok(()) => Ok(()),
        Err(_) => Err(MembershipError::ConcurrencyConflict),
    }
}

/// Relies on `uuid::Uuid::new_v4`: a random identifier, written in its
/// hyphenated form of 36 characters.
#[verifier::external_body]
fn new_room_id() -> (r: String)
    ensures
        r@.len() == 36,
{
    uuid::Uuid::new_v4().to_string()
}

} // verus!
