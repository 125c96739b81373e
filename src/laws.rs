//! Properties of the membership transitions that relate several calls.
use vstd::prelude::*;

use crate::membership::{
    after_connect, create_result, first_index, is_first_index, lemma_commit_two,
    lemma_first_index, lemma_first_index_exists, subscribe_result, unsubscribe_mutations,
    unsubscribe_result, MembershipError,
};
use crate::store::{
    commit, lemma_remove_keeps_distinct, rosters_distinct, StoreState,
};

verus! {

/// One inbound request, with its ids.
pub enum Operation {
    Connect(Seq<char>),
    CreateRoom(Seq<char>, Seq<char>),
    Subscribe(Seq<char>, Option<Seq<char>>),
    Unsubscribe(Seq<char>),
}

/// What one request does to the store: the new state, or the error.
pub open spec fn operation_result(s: StoreState, op: Operation) -> Result<
    StoreState,
    MembershipError,
> {
    match op {
        Operation::Connect(c) => Ok(after_connect(s, c)),
        Operation::CreateRoom(c, r) => create_result(s, c, r),
        Operation::Subscribe(c, r) => subscribe_result(s, c, r),
        Operation::Unsubscribe(c) => unsubscribe_result(s, c),
    }
}

/// The store after a sequence of requests; a failed request changes nothing.
pub open spec fn run(s: StoreState, ops: Seq<Operation>) -> StoreState
    decreases ops.len(),
{
    if ops.len() == 0 {
        s
    } else {
        let p = run(s, ops.drop_last());
        match operation_result(p, ops.last()) {
            Ok(n) => n,
            Err(_) => p,
        }
    }
}

/// `x` stands in `s` at exactly one position.
pub open spec fn occurs_once(s: Seq<Seq<char>>, x: Seq<char>) -> bool {
    exists|i: int| 0 <= i < s.len() && s[i] == x && forall|j: int| 0 <= j < s.len() && j != i ==> s[j] != x
}

pub proof fn lemma_remove_contains(q: Seq<Seq<char>>, i: int, x: Seq<char>)
    requires
        q.no_duplicates(),
        0 <= i < q.len(),
    ensures
        q.remove(i).contains(x) <==> (q.contains(x) && x != q[i]),
{
    let t = q.remove(i);
    lemma_remove_keeps_distinct(q, i);
    if t.contains(x) {
        let a = choose|a: int| 0 <= a < t.len() && t[a] == x;
        let a2 = if a < i { a } else { a + 1 };
        assert(q[a2] == x);
    }
    if q.contains(x) && x != q[i] {
        let b = choose|b: int| 0 <= b < q.len() && q[b] == x;
        if b < i {
            assert(t[b] == x);
        } else {
            assert(t[b - 1] == x);
        }
    }
}

/// A successful subscribe of `c` to `r` leaves `c` associated with `r` and
/// listed exactly once on `r`'s roster.
pub proof fn lemma_subscribe_joins(s: StoreState, c: Seq<char>, r: Seq<char>)
    requires
        rosters_distinct(s),
        subscribe_result(s, c, Some(r)) is Ok,
    ensures
        subscribe_result(s, c, Some(r)) matches Ok(n) && n.connections[c] == Some(r)
            && n.rooms.contains_key(r) && occurs_once(n.rooms[r].subscribers, c),
{
    let q = s.rooms[r].subscribers;
    let n = subscribe_result(s, c, Some(r))->Ok_0;
    let t = n.rooms[r].subscribers;
    assert(t == q.push(c));
    let i = q.len() as int;
    assert forall|j: int| 0 <= j < t.len() && j != i implies t[j] != c by {
        assert(t[j] == q[j]);
    }
    assert(t[i] == c);
}

/// Subscribing `c` to `r` and then unsubscribing `c` succeeds, leaves `c`
/// with no room and leaves `r`'s roster without `c`.
pub proof fn lemma_subscribe_then_unsubscribe(s: StoreState, c: Seq<char>, r: Seq<char>)
    requires
        rosters_distinct(s),
        subscribe_result(s, c, Some(r)) is Ok,
    ensures
        subscribe_result(s, c, Some(r)) matches Ok(n1) && unsubscribe_result(n1, c) matches Ok(n2)
            && n2.connections.contains_key(c) && n2.connections[c] is None && n2.rooms.contains_key(
            r,
        ) && !n2.rooms[r].subscribers.contains(c),
{
    let q = s.rooms[r].subscribers;
    let n1 = subscribe_result(s, c, Some(r))->Ok_0;
    let t = n1.rooms[r].subscribers;
    assert(t == q.push(c));
    let i = q.len() as int;
    assert(t[i] == c);
    assert forall|j: int| 0 <= j < i implies t[j] != c by {
        assert(t[j] == q[j]);
    }
    assert(is_first_index(t, c, i));
    lemma_first_index(t, c, i);
    assert(t.remove(i) =~= q);
}

/// Connecting twice in a row leaves the connection stored with no room.
pub proof fn lemma_connect_twice(s: StoreState, c: Seq<char>)
    ensures
        operation_result(s, Operation::Connect(c)) matches Ok(n1) && operation_result(
            n1,
            Operation::Connect(c),
        ) matches Ok(n2) && n2.connections.contains_key(c) && n2.connections[c] is None,
{
}

proof fn lemma_operation_keeps_rosters_distinct(s: StoreState, op: Operation)
    requires
        rosters_distinct(s),
    ensures
        operation_result(s, op) matches Ok(n) ==> rosters_distinct(n),
{
    match op {
        Operation::Connect(c) => {
            assert(after_connect(s, c).rooms == s.rooms);
        },
        Operation::CreateRoom(c, r) => {
            assert(seq![c].no_duplicates());
        },
        Operation::Subscribe(c, room) => {
            if let Ok(n) = subscribe_result(s, c, room) {
                let r = room->Some_0;
                let q = s.rooms[r].subscribers;
                let t = q.push(c);
                assert(q.no_duplicates());
                assert forall|a: int, b: int| 0 <= a < t.len() && 0 <= b < t.len() && a != b implies t[a]
                    != t[b] by {
                    if a < q.len() && b < q.len() {
                    } else if a < q.len() {
                        assert(q.contains(q[a]));
                    } else {
                        assert(q.contains(q[b]));
                    }
                }
            }
        },
        Operation::Unsubscribe(c) => {
            if let Ok(n) = unsubscribe_result(s, c) {
                let r = s.connections[c]->Some_0;
                let q = s.rooms[r].subscribers;
                lemma_first_index_exists(q, c);
                lemma_remove_keeps_distinct(q, first_index(q, c));
            }
        },
    }
}

/// Whatever sequence of requests runs, no roster ever lists a connection twice.
pub proof fn lemma_rosters_stay_distinct(s: StoreState, ops: Seq<Operation>)
    requires
        rosters_distinct(s),
    ensures
        rosters_distinct(run(s, ops)),
    decreases ops.len(),
{
    if ops.len() > 0 {
        lemma_rosters_stay_distinct(s, ops.drop_last());
        lemma_operation_keeps_rosters_distinct(run(s, ops.drop_last()), ops.last());
    }
}

/// An unsubscribe transaction built from a roster `q` read at any earlier
/// time either aborts, or commits on a store whose roster is still `q` and
/// then removes exactly `c` from it: a stale position never removes another
/// connection.
pub proof fn lemma_guarded_removal(s: StoreState, c: Seq<char>, r: Seq<char>, q: Seq<Seq<char>>)
    requires
        rosters_distinct(s),
        q.contains(c),
    ensures
        commit(s, unsubscribe_mutations(c, r, q)) matches Some(n) ==> {
            &&& s.rooms.contains_key(r) && s.rooms[r].subscribers == q
            &&& n.rooms.contains_key(r)
            &&& n.rooms[r].subscribers == q.remove(first_index(q, c))
            &&& n.rooms[r].created_by == s.rooms[r].created_by
            &&& forall|x: Seq<char>| #[trigger]
                n.rooms[r].subscribers.contains(x) <==> (q.contains(x) && x != c)
            &&& n.connections.contains_key(c) && n.connections[c] is None
            &&& rosters_distinct(n)
        },
{
    let tx = unsubscribe_mutations(c, r, q);
    lemma_commit_two(s, tx[0], tx[1]);
    lemma_first_index_exists(q, c);
    if let Some(n) = commit(s, tx) {
        let i = first_index(q, c);
        assert(s.rooms[r].subscribers == q);
        lemma_remove_keeps_distinct(q, i);
        assert forall|x: Seq<char>| #[trigger]
            n.rooms[r].subscribers.contains(x) <==> (q.contains(x) && x != c) by {
            lemma_remove_contains(q, i, x);
        }
        crate::store::lemma_commit_keeps_rosters_distinct(s, tx);
    }
}

/// Two connections of one room unsubscribing concurrently: each commits an
/// unsubscribe built from whatever roster it read, in either order, with any
/// number of aborted attempts between (an abort changes nothing). Once both
/// have committed, the roster is the starting one without the two
/// connections, and a roster of just those two ends empty.
pub proof fn lemma_concurrent_unsubscribes(
    s0: StoreState,
    r: Seq<char>,
    c1: Seq<char>,
    q1: Seq<Seq<char>>,
    c2: Seq<char>,
    q2: Seq<Seq<char>>,
)
    requires
        rosters_distinct(s0),
        c1 != c2,
        q1.contains(c1),
        q2.contains(c2),
        commit(s0, unsubscribe_mutations(c1, r, q1)) is Some,
        commit(commit(s0, unsubscribe_mutations(c1, r, q1))->Some_0, unsubscribe_mutations(c2, r, q2)) is Some,
    ensures
        ({
            let s2 = commit(
                commit(s0, unsubscribe_mutations(c1, r, q1))->Some_0,
                unsubscribe_mutations(c2, r, q2),
            )->Some_0;
            let before = s0.rooms[r].subscribers;
            let after = s2.rooms[r].subscribers;
            &&& s2.rooms.contains_key(r)
            &&& forall|x: Seq<char>| #[trigger]
                after.contains(x) <==> (before.contains(x) && x != c1 && x != c2)
            &&& after.len() + 2 == before.len()
            &&& after.no_duplicates()
            &&& (before == seq![c1, c2] || before == seq![c2, c1]) ==> after.len() == 0
            &&& s2.connections.contains_key(c1) && s2.connections[c1] is None
            &&& s2.connections.contains_key(c2) && s2.connections[c2] is None
        }),
{
    let s1 = commit(s0, unsubscribe_mutations(c1, r, q1))->Some_0;
    let s2 = commit(s1, unsubscribe_mutations(c2, r, q2))->Some_0;
    lemma_guarded_removal(s0, c1, r, q1);
    lemma_guarded_removal(s1, c2, r, q2);
    lemma_first_index_exists(q1, c1);
    lemma_first_index_exists(q2, c2);
    let before = s0.rooms[r].subscribers;
    let after = s2.rooms[r].subscribers;
    assert forall|x: Seq<char>| #[trigger]
        after.contains(x) <==> (before.contains(x) && x != c1 && x != c2) by {
        assert(s1.rooms[r].subscribers.contains(x) <==> (q1.contains(x) && x != c1));
        assert(after.contains(x) <==> (q2.contains(x) && x != c2));
    }
    let tx1 = unsubscribe_mutations(c1, r, q1);
    let tx2 = unsubscribe_mutations(c2, r, q2);
    lemma_commit_two(s0, tx1[0], tx1[1]);
    lemma_commit_two(s1, tx2[0], tx2[1]);
}

/// Connection records and rosters agree: a connection names a room exactly
/// when that room exists and its roster lists the connection.
pub open spec fn memberships_agree(s: StoreState) -> bool {
    &&& forall|c: Seq<char>| #[trigger]
        s.connections.contains_key(c) && s.connections[c] is Some ==> s.rooms.contains_key(
            s.connections[c]->Some_0,
        ) && s.rooms[s.connections[c]->Some_0].subscribers.contains(c)
    &&& forall|r: Seq<char>, c: Seq<char>|
        s.rooms.contains_key(r) && #[trigger] s.rooms[r].subscribers.contains(c)
            ==> s.connections.contains_key(c) && s.connections[c] == Some(r)
}

/// Creating, joining and leaving rooms keep connection records and rosters
/// in agreement; so does connecting, for a connection that has no room
/// (connecting overwrites the record, so a connection that is still listed
/// on a roster would lose its side of the membership).
pub proof fn lemma_operations_keep_memberships(s: StoreState, op: Operation)
    requires
        rosters_distinct(s),
        memberships_agree(s),
        op matches Operation::Connect(c) ==> crate::store::connection_free(s, c),
    ensures
        operation_result(s, op) matches Ok(n) ==> memberships_agree(n),
{
    match op {
        Operation::Connect(c) => {
            let n = after_connect(s, c);
            assert forall|r: Seq<char>, x: Seq<char>|
                n.rooms.contains_key(r) && #[trigger] n.rooms[r].subscribers.contains(x)
                    implies n.connections.contains_key(x) && n.connections[x] == Some(r) by {
                assert(s.rooms[r].subscribers.contains(x));
            }
        },
        Operation::CreateRoom(c, r) => {
            if let Ok(n) = create_result(s, c, r) {
                assert forall|x: Seq<char>| #[trigger]
                    n.connections.contains_key(x) && n.connections[x] is Some implies n.rooms.contains_key(
                        n.connections[x]->Some_0,
                    ) && n.rooms[n.connections[x]->Some_0].subscribers.contains(x) by {
                    if x == c {
                        assert(seq![c][0] == c);
                    } else {
                        assert(s.connections.contains_key(x) && s.connections[x] is Some);
                    }
                }
                assert forall|r2: Seq<char>, x: Seq<char>|
                    n.rooms.contains_key(r2) && #[trigger] n.rooms[r2].subscribers.contains(x)
                        implies n.connections.contains_key(x) && n.connections[x] == Some(r2) by {
                    if r2 == r {
                        let k = choose|k: int| 0 <= k < seq![c].len() && seq![c][k] == x;
                        assert(x == c);
                    } else {
                        assert(s.rooms[r2].subscribers.contains(x));
                        if x == c {
                            assert(s.connections[c] == Some(r2));
                        }
                    }
                }
            }
        },
        Operation::Subscribe(c, room) => {
            if let Ok(n) = subscribe_result(s, c, room) {
                let r = room->Some_0;
                let q = s.rooms[r].subscribers;
                assert(n.rooms[r].subscribers == q.push(c));
                assert(q.push(c)[q.len() as int] == c);
                assert forall|x: Seq<char>| #[trigger]
                    n.connections.contains_key(x) && n.connections[x] is Some implies n.rooms.contains_key(
                        n.connections[x]->Some_0,
                    ) && n.rooms[n.connections[x]->Some_0].subscribers.contains(x) by {
                    if x != c {
                        assert(s.connections.contains_key(x) && s.connections[x] is Some);
                        let rx = s.connections[x]->Some_0;
                        if rx == r {
                            let k = choose|k: int| 0 <= k < q.len() && q[k] == x;
                            assert(q.push(c)[k] == x);
                        }
                    }
                }
                assert forall|r2: Seq<char>, x: Seq<char>|
                    n.rooms.contains_key(r2) && #[trigger] n.rooms[r2].subscribers.contains(x)
                        implies n.connections.contains_key(x) && n.connections[x] == Some(r2) by {
                    if r2 == r {
                        let k = choose|k: int| 0 <= k < q.push(c).len() && q.push(c)[k] == x;
                        if k < q.len() {
                            assert(q[k] == x);
                            assert(s.rooms[r].subscribers.contains(x));
                        }
                    } else {
                        assert(s.rooms[r2].subscribers.contains(x));
                        if x == c {
                            assert(s.connections[c] == Some(r2));
                        }
                    }
                }
            }
        },
        Operation::Unsubscribe(c) => {
            if let Ok(n) = unsubscribe_result(s, c) {
                let r = s.connections[c]->Some_0;
                let q = s.rooms[r].subscribers;
                lemma_first_index_exists(q, c);
                let i = first_index(q, c);
                assert(n.rooms[r].subscribers == q.remove(i));
                assert forall|x: Seq<char>| #[trigger]
                    n.connections.contains_key(x) && n.connections[x] is Some implies n.rooms.contains_key(
                        n.connections[x]->Some_0,
                    ) && n.rooms[n.connections[x]->Some_0].subscribers.contains(x) by {
                    assert(x != c);
                    assert(s.connections.contains_key(x) && s.connections[x] is Some);
                    let rx = s.connections[x]->Some_0;
                    if rx == r {
                        lemma_remove_contains(q, i, x);
                    }
                }
                assert forall|r2: Seq<char>, x: Seq<char>|
                    n.rooms.contains_key(r2) && #[trigger] n.rooms[r2].subscribers.contains(x)
                        implies n.connections.contains_key(x) && n.connections[x] == Some(r2) by {
                    if r2 == r {
                        lemma_remove_contains(q, i, x);
                        assert(s.rooms[r].subscribers.contains(x));
                    } else {
                        assert(s.rooms[r2].subscribers.contains(x));
                        if x == c {
                            assert(s.connections[c] == Some(r2));
                        }
                    }
                }
            }
        },
    }
}

/// An unsubscribe attempt whose read of the connection and of the roster is
/// still current when it commits always commits, with the state that
/// `unsubscribe` promises.
pub proof fn lemma_current_read_commits(s: StoreState, c: Seq<char>)
    requires
        rosters_distinct(s),
        unsubscribe_result(s, c) is Ok,
    ensures
        commit(
            s,
            unsubscribe_mutations(c, s.connections[c]->Some_0, s.rooms[s.connections[c]->Some_0].subscribers),
        ) == Some(unsubscribe_result(s, c)->Ok_0),
{
    let r = s.connections[c]->Some_0;
    let q = s.rooms[r].subscribers;
    let tx = unsubscribe_mutations(c, r, q);
    lemma_first_index_exists(q, c);
    lemma_commit_two(s, tx[0], tx[1]);
}

/// Two connections `c1`, `c2` of room `r`, in a store whose records agree,
/// unsubscribing concurrently. Whichever commits first (say `c1`) succeeds.
/// The other one's attempt, if it read before that commit, aborts; in every
/// case its attempt from a read after that commit succeeds. So each call
/// fails at most once and both end in success within the allowed attempts,
/// leaving neither connection on the roster and neither with a room; a
/// roster of just the two ends empty.
pub proof fn lemma_two_unsubscribes_both_succeed(
    s0: StoreState,
    r: Seq<char>,
    c1: Seq<char>,
    c2: Seq<char>,
)
    requires
        rosters_distinct(s0),
        memberships_agree(s0),
        c1 != c2,
        s0.connections.contains_key(c1) && s0.connections[c1] == Some(r),
        s0.connections.contains_key(c2) && s0.connections[c2] == Some(r),
    ensures
        unsubscribe_result(s0, c1) matches Ok(s1) && ({
            let q0 = s0.rooms[r].subscribers;
            let q1 = s1.rooms[r].subscribers;
            &&& commit(s0, unsubscribe_mutations(c1, r, q0)) == Some(s1)
            &&& commit(s1, unsubscribe_mutations(c2, r, q0)) is None
            &&& unsubscribe_result(s1, c2) matches Ok(s2) && {
                let q2 = s2.rooms[r].subscribers;
                &&& commit(s1, unsubscribe_mutations(c2, r, q1)) == Some(s2)
                &&& forall|x: Seq<char>| #[trigger]
                    q2.contains(x) <==> (q0.contains(x) && x != c1 && x != c2)
                &&& q2.len() + 2 == q0.len()
                &&& q0 == seq![c1, c2] ==> q2 == Seq::<Seq<char>>::empty()
                &&& s2.connections[c1] is None && s2.connections[c2] is None
            }
        }),
{
    let q0 = s0.rooms[r].subscribers;
    assert(s0.connections.contains_key(c1) && s0.connections[c1] is Some);
    assert(s0.connections.contains_key(c2) && s0.connections[c2] is Some);
    lemma_current_read_commits(s0, c1);
    let s1 = unsubscribe_result(s0, c1)->Ok_0;
    lemma_operation_keeps_rosters_distinct(s0, Operation::Unsubscribe(c1));
    lemma_first_index_exists(q0, c1);
    let i1 = first_index(q0, c1);
    let q1 = s1.rooms[r].subscribers;
    assert(q1 == q0.remove(i1));
    lemma_remove_contains(q0, i1, c2);
    assert(q1.len() + 1 == q0.len());
    assert(q1 != q0);
    let stale = unsubscribe_mutations(c2, r, q0);
    lemma_commit_two(s1, stale[0], stale[1]);
    lemma_current_read_commits(s1, c2);
    let s2 = unsubscribe_result(s1, c2)->Ok_0;
    lemma_first_index_exists(q1, c2);
    let i2 = first_index(q1, c2);
    let q2 = s2.rooms[r].subscribers;
    assert(q2 == q1.remove(i2));
    assert forall|x: Seq<char>| #[trigger] q2.contains(x) <==> (q0.contains(x) && x != c1 && x != c2) by {
        lemma_remove_contains(q0, i1, x);
        lemma_remove_contains(q1, i2, x);
    }
    if q0 == seq![c1, c2] {
        assert(q2.len() == 0);
        assert(q2 =~= Seq::<Seq<char>>::empty());
    }
}

} // verus!
