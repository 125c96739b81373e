//! An in-memory implementation of the transactional store.
use vstd::prelude::*;

use crate::keyed::{
    keyed_map, keys_unique, lemma_keyed_at, lemma_keyed_domain, lemma_keyed_push,
    lemma_keyed_update,
};
use crate::store::{
    commit, condition, effect, effect_all, ids_view,
    lemma_effect_keeps_rosters_distinct, lemma_remove_keeps_distinct, opt_view, rosters_distinct,
    tx_view, with_connection, with_room, Connection, Mutation, Room, RoomState, StoreError, StoreState,
};

verus! {

/// Connection and room records held in two vectors, each keyed by a unique id.
pub struct MemoryStore {
    connections: Vec<Connection>,
    rooms: Vec<Room>,
}

pub open spec fn connection_entries(v: Seq<Connection>) -> Seq<(Seq<char>, Option<Seq<char>>)> {
    v.map_values(|c: Connection| (c.id@, opt_view(c.room)))
}

pub open spec fn room_state(r: Room) -> RoomState {
    RoomState { created_by: r.created_by@, subscribers: ids_view(r.subscribers@) }
}

pub open spec fn room_entries(v: Seq<Room>) -> Seq<(Seq<char>, RoomState)> {
    v.map_values(|r: Room| (r.id@, room_state(r)))
}

impl View for MemoryStore {
    type V = StoreState;

    closed spec fn view(&self) -> StoreState {
        StoreState {
            connections: keyed_map(connection_entries(self.connections@)),
            rooms: keyed_map(room_entries(self.rooms@)),
        }
    }
}

fn copy_ids(v: &Vec<String>) -> (r: Vec<String>)
    ensures
        r@ == v@,
{
    let mut r: Vec<String> = Vec::new();
    let mut i: usize = 0;
    while i < v.len()
        invariant
            i <= v@.len(),
            r@ == v@.subrange(0, i as int),
        decreases v@.len() - i,
    {
        r.push(v[i].clone());
        i += 1;
        assert(r@ =~= v@.subrange(0, i as int));
    }
    assert(v@.subrange(0, v@.len() as int) =~= v@);
    r
}

fn ids_contain(v: &Vec<String>, x: &String) -> (r: bool)
    ensures
        r == ids_view(v@).contains(x@),
{
    let mut i: usize = 0;
    while i < v.len()
        invariant
            i <= v@.len(),
            forall|j: int| 0 <= j < i ==> v@[j]@ != x@,
        decreases v@.len() - i,
    {
        if v[i] == *x {
            assert(ids_view(v@)[i as int] == x@);
            return true;
        }
        i += 1;
    }
    assert forall|j: int| 0 <= j < ids_view(v@).len() implies ids_view(v@)[j] != x@ by {
        assert(ids_view(v@)[j] == v@[j]@);
    }
    false
}

fn ids_equal(a: &Vec<String>, b: &Vec<String>) -> (r: bool)
    ensures
        r == (ids_view(a@) == ids_view(b@)),
{
    if a.len() != b.len() {
        assert(ids_view(a@).len() != ids_view(b@).len());
        return false;
    }
    let mut i: usize = 0;
    while i < a.len()
        invariant
            a@.len() == b@.len(),
            i <= a@.len(),
            forall|j: int| 0 <= j < i ==> a@[j]@ == b@[j]@,
        decreases a@.len() - i,
    {
        if a[i] != b[i] {
            assert(ids_view(a@)[i as int] != ids_view(b@)[i as int]);
            return false;
        }
        i += 1;
    }
    assert(ids_view(a@) =~= ids_view(b@));
    true
}

impl MemoryStore {
    /// The store's own consistency: ids are unique and no roster lists a
    /// connection twice.
    pub open spec fn wf(&self) -> bool {
        self.ids_unique() && rosters_distinct(self@)
    }

    pub closed spec fn ids_unique(&self) -> bool {
        keys_unique(connection_entries(self.connections@)) && keys_unique(
            room_entries(self.rooms@),
        )
    }

    /// An empty store.
    pub fn new() -> (r: MemoryStore)
        ensures
            r.wf(),
            r@.connections == Map::<Seq<char>, Option<Seq<char>>>::empty(),
            r@.rooms == Map::<Seq<char>, RoomState>::empty(),
    {
        let r = MemoryStore { connections: Vec::new(), rooms: Vec::new() };
        assert(connection_entries(r.connections@) =~= Seq::empty());
        assert(room_entries(r.rooms@) =~= Seq::empty());
        r
    }

    fn find_connection(&self, id: &String) -> (r: Option<usize>)
        requires
            self.wf(),
        ensures
            match r {
                Some(i) => i < self.connections@.len() && self.connections@[i as int].id@ == id@
                    && self@.connections.contains_key(id@) && self@.connections[id@] == opt_view(
                    self.connections@[i as int].room,
                ),
                None => !self@.connections.contains_key(id@),
            },
    {
        let ghost e = connection_entries(self.connections@);
        let mut i: usize = 0;
        while i < self.connections.len()
            invariant
                self.wf(),
                e == connection_entries(self.connections@),
                i <= self.connections@.len(),
                forall|j: int| 0 <= j < i ==> self.connections@[j].id@ != id@,
            decreases self.connections@.len() - i,
        {
            if self.connections[i].id == *id {
                proof {
                    lemma_keyed_at(e, i as int);
                }
                return Some(i);
            }
            i += 1;
        }
        proof {
            lemma_keyed_domain(e, id@);
            assert forall|j: int| 0 <= j < e.len() implies e[j].0 != id@ by {
                assert(e[j].0 == self.connections@[j].id@);
            }
        }
        None
    }

    fn find_room(&self, id: &String) -> (r: Option<usize>)
        requires
            self.wf(),
        ensures
            match r {
                Some(i) => i < self.rooms@.len() && self.rooms@[i as int].id@ == id@
                    && self@.rooms.contains_key(id@) && self@.rooms[id@] == room_state(
                    self.rooms@[i as int],
                ),
                None => !self@.rooms.contains_key(id@),
            },
    {
        let ghost e = room_entries(self.rooms@);
        let mut i: usize = 0;
        while i < self.rooms.len()
            invariant
                self.wf(),
                e == room_entries(self.rooms@),
                i <= self.rooms@.len(),
                forall|j: int| 0 <= j < i ==> self.rooms@[j].id@ != id@,
            decreases self.rooms@.len() - i,
        {
            if self.rooms[i].id == *id {
                proof {
                    lemma_keyed_at(e, i as int);
                }
                return Some(i);
            }
            i += 1;
        }
        proof {
            lemma_keyed_domain(e, id@);
            assert forall|j: int| 0 <= j < e.len() implies e[j].0 != id@ by {
                assert(e[j].0 == self.rooms@[j].id@);
            }
        }
        None
    }

    fn set_connection_room(&mut self, id: &String, room: Option<String>)
        requires
            old(self).wf(),
        ensures
            final(self).wf(),
            final(self)@ == with_connection(old(self)@, id@, opt_view(room)),
    {
        let ghost e = connection_entries(self.connections@);
        let ghost v = opt_view(room);
        let rec = Connection { id: id.clone(), room };
        match self.find_connection(id) {
            Some(i) => {
                self.connections.set(i, rec);
                proof {
                    lemma_keyed_update(e, i as int, v);
                    assert(connection_entries(self.connections@) =~= e.update(
                        i as int,
                        (e[i as int].0, v),
                    ));
                }
            },
            None => {
                self.connections.push(rec);
                proof {
                    lemma_keyed_push(e, (id@, v));
                    assert(connection_entries(self.connections@) =~= e.push((id@, v)));
                }
            },
        }
        assert(self@.connections =~= old(self)@.connections.insert(id@, v));
        assert(self@.rooms == old(self)@.rooms);
    }

    fn put_room(&mut self, id: &String, created_by: String, subscribers: Vec<String>)
        requires
            old(self).wf(),
            ids_view(subscribers@).no_duplicates(),
        ensures
            final(self).wf(),
            final(self)@ == with_room(
                old(self)@,
                id@,
                RoomState { created_by: created_by@, subscribers: ids_view(subscribers@) },
            ),
    {
        let ghost e = room_entries(self.rooms@);
        let rec = Room { id: id.clone(), created_by, subscribers };
        let ghost v = room_state(rec);
        match self.find_room(id) {
            Some(i) => {
                self.rooms.set(i, rec);
                proof {
                    lemma_keyed_update(e, i as int, v);
                    assert(room_entries(self.rooms@) =~= e.update(i as int, (e[i as int].0, v)));
                }
            },
            None => {
                self.rooms.push(rec);
                proof {
                    lemma_keyed_push(e, (id@, v));
                    assert(room_entries(self.rooms@) =~= e.push((id@, v)));
                }
            },
        }
        assert(self@.rooms =~= old(self)@.rooms.insert(id@, v));
        assert(self@.connections == old(self)@.connections);
    }

    fn holds(&self, m: &Mutation) -> (r: bool)
        requires
            self.wf(),
        ensures
            r == condition(self@, m@),
    {
        match m {
            Mutation::RegisterConnection { .. } => true,
            Mutation::AssignRoom { connection_id, .. } => match self.find_connection(
                connection_id,
            ) {
                Some(i) => self.connections[i].room.is_none(),
                None => true,
            },
            Mutation::ClearRoom { connection_id, room_id } => match self.find_connection(
                connection_id,
            ) {
                Some(i) => match &self.connections[i].room {
                    Some(r) => *r == *room_id,
                    None => false,
                },
                None => false,
            },
            Mutation::CreateRoom { room_id, .. } => self.find_room(room_id).is_none(),
            Mutation::AppendSubscriber { room_id, connection_id } => match self.find_room(
                room_id,
            ) {
                Some(i) => !ids_contain(&self.rooms[i].subscribers, connection_id),
                None => false,
            },
            Mutation::RemoveSubscriberAt { room_id, index, expected } => match self.find_room(
                room_id,
            ) {
                Some(i) => {
                    let eq = ids_equal(&self.rooms[i].subscribers, expected);
                    assert(condition(self@, m@) == (eq && *index < expected@.len()));
                    eq && *index < expected.len()
                },
                None => false,
            },
        }
    }

    fn perform(&mut self, m: &Mutation)
        requires
            old(self).wf(),
        ensures
            final(self).wf(),
            final(self)@ == effect(old(self)@, m@),
    {
        match m {
            Mutation::RegisterConnection { connection_id } => {
                self.set_connection_room(connection_id, None);
            },
            Mutation::AssignRoom { connection_id, room_id } => {
                self.set_connection_room(connection_id, Some(room_id.clone()));
            },
            Mutation::ClearRoom { connection_id, .. } => {
                self.set_connection_room(connection_id, None);
            },
            Mutation::CreateRoom { room_id, creator_id } => {
                let roster = vec![creator_id.clone()];
                assert(ids_view(roster@) =~= seq![creator_id@]);
                self.put_room(room_id, creator_id.clone(), roster);
            },
            Mutation::AppendSubscriber { room_id, connection_id } => {
                if let Some(i) = self.find_room(room_id) {
                    if !ids_contain(&self.rooms[i].subscribers, connection_id) {
                        let ghost before = ids_view(self.rooms@[i as int].subscribers@);
                        let mut roster = copy_ids(&self.rooms[i].subscribers);
                        roster.push(connection_id.clone());
                        let created_by = self.rooms[i].created_by.clone();
                        proof {
                            lemma_effect_keeps_rosters_distinct(self@, m@);
                            assert(ids_view(roster@) =~= before.push(connection_id@));
                        }
                        self.put_room(room_id, created_by, roster);
                    }
                }
            },
            Mutation::RemoveSubscriberAt { room_id, index, .. } => {
                if let Some(i) = self.find_room(room_id) {
                    if *index < self.rooms[i].subscribers.len() {
                        let ghost before = ids_view(self.rooms@[i as int].subscribers@);
                        let mut roster = copy_ids(&self.rooms[i].subscribers);
                        roster.remove(*index);
                        let created_by = self.rooms[i].created_by.clone();
                        proof {
                            lemma_remove_keeps_distinct(before, *index as int);
                            assert(ids_view(roster@) =~= before.remove(*index as int));
                        }
                        self.put_room(room_id, created_by, roster);
                    }
                }
            },
        }
    }

    /// The room of a stored connection: `None` when the connection is not
    /// stored, `Some(None)` when it has no room.
    pub fn connection_room(&self, connection_id: &str) -> (r: Option<Option<String>>)
        requires
            self.wf(),
        ensures
            match r {
                None => !self@.connections.contains_key(connection_id@),
                Some(o) => self@.connections.contains_key(connection_id@) && opt_view(o)
                    == self@.connections[connection_id@],
            },
    {
        let id = connection_id.to_owned();
        match self.find_connection(&id) {
            None => None,
            Some(i) => match &self.connections[i].room {
                Some(room) => Some(Some(room.clone())),
                None => Some(None),
            },
        }
    }

    /// The roster of a stored room, in order; `None` when the room is not stored.
    pub fn room_subscribers(&self, room_id: &str) -> (r: Option<Vec<String>>)
        requires
            self.wf(),
        ensures
            match r {
                None => !self@.rooms.contains_key(room_id@),
                Some(v) => self@.rooms.contains_key(room_id@) && ids_view(v@)
                    == self@.rooms[room_id@].subscribers,
            },
    {
        let id = room_id.to_owned();
        match self.find_room(&id) {
            None => None,
            Some(i) => Some(copy_ids(&self.rooms[i].subscribers)),
        }
    }

    /// The connection that created a stored room; `None` when the room is not stored.
    pub fn room_creator(&self, room_id: &str) -> (r: Option<String>)
        requires
            self.wf(),
        ensures
            match r {
                None => !self@.rooms.contains_key(room_id@),
                Some(c) => self@.rooms.contains_key(room_id@) && c@
                    == self@.rooms[room_id@].created_by,
            },
    {
        let id = room_id.to_owned();
        match self.find_room(&id) {
            None => None,
            Some(i) => Some(self.rooms[i].created_by.clone()),
        }
    }

    /// Applies `tx` as one unit: all of it when every condition holds on the
    /// current state, none of it otherwise.
    pub fn transact(&mut self, tx: &Vec<Mutation>) -> (r: Result<(), StoreError>)
        requires
            old(self).wf(),
        ensures
            final(self).wf(),
            match commit(old(self)@, tx_view(tx@)) {
                Some(n) => r is Ok && final(self)@ == n,
                None => r == Err::<(), StoreError>(StoreError::Aborted) && final(self)@ == old(
                    self,
                )@,
            },
    {
        let mut i: usize = 0;
        while i < tx.len()
            invariant
                self.wf(),
                i <= tx@.len(),
                forall|j: int| 0 <= j < i ==> condition(self@, #[trigger] tx_view(tx@)[j]),
            decreases tx@.len() - i,
        {
            if !self.holds(&tx[i]) {
                assert(!condition(self@, tx_view(tx@)[i as int]));
                return Err(StoreError::Aborted);
            }
            i += 1;
        }
        let ghost s0 = self@;
        let mut k: usize = 0;
        while k < tx.len()
            invariant
                self.wf(),
                k <= tx@.len(),
                self@ == effect_all(s0, tx_view(tx@).subrange(0, k as int)),
            decreases tx@.len() - k,
        {
            self.perform(&tx[k]);
            proof {
                assert(tx_view(tx@).subrange(0, k + 1).drop_last() =~= tx_view(tx@).subrange(
                    0,
                    k as int,
                ));
            }
            k += 1;
        }
        assert(tx_view(tx@).subrange(0, tx@.len() as int) =~= tx_view(tx@));
        Ok(())
    }
}

} // verus!
