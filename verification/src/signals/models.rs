//! The signaling state: rooms and the users in them, and who listens for
//! signals. Every change returns what the service has to announce: the new
//! member list of a room to its subscribers, rooms that disappeared.

use vstd::prelude::*;
use dashmap::DashMap;
use crate::signals::room_maps::{
    listener_entries, listeners_contains, listeners_insert, listeners_keys, listeners_new,
    listeners_remove, room_entries, rooms_get, rooms_insert, rooms_keys, rooms_new, rooms_remove,
};
use crate::text::str_eq;

verus! {

/// The ids of a list of users, as character sequences.
pub open spec fn user_views(users: Seq<String>) -> Seq<Seq<char>> {
    users.map_values(|s: String| s@)
}

/// A room: the users in it.
#[derive(Clone, Debug, Default)]
pub struct Room {
    pub users: Vec<String>,
}

impl Room {
    /// The users in the room.
    pub open spec fn members(&self) -> Set<Seq<char>> {
        user_views(self.users@).to_set()
    }

    /// Well-formed: no user is listed twice.
    pub open spec fn wf(&self) -> bool {
        user_views(self.users@).no_duplicates()
    }

    /// A room with nobody in it.
    pub fn new() -> (res: Room)
        ensures
            res.wf(),
            res.members() == Set::<Seq<char>>::empty(),
    {
        let res = Room { users: Vec::new() };
        assert(res.members() =~= Set::<Seq<char>>::empty());
        res
    }

    /// A copy of the room.
    pub fn copy(&self) -> (res: Room)
        ensures
            res.users@ == self.users@,
    {
        let users = self.users.clone();
        proof {
            assert forall|i: int| 0 <= i < users@.len() implies users@[i] == self.users@[i] by {
                assert(cloned::<String>(self.users[i], users[i]));
            }
            assert(users@ =~= self.users@);
        }
        Room { users }
    }

    /// Where `user` stands in the list.
    fn position(&self, user: &str) -> (res: Option<usize>)
        ensures
            match res {
                Some(i) => i < self.users@.len() && self.users@[i as int]@ == user@,
                None => !self.members().contains(user@),
            },
    {
        let mut i: usize = 0;
        while i < self.users.len()
            invariant
                i <= self.users@.len(),
                forall|j: int| 0 <= j < i ==> self.users@[j]@ != user@,
            decreases self.users@.len() - i,
        {
            if str_eq(self.users[i].as_str(), user) {
                return Some(i);
            }
            i = i + 1;
        }
        proof {
            if self.members().contains(user@) {
                let j = choose|j: int| 0 <= j < user_views(self.users@).len() && user_views(self.users@)[j] == user@;
                assert(self.users@[j]@ == user@);
            }
        }
        None
    }

    /// Whether `user` is in the room.
    pub fn contains(&self, user: &str) -> (res: bool)
        ensures
            res == self.members().contains(user@),
    {
        match self.position(user) {
            Some(i) => {
                assert(user_views(self.users@)[i as int] == user@);
                true
            },
            None => false,
        }
    }

    /// Puts `user` in the room; `true` when it was not there before.
    pub fn insert(&mut self, user: String) -> (res: bool)
        requires
            old(self).wf(),
        ensures
            final(self).wf(),
            final(self).members() == old(self).members().insert(user@),
            res == !old(self).members().contains(user@),
    {
        if self.contains(user.as_str()) {
            assert(self.members().insert(user@) =~= self.members());
            false
        } else {
            let ghost before = user_views(self.users@);
            self.users.push(user);
            proof {
                assert(user_views(self.users@) =~= before.push(user@));
                before.lemma_push_to_set_commute(user@);
            }
            true
        }
    }

    /// Takes `user` out of the room; `true` when it was there.
    pub fn remove(&mut self, user: &str) -> (res: bool)
        requires
            old(self).wf(),
        ensures
            final(self).wf(),
            final(self).members() == old(self).members().remove(user@),
            res == old(self).members().contains(user@),
    {
        match self.position(user) {
            None => {
                assert(self.members().remove(user@) =~= self.members());
                false
            },
            Some(i) => {
                let ghost old_views = user_views(self.users@);
                let _ = self.users.remove(i);
                proof {
                    let new_views = user_views(self.users@);
                    assert(new_views =~= old_views.remove(i as int));
                    assert(old_views[i as int] == user@);
                    assert(new_views.to_set() =~= old_views.to_set().remove(user@)) by {
                        assert forall|x: Seq<char>| new_views.to_set().contains(x) <==> old_views.to_set().remove(user@).contains(x) by {
                            if new_views.contains(x) {
                                let j = choose|j: int| 0 <= j < new_views.len() && new_views[j] == x;
                                if j < i {
                                    assert(old_views[j] == x);
                                } else {
                                    assert(old_views[j + 1] == x);
                                }
                            }
                            if old_views.contains(x) && x != user@ {
                                let j = choose|j: int| 0 <= j < old_views.len() && old_views[j] == x;
                                if j < i {
                                    assert(new_views[j] == x);
                                } else {
                                    assert(new_views[j - 1] == x);
                                }
                            }
                        }
                    }
                }
                true
            },
        }
    }

    /// Whether nobody is in the room.
    pub fn is_empty(&self) -> (res: bool)
        ensures
            res == self.members().is_empty(),
    {
        proof {
            if self.users@.len() > 0 {
                assert(self.members().contains(user_views(self.users@)[0]));
            } else {
                assert(self.members() =~= Set::<Seq<char>>::empty());
            }
        }
        self.users.len() == 0
    }

    /// The users in the room, in the order they came in.
    pub fn users(&self) -> (res: Vec<String>)
        ensures
            res@ == self.users@,
    {
        self.copy().users
    }
}

/// A signal sent to a user: its payload and who sent it.
#[derive(Clone, Debug)]
pub struct Signal {
    pub payload: String,
    pub peer_id: String,
}

/// What joining a room changed.
pub struct JoinOutcome {
    /// The room did not exist before.
    pub created: bool,
    /// The room's new state, when the user was not in it before: its
    /// subscribers are to be told.
    pub snapshot: Option<Room>,
}

/// What leaving a room changed.
pub struct LeaveOutcome {
    /// The room's new state, when the user was in it: its subscribers are to
    /// be told.
    pub snapshot: Option<Room>,
    /// The room was left empty and is gone.
    pub room_removed: bool,
}

/// A room that a departing user was taken out of.
pub struct RoomUpdate {
    pub room_id: String,
    /// The room's new state, to be told to its subscribers.
    pub room: Room,
    /// The room was left empty and is gone.
    pub removed: bool,
}

/// What a user's departure from the signals changed.
pub struct StopOutcome {
    /// The rooms the user was in, each with its new state.
    pub updates: Vec<RoomUpdate>,
    /// The user listens no more and is gone from the listeners.
    pub user_removed: bool,
}

/// The rooms with `user` taken out of each; rooms left empty are dropped.
pub open spec fn without_user(
    rooms: Map<Seq<char>, Set<Seq<char>>>,
    user: Seq<char>,
) -> Map<Seq<char>, Set<Seq<char>>> {
    Map::new(
        |r: Seq<char>| rooms.dom().contains(r) && !rooms[r].remove(user).is_empty(),
        |r: Seq<char>| rooms[r].remove(user),
    )
}

/// The room stored under `key` in `m` is well-formed and has the members
/// `members`, unless `members` is empty, in which case no room is stored there.
pub open spec fn room_done(m: Map<Seq<char>, Room>, members: Set<Seq<char>>, key: Seq<char>) -> bool {
    &&& m.dom().contains(key) == !members.is_empty()
    &&& m.dom().contains(key) ==> m[key].wf() && m[key].members() == members
}

/// The room stored under `key` is the one `before` had there.
pub open spec fn room_untouched(m: Map<Seq<char>, Room>, before: Map<Seq<char>, Room>, key: Seq<char>) -> bool {
    m.dom().contains(key) && m[key] == before[key]
}

/// `u` reports a room that held `user`, with `user` taken out.
pub open spec fn update_ok(rooms: Map<Seq<char>, Set<Seq<char>>>, user: Seq<char>, u: RoomUpdate) -> bool {
    &&& rooms.dom().contains(u.room_id@)
    &&& rooms[u.room_id@].contains(user)
    &&& u.room.wf()
    &&& u.room.members() == rooms[u.room_id@].remove(user)
    &&& u.removed == u.room.members().is_empty()
}

/// The room ids reported so far (`ids`) are, without repetition, exactly
/// the rooms among the first `i` keys that hold the user (`holders`).
pub open spec fn ids_progress(keys: Seq<Seq<char>>, i: int, ids: Seq<Seq<char>>, holders: Set<Seq<char>>) -> bool {
    &&& ids.no_duplicates()
    &&& forall|t: int| 0 <= t < ids.len() ==> keys.subrange(0, i).contains(#[trigger] ids[t])
    &&& forall|j: int| 0 <= j < i && holders.contains(#[trigger] keys[j]) ==> ids.contains(keys[j])
}

proof fn lemma_ids_step(keys: Seq<Seq<char>>, i: int, ids: Seq<Seq<char>>, holders: Set<Seq<char>>, add: bool)
    requires
        0 <= i < keys.len(),
        keys.no_duplicates(),
        ids_progress(keys, i, ids, holders),
        add == holders.contains(keys[i]),
    ensures
        ids_progress(keys, i + 1, if add { ids.push(keys[i]) } else { ids }, holders),
{
    let new_ids = if add { ids.push(keys[i]) } else { ids };
    assert forall|t: int| 0 <= t < new_ids.len() implies keys.subrange(0, i + 1).contains(#[trigger] new_ids[t]) by {
        if t < ids.len() {
            assert(new_ids[t] == ids[t]);
            let j = choose|j: int| 0 <= j < i && keys.subrange(0, i)[j] == ids[t];
            assert(keys.subrange(0, i + 1)[j] == ids[t]);
        } else {
            assert(keys.subrange(0, i + 1)[i] == keys[i]);
        }
    }
    if add {
        assert(!ids.contains(keys[i])) by {
            if ids.contains(keys[i]) {
                let t = choose|t: int| 0 <= t < ids.len() && ids[t] == keys[i];
                assert(keys.subrange(0, i).contains(ids[t]));
                let j = choose|j: int| 0 <= j < i && keys.subrange(0, i)[j] == ids[t];
                assert(keys[j] == keys[i]);
            }
        }
        assert forall|a: int, b: int| 0 <= a < new_ids.len() && 0 <= b < new_ids.len() && a != b implies new_ids[a] != new_ids[b] by {
            if a < ids.len() && b < ids.len() {
                assert(new_ids[a] == ids[a] && new_ids[b] == ids[b]);
            } else if a < ids.len() {
                assert(new_ids[a] == ids[a]);
                assert(ids.contains(ids[a]));
            } else {
                assert(new_ids[b] == ids[b]);
                assert(ids.contains(ids[b]));
            }
        }
    }
    assert forall|j: int| 0 <= j < i + 1 && holders.contains(#[trigger] keys[j]) implies new_ids.contains(keys[j]) by {
        if j < i {
            let t = choose|t: int| 0 <= t < ids.len() && ids[t] == keys[j];
            assert(new_ids[t] == keys[j]);
        } else {
            assert(new_ids[ids.len() as int] == keys[j]);
        }
    }
}

/// Two maps that agree once `k` is taken out agree at every other key.
proof fn lemma_other_key(m1: Map<Seq<char>, Room>, m2: Map<Seq<char>, Room>, k: Seq<char>, other: Seq<char>)
    requires
        m1.remove(k) == m2.remove(k),
        other != k,
    ensures
        m1.dom().contains(other) == m2.dom().contains(other),
        m1.dom().contains(other) ==> m1[other] == m2[other],
{
    assert(m1.remove(k).dom().contains(other) == m1.dom().contains(other));
    assert(m2.remove(k).dom().contains(other) == m2.dom().contains(other));
    if m1.dom().contains(other) {
        assert(m1.remove(k)[other] == m1[other]);
        assert(m2.remove(k)[other] == m2[other]);
    }
}

/// The members of `room` in `rooms`; nobody when there is no such room.
pub open spec fn members_of(rooms: Map<Seq<char>, Set<Seq<char>>>, room: Seq<char>) -> Set<Seq<char>> {
    if rooms.dom().contains(room) {
        rooms[room]
    } else {
        Set::empty()
    }
}

/// The two maps behind the signaling state: the rooms by id, and how many
/// signal streams each listening user has open.
struct RoomTables {
    rooms: DashMap<String, Room>,
    users: DashMap<String, ()>,
}

/// The state of the signaling service: the rooms, and how many signal
/// streams each listening user has open.
pub struct RoomsStorage {
    tables: RoomTables,
}

impl RoomTables {
    /// The rooms, by id.
    spec fn room_map(&self) -> Map<Seq<char>, Room> {
        room_entries(self.rooms)
    }

    /// The members of each room, by room id.
    spec fn members(&self) -> Map<Seq<char>, Set<Seq<char>>> {
        self.room_map().map_values(|r: Room| r.members())
    }

    /// The number of signal streams of each listening user, by user id.
    spec fn listeners(&self) -> Set<Seq<char>> {
        listener_entries(self.users)
    }

    /// Well-formed: no room lists a user twice, and no room is empty.
    spec fn wf(&self) -> bool {
        forall|r: Seq<char>| #[trigger] self.room_map().dom().contains(r) ==> self.room_map()[r].wf()
            && !self.room_map()[r].members().is_empty()
    }

    /// No rooms, no listeners.
    fn new() -> (res: RoomTables)
        ensures
            res.wf(),
            res.members() == Map::<Seq<char>, Set<Seq<char>>>::empty(),
            res.listeners() == Set::<Seq<char>>::empty(),
    {
        let res = RoomTables { rooms: rooms_new(), users: listeners_new() };
        assert(res.members() =~= Map::<Seq<char>, Set<Seq<char>>>::empty());
        res
    }

    /// Whether `user` listens for signals.
    fn is_listening(&self, user: &str) -> (res: bool)
        ensures
            res == self.listeners().contains(user@),
    {
        listeners_contains(&self.users, user)
    }

    /// The ids of the listening users, each once.
    fn user_ids(&self) -> (res: Vec<String>)
        ensures
            user_views(res@).no_duplicates(),
            user_views(res@).to_set() == self.listeners(),
    {
        let res = listeners_keys(&self.users);
        proof {
            assert forall|k: Seq<char>| user_views(res@).to_set().contains(k) <==> self.listeners().contains(k) by {
                if self.listeners().contains(k) {
                    let i = choose|i: int| 0 <= i < res@.len() && #[trigger] res@[i]@ == k;
                    assert(user_views(res@)[i] == k);
                }
            }
            assert(user_views(res@).to_set() =~= self.listeners());
        }
        res
    }

    /// The ids of the rooms, each once.
    fn room_ids(&self) -> (res: Vec<String>)
        ensures
            user_views(res@).no_duplicates(),
            user_views(res@).to_set() == self.members().dom(),
    {
        let res = rooms_keys(&self.rooms);
        proof {
            assert forall|k: Seq<char>| user_views(res@).to_set().contains(k) <==> self.members().dom().contains(k) by {
                if self.members().dom().contains(k) {
                    let i = choose|i: int| 0 <= i < res@.len() && #[trigger] res@[i]@ == k;
                    assert(user_views(res@)[i] == k);
                }
            }
            assert(user_views(res@).to_set() =~= self.members().dom());
        }
        res
    }

    /// Opens a signal stream for `user`; `true` when `user` did not listen
    /// before (the service then makes the user's signal channel).
    fn listen(&mut self, user: String) -> (res: bool)
        requires
            old(self).wf(),
        ensures
            final(self).wf(),
            final(self).members() == old(self).members(),
            final(self).listeners() == old(self).listeners().insert(user@),
            res == !old(self).listeners().contains(user@),
    {
        let ghost before = *old(self);
        let was = listeners_contains(&self.users, user.as_str());
        listeners_insert(&mut self.users, user);
        assert(self.room_map() == before.room_map());
        !was
    }

    /// Puts `user` in room `room_id`, making the room when there is none
    /// (a room subscription starting).
    fn join_room(&mut self, room_id: String, user: String) -> (res: JoinOutcome)
        requires
            old(self).wf(),
        ensures
            final(self).wf(),
            final(self).members() == old(self).members().insert(
                room_id@,
                members_of(old(self).members(), room_id@).insert(user@),
            ),
            final(self).listeners() == old(self).listeners(),
            res.created == !old(self).members().dom().contains(room_id@),
            res.snapshot is Some == !members_of(old(self).members(), room_id@).contains(user@),
            res.snapshot matches Some(r) ==> r.wf() && r.members() == final(self).members()[room_id@],
    {
        let ghost before = *old(self);
        let ghost rid = room_id@;
        let (mut room, created) = match rooms_get(&self.rooms, room_id.as_str()) {
            Some(r) => (r, false),
            None => (Room::new(), true),
        };
        proof {
            if before.room_map().dom().contains(rid) {
                assert(before.room_map()[rid].wf());
                assert(room.members() == before.room_map()[rid].members());
            }
        }
        let changed = room.insert(user);
        let snapshot = if changed {
            Some(room.copy())
        } else {
            None
        };
        rooms_insert(&mut self.rooms, room_id, room);
        proof {
            assert(self.listeners() == before.listeners());
            assert(self.members() =~= before.members().insert(
                rid,
                members_of(before.members(), rid).insert(user@),
            ));
            assert forall|r: Seq<char>| #[trigger] self.room_map().dom().contains(r) implies self.room_map()[r].wf()
                && !self.room_map()[r].members().is_empty() by {
                if r != rid {
                    assert(before.room_map().dom().contains(r));
                } else {
                    assert(self.room_map()[r].members().contains(user@));
                }
            }
        }
        JoinOutcome { created, snapshot }
    }

    /// Takes `user` out of room `room_id` (a room subscription ending); the
    /// room goes when nobody is left in it.
    fn leave_room(&mut self, room_id: &str, user: &str) -> (res: LeaveOutcome)
        requires
            old(self).wf(),
        ensures
            final(self).wf(),
            final(self).listeners() == old(self).listeners(),
            !members_of(old(self).members(), room_id@).contains(user@) ==> final(self).members()
                == old(self).members() && res.snapshot is None && !res.room_removed,
            members_of(old(self).members(), room_id@).contains(user@) ==> {
                let left = old(self).members()[room_id@].remove(user@);
                &&& res.snapshot matches Some(r) && r.wf() && r.members() == left
                &&& res.room_removed == left.is_empty()
                &&& left.is_empty() ==> final(self).members() == old(self).members().remove(room_id@)
                &&& !left.is_empty() ==> final(self).members() == old(self).members().insert(room_id@, left)
            },
    {
        let ghost before = *old(self);
        let ghost rid = room_id@;
        match rooms_get(&self.rooms, room_id) {
            None => {
                LeaveOutcome { snapshot: None, room_removed: false }
            },
            Some(mut room) => {
                proof {
                    assert(before.room_map()[rid].wf());
                    assert(room.members() == before.room_map()[rid].members());
                }
                if !room.remove(user) {
                    return LeaveOutcome { snapshot: None, room_removed: false };
                }
                let snapshot = room.copy();
                if room.is_empty() {
                    rooms_remove(&mut self.rooms, room_id);
                    proof {
                        assert(self.listeners() == before.listeners());
                        assert(self.members() =~= before.members().remove(rid));
                        assert forall|r: Seq<char>| #[trigger] self.room_map().dom().contains(r) implies self.room_map()[r].wf()
                            && !self.room_map()[r].members().is_empty() by {
                            assert(before.room_map().dom().contains(r));
                        }
                    }
                    LeaveOutcome { snapshot: Some(snapshot), room_removed: true }
                } else {
                    let key = room_id.to_owned();
                    rooms_insert(&mut self.rooms, key, room);
                    proof {
                        assert(self.listeners() == before.listeners());
                        assert(self.members() =~= before.members().insert(rid, before.members()[rid].remove(user@)));
                        assert forall|r: Seq<char>| #[trigger] self.room_map().dom().contains(r) implies self.room_map()[r].wf()
                            && !self.room_map()[r].members().is_empty() by {
                            if r != rid {
                                assert(before.room_map().dom().contains(r));
                            }
                        }
                    }
                    LeaveOutcome { snapshot: Some(snapshot), room_removed: false }
                }
            },
        }
    }

    /// Takes `user` out of the room stored under `key`; the room goes
    /// when it is left empty. Returns the room's new state when the user
    /// was in it.
    fn strip_room(&mut self, key: &String, user: &str) -> (res: Option<RoomUpdate>)
        requires
            old(self).room_map().dom().contains(key@),
            old(self).room_map()[key@].wf(),
            !old(self).room_map()[key@].members().is_empty(),
        ensures
            final(self).listeners() == old(self).listeners(),
            final(self).room_map().remove(key@) == old(self).room_map().remove(key@),
            room_done(final(self).room_map(), old(self).members()[key@].remove(user@), key@),
            !old(self).members()[key@].contains(user@) ==> res is None,
            old(self).members()[key@].contains(user@) ==> (res matches Some(u) && u.room_id@ == key@
                && u.room.wf() && u.room.members() == old(self).members()[key@].remove(user@)
                && u.removed == u.room.members().is_empty()),
    {
        let ghost before = *old(self);
        let ghost k = key@;
        match rooms_get(&self.rooms, key.as_str()) {
            None => None,
            Some(mut room) => {
                if room.remove(user) {
                    let snapshot = room.copy();
                    let removed = room.is_empty();
                    if removed {
                        rooms_remove(&mut self.rooms, key.as_str());
                        assert(self.room_map().remove(k) =~= before.room_map().remove(k));
                    } else {
                        rooms_insert(&mut self.rooms, key.clone(), room);
                        assert(self.room_map().remove(k) =~= before.room_map().remove(k));
                    }
                    Some(RoomUpdate { room_id: key.clone(), room: snapshot, removed })
                } else {
                    proof {
                        assert(before.members()[k].remove(user@) =~= before.members()[k]);
                    }
                    None
                }
            },
        }
    }

    /// One signal stream of `user` closes, leaving `streams_left` streams of
    /// the user open (the receivers that the user's signal channel still
    /// has): the user is taken out of every room (rooms left empty go), and
    /// leaves the listeners when no stream is left.
    fn stop_listening(&mut self, user: &str, streams_left: usize) -> (res: StopOutcome)
        requires
            old(self).wf(),
        ensures
            final(self).wf(),
            final(self).members() == without_user(old(self).members(), user@),
            streams_left == 0 ==> final(self).listeners() == old(self).listeners().remove(user@),
            streams_left > 0 ==> final(self).listeners() == old(self).listeners(),
            res.user_removed == (streams_left == 0),
            forall|t: int| #![trigger res.updates@[t]] 0 <= t < res.updates@.len() ==> update_ok(
                old(self).members(),
                user@,
                res.updates@[t],
            ),
            forall|t1: int, t2: int| 0 <= t1 < t2 < res.updates@.len() ==> res.updates@[t1].room_id@
                != res.updates@[t2].room_id@,
            forall|r: Seq<char>| old(self).members().dom().contains(r) && #[trigger] old(self).members()[r].contains(user@)
                ==> exists|t: int| 0 <= t < res.updates@.len() && #[trigger] res.updates@[t].room_id@ == r,
    {
        let ghost before = *old(self);
        let ghost target = without_user(before.members(), user@);
        let ghost holders = Set::new(|r: Seq<char>| before.members().dom().contains(r) && before.members()[r].contains(user@));
        let keys = rooms_keys(&self.rooms);
        let ghost keyv = user_views(keys@);
        let mut updates: Vec<RoomUpdate> = Vec::new();
        let ghost mut ids: Seq<Seq<char>> = Seq::empty();
        let mut i: usize = 0;
        proof {
            assert(keyv.no_duplicates()) by {
                assert forall|a: int, b: int| 0 <= a < keyv.len() && 0 <= b < keyv.len() && a != b implies keyv[a] != keyv[b] by {
                    if a < b {
                        assert(keys@[a]@ != keys@[b]@);
                    } else {
                        assert(keys@[b]@ != keys@[a]@);
                    }
                }
            }
        }
        while i < keys.len()
            invariant
                before.wf(),
                before == *old(self),
                keyv == user_views(keys@),
                holders == Set::new(|r: Seq<char>| before.members().dom().contains(r) && before.members()[r].contains(user@)),
                self.listeners() == before.listeners(),
                i <= keys@.len(),
                keyv.no_duplicates(),
                forall|j: int| 0 <= j < keys@.len() ==> before.room_map().dom().contains(#[trigger] keys@[j]@),
                forall|r: Seq<char>| before.room_map().dom().contains(r) ==> exists|j: int|
                    0 <= j < keys@.len() && #[trigger] keys@[j]@ == r,
                forall|j: int| 0 <= j < i ==> room_done(self.room_map(), before.members()[#[trigger] keys@[j]@].remove(user@), keys@[j]@),
                forall|j: int| i <= j < keys@.len() ==> room_untouched(self.room_map(), before.room_map(), #[trigger] keys@[j]@),
                forall|r: Seq<char>| #[trigger] self.room_map().dom().contains(r) ==> before.room_map().dom().contains(r),
                ids_progress(keyv, i as int, ids, holders),
                ids.len() == updates@.len(),
                forall|t: int| #![trigger updates@[t]] 0 <= t < updates@.len() ==> updates@[t].room_id@ == ids[t]
                    && update_ok(before.members(), user@, updates@[t]),
            decreases keys@.len() - i,
        {
            let ghost k = keys@[i as int]@;
            let ghost mid = *self;
            proof {
                assert(room_untouched(self.room_map(), before.room_map(), k));
                assert(before.room_map()[k].wf());
            }
            let step = self.strip_room(&keys[i], user);
            proof {
                assert forall|j: int| i + 1 <= j < keys@.len() implies room_untouched(self.room_map(), before.room_map(), #[trigger] keys@[j]@) by {
                    assert(keyv[j] != keyv[i as int]);
                    lemma_other_key(self.room_map(), mid.room_map(), k, keys@[j]@);
                }
                assert forall|j: int| 0 <= j < i + 1 implies room_done(self.room_map(), before.members()[#[trigger] keys@[j]@].remove(user@), keys@[j]@) by {
                    if j < i {
                        assert(keyv[j] != keyv[i as int]);
                        lemma_other_key(self.room_map(), mid.room_map(), k, keys@[j]@);
                    }
                }
                assert forall|r: Seq<char>| #[trigger] self.room_map().dom().contains(r) implies before.room_map().dom().contains(r) by {
                    if r != k {
                        lemma_other_key(self.room_map(), mid.room_map(), k, r);
                    }
                }
                assert(keyv[i as int] == k);
                assert(holders.contains(k) == before.members()[k].contains(user@));
                lemma_ids_step(keyv, i as int, ids, holders, step is Some);
            }
            match step {
                Some(u) => {
                    updates.push(u);
                    proof {
                        ids = ids.push(k);
                    }
                },
                None => {},
            }
            i = i + 1;
        }
        proof {
            assert(self.members() =~= target) by {
                assert forall|r: Seq<char>| self.members().dom().contains(r) <==> target.dom().contains(r) by {
                    if before.room_map().dom().contains(r) {
                        let j = choose|j: int| 0 <= j < keys@.len() && #[trigger] keys@[j]@ == r;
                        assert(room_done(self.room_map(), before.members()[keys@[j]@].remove(user@), keys@[j]@));
                    }
                }
                assert forall|r: Seq<char>| #[trigger] self.members().dom().contains(r) implies self.members()[r] == target[r] by {
                    let j = choose|j: int| 0 <= j < keys@.len() && #[trigger] keys@[j]@ == r;
                    assert(room_done(self.room_map(), before.members()[keys@[j]@].remove(user@), keys@[j]@));
                }
            }
            assert forall|r: Seq<char>| #[trigger] holders.contains(r) implies ids.contains(r) by {
                let j = choose|j: int| 0 <= j < keys@.len() && #[trigger] keys@[j]@ == r;
                assert(keyv[j] == r);
            }
        }
        let ghost mid = *self;
        if streams_left == 0 {
            listeners_remove(&mut self.users, user);
        }
        proof {
            assert(self.room_map() == mid.room_map());
            assert forall|r: Seq<char>| #[trigger] self.room_map().dom().contains(r) implies self.room_map()[r].wf()
                && !self.room_map()[r].members().is_empty() by {
                let j = choose|j: int| 0 <= j < keys@.len() && #[trigger] keys@[j]@ == r;
                assert(room_done(self.room_map(), before.members()[keys@[j]@].remove(user@), keys@[j]@));
            }
        }
        let res = StopOutcome { updates, user_removed: streams_left == 0 };
        proof {
            assert forall|r: Seq<char>| old(self).members().dom().contains(r) && #[trigger] old(self).members()[r].contains(user@)
                implies exists|t: int| 0 <= t < res.updates@.len() && #[trigger] res.updates@[t].room_id@ == r by {
                assert(holders.contains(r));
                let t = choose|t: int| 0 <= t < ids.len() && ids[t] == r;
                assert(res.updates@[t].room_id@ == r);
            }
            assert forall|t1: int, t2: int| 0 <= t1 < t2 < res.updates@.len() implies res.updates@[t1].room_id@
                != res.updates@[t2].room_id@ by {
                assert(res.updates@[t1].room_id@ == ids[t1]);
                assert(res.updates@[t2].room_id@ == ids[t2]);
            }
        }
        res
    }
}

impl RoomsStorage {
    /// What holds of every state: no room lists a user twice, no room is
    /// empty, and every listening user has a stream open.
    #[verifier::type_invariant]
    spec fn inv(self) -> bool {
        self.tables.wf()
    }

    /// The rooms, by id.
    pub closed spec fn room_map(&self) -> Map<Seq<char>, Room> {
        self.tables.room_map()
    }

    /// The members of each room, by room id.
    pub open spec fn members(&self) -> Map<Seq<char>, Set<Seq<char>>> {
        self.room_map().map_values(|r: Room| r.members())
    }

    /// The number of signal streams of each listening user, by user id.
    pub closed spec fn listeners(&self) -> Set<Seq<char>> {
        self.tables.listeners()
    }

    /// No rooms, no listeners.
    pub fn new() -> (res: RoomsStorage)
        ensures
            res.members() == Map::<Seq<char>, Set<Seq<char>>>::empty(),
            res.listeners() == Set::<Seq<char>>::empty(),
    {
        RoomsStorage { tables: RoomTables::new() }
    }

    /// Whether `user` listens for signals.
    pub fn is_listening(&self, user: &str) -> (res: bool)
        ensures
            res == self.listeners().contains(user@),
    {
        self.tables.is_listening(user)
    }

    /// The ids of the listening users, each once.
    pub fn user_ids(&self) -> (res: Vec<String>)
        ensures
            user_views(res@).no_duplicates(),
            user_views(res@).to_set() == self.listeners(),
    {
        self.tables.user_ids()
    }

    /// The ids of the rooms, each once.
    pub fn room_ids(&self) -> (res: Vec<String>)
        ensures
            user_views(res@).no_duplicates(),
            user_views(res@).to_set() == self.members().dom(),
    {
        self.tables.room_ids()
    }

    /// Opens a signal stream for `user`; `true` when `user` did not listen
    /// before (the service then makes the user's signal channel).
    pub fn listen(&mut self, user: String) -> (res: bool)
        ensures
            final(self).members() == old(self).members(),
            final(self).listeners() == old(self).listeners().insert(user@),
            res == !old(self).listeners().contains(user@),
    {
        proof {
            use_type_invariant(&*self);
        }
        let mut tables = RoomTables::new();
        std::mem::swap(&mut tables, &mut self.tables);
        let res = tables.listen(user);
        self.tables = tables;
        res
    }

    /// Puts `user` in room `room_id`, making the room when there is none
    /// (a room subscription starting).
    pub fn join_room(&mut self, room_id: String, user: String) -> (res: JoinOutcome)
        ensures
            final(self).members() == old(self).members().insert(
                room_id@,
                members_of(old(self).members(), room_id@).insert(user@),
            ),
            final(self).listeners() == old(self).listeners(),
            res.created == !old(self).members().dom().contains(room_id@),
            res.snapshot is Some == !members_of(old(self).members(), room_id@).contains(user@),
            res.snapshot matches Some(r) ==> r.wf() && r.members() == final(self).members()[room_id@],
    {
        proof {
            use_type_invariant(&*self);
        }
        let mut tables = RoomTables::new();
        std::mem::swap(&mut tables, &mut self.tables);
        let res = tables.join_room(room_id, user);
        self.tables = tables;
        res
    }

    /// Takes `user` out of room `room_id` (a room subscription ending); the
    /// room goes when nobody is left in it.
    pub fn leave_room(&mut self, room_id: &str, user: &str) -> (res: LeaveOutcome)
        ensures
            final(self).listeners() == old(self).listeners(),
            !members_of(old(self).members(), room_id@).contains(user@) ==> final(self).members()
                == old(self).members() && res.snapshot is None && !res.room_removed,
            members_of(old(self).members(), room_id@).contains(user@) ==> {
                let left = old(self).members()[room_id@].remove(user@);
                &&& res.snapshot matches Some(r) && r.wf() && r.members() == left
                &&& res.room_removed == left.is_empty()
                &&& left.is_empty() ==> final(self).members() == old(self).members().remove(room_id@)
                &&& !left.is_empty() ==> final(self).members() == old(self).members().insert(room_id@, left)
            },
    {
        proof {
            use_type_invariant(&*self);
        }
        let mut tables = RoomTables::new();
        std::mem::swap(&mut tables, &mut self.tables);
        let res = tables.leave_room(room_id, user);
        self.tables = tables;
        res
    }

    /// One signal stream of `user` closes, leaving `streams_left` streams of
    /// the user open (the receivers that the user's signal channel still
    /// has): the user is taken out of every room (rooms left empty go), and
    /// leaves the listeners when no stream is left.
    pub fn stop_listening(&mut self, user: &str, streams_left: usize) -> (res: StopOutcome)
        ensures
            final(self).members() == without_user(old(self).members(), user@),
            streams_left == 0 ==> final(self).listeners() == old(self).listeners().remove(user@),
            streams_left > 0 ==> final(self).listeners() == old(self).listeners(),
            res.user_removed == (streams_left == 0),
            forall|t: int| #![trigger res.updates@[t]] 0 <= t < res.updates@.len() ==> update_ok(
                old(self).members(),
                user@,
                res.updates@[t],
            ),
            forall|t1: int, t2: int| 0 <= t1 < t2 < res.updates@.len() ==> res.updates@[t1].room_id@
                != res.updates@[t2].room_id@,
            forall|r: Seq<char>| old(self).members().dom().contains(r) && #[trigger] old(self).members()[r].contains(user@)
                ==> exists|t: int| 0 <= t < res.updates@.len() && #[trigger] res.updates@[t].room_id@ == r,
    {
        proof {
            use_type_invariant(&*self);
        }
        let mut tables = RoomTables::new();
        std::mem::swap(&mut tables, &mut self.tables);
        let res = tables.stop_listening(user, streams_left);
        self.tables = tables;
        res
    }
}

/// Law: leaving a room undoes joining it, when the user was not in the room
/// before: the room comes back as it was, or goes again if joining made it.
pub proof fn law_leave_undoes_join(
    before: Map<Seq<char>, Set<Seq<char>>>,
    room: Seq<char>,
    user: Seq<char>,
)
    requires
        forall|r: Seq<char>| #[trigger] before.dom().contains(r) ==> !before[r].is_empty(),
        !members_of(before, room).contains(user),
    ensures
        ({
            let joined = before.insert(room, members_of(before, room).insert(user));
            let left = joined[room].remove(user);
            &&& left.is_empty() ==> joined.remove(room) == before
            &&& !left.is_empty() ==> joined.insert(room, left) == before
        }),
{
    let joined = before.insert(room, members_of(before, room).insert(user));
    let left = joined[room].remove(user);
    assert(left =~= members_of(before, room));
    if left.is_empty() {
        assert(!before.dom().contains(room));
        assert(joined.remove(room) =~= before);
    } else {
        assert(joined.insert(room, left) =~= before);
    }
}

/// Law: once a user's signal streams are all closed, the user is in no room
/// and no longer listens; and no room is left empty.
pub proof fn law_departed_user_is_gone(
    rooms: Map<Seq<char>, Set<Seq<char>>>,
    listeners: Map<Seq<char>, usize>,
    user: Seq<char>,
)
    ensures
        forall|r: Seq<char>| #[trigger] without_user(rooms, user).dom().contains(r) ==> !without_user(rooms, user)[r].contains(user)
            && !without_user(rooms, user)[r].is_empty(),
        !listeners.remove(user).dom().contains(user),
{
}

/// Law: a user's first signal stream, opened and closed again with no
/// stream of the user left, leaves the listeners as they were; so does a
/// further stream of a listening user that closes while others remain.
pub proof fn law_stop_undoes_listen(listeners: Set<Seq<char>>, user: Seq<char>)
    ensures
        !listeners.contains(user) ==> listeners.insert(user).remove(user) == listeners,
        listeners.contains(user) ==> listeners.insert(user) == listeners,
{
    assert(!listeners.contains(user) ==> listeners.insert(user).remove(user) =~= listeners);
    assert(listeners.contains(user) ==> listeners.insert(user) =~= listeners);
}

} // verus!
