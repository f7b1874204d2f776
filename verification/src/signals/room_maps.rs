//! The two `dashmap::DashMap`s of the signaling state, behind trusted items:
//! the rooms by id, and the number of signal listeners by user id. Each item
//! calls one method of `DashMap` and states what it does to the map's
//! contents, as the crate's source shows it.
//!
//! The wrappers take the map by `&mut` where the method changes its contents
//! (`DashMap` itself needs only `&`), so that the contents are a function of
//! the map's value.

use vstd::prelude::*;
use dashmap::DashMap;
use crate::signals::models::Room;

verus! {

#[verifier::external_type_specification]
#[verifier::external_body]
#[verifier::reject_recursive_types(K)]
#[verifier::reject_recursive_types(V)]
#[verifier::reject_recursive_types(S)]
pub struct ExDashMap<K, V, S>(DashMap<K, V, S>);

/// The rooms a map holds, by room id.
pub uninterp spec fn room_entries(m: DashMap<String, Room>) -> Map<Seq<char>, Room>;

/// The user ids a map of listeners holds.
pub uninterp spec fn listener_entries(m: DashMap<String, ()>) -> Set<Seq<char>>;

/// `DashMap::new`: a map of no rooms.
#[verifier::external_body]
pub(crate) fn rooms_new() -> (res: DashMap<String, Room>)
    ensures
        room_entries(res).dom() == Set::<Seq<char>>::empty(),
{
    DashMap::new()
}

/// `DashMap::get`, the room cloned out.
#[verifier::external_body]
pub(crate) fn rooms_get(m: &DashMap<String, Room>, key: &str) -> (res: Option<Room>)
    ensures
        room_entries(*m).dom().contains(key@) ==> res is Some && res.unwrap().users@
            == room_entries(*m)[key@].users@,
        !room_entries(*m).dom().contains(key@) ==> res is None,
{
    m.get(key).map(|r| r.value().copy())
}

/// `DashMap::insert`: stores the room under `key`, replacing what was there.
#[verifier::external_body]
pub(crate) fn rooms_insert(m: &mut DashMap<String, Room>, key: String, room: Room)
    ensures
        room_entries(*final(m)) == room_entries(*old(m)).insert(key@, room),
{
    m.insert(key, room);
}

/// `DashMap::remove`: takes the room of `key` out of the map.
#[verifier::external_body]
pub(crate) fn rooms_remove(m: &mut DashMap<String, Room>, key: &str)
    ensures
        room_entries(*final(m)) == room_entries(*old(m)).remove(key@),
{
    m.remove(key);
}

/// `DashMap::iter`, each key cloned out: the ids of the rooms, every one
/// once, in the order the map walks them (about which nothing is stated).
#[verifier::external_body]
pub(crate) fn rooms_keys(m: &DashMap<String, Room>) -> (res: Vec<String>)
    ensures
        forall|i: int, j: int| 0 <= i < j < res@.len() ==> res@[i]@ != res@[j]@,
        forall|i: int| 0 <= i < res@.len() ==> room_entries(*m).dom().contains(#[trigger] res@[i]@),
        forall|k: Seq<char>| room_entries(*m).dom().contains(k) ==> exists|i: int|
            0 <= i < res@.len() && #[trigger] res@[i]@ == k,
{
    m.iter().map(|e| e.key().clone()).collect()
}

/// `DashMap::new`: a map of no listeners.
#[verifier::external_body]
pub(crate) fn listeners_new() -> (res: DashMap<String, ()>)
    ensures
        listener_entries(res) == Set::<Seq<char>>::empty(),
{
    DashMap::new()
}

/// `DashMap::contains_key`: whether `key` is in the map.
#[verifier::external_body]
pub(crate) fn listeners_contains(m: &DashMap<String, ()>, key: &str) -> (res: bool)
    ensures
        res == listener_entries(*m).contains(key@),
{
    m.contains_key(key)
}

/// `DashMap::insert`: puts `key` in the map.
#[verifier::external_body]
pub(crate) fn listeners_insert(m: &mut DashMap<String, ()>, key: String)
    ensures
        listener_entries(*final(m)) == listener_entries(*old(m)).insert(key@),
{
    m.insert(key, ());
}

/// `DashMap::remove`: takes `key` out of the map.
#[verifier::external_body]
pub(crate) fn listeners_remove(m: &mut DashMap<String, ()>, key: &str)
    ensures
        listener_entries(*final(m)) == listener_entries(*old(m)).remove(key@),
{
    m.remove(key);
}

/// `DashMap::iter`, each key cloned out: the user ids, every one once, in
/// the order the map walks them (about which nothing is stated).
#[verifier::external_body]
pub(crate) fn listeners_keys(m: &DashMap<String, ()>) -> (res: Vec<String>)
    ensures
        forall|i: int, j: int| 0 <= i < j < res@.len() ==> res@[i]@ != res@[j]@,
        forall|i: int| 0 <= i < res@.len() ==> listener_entries(*m).contains(#[trigger] res@[i]@),
        forall|k: Seq<char>| listener_entries(*m).contains(k) ==> exists|i: int|
            0 <= i < res@.len() && #[trigger] res@[i]@ == k,
{
    m.iter().map(|e| e.key().clone()).collect()
}

} // verus!
