//! The book store: books kept in a slab under numeric keys, their ids being
//! the keys in decimal, and the change events that creating and deleting
//! books announce.

use vstd::prelude::*;
use slab::Slab;
use crate::book_slab::{
    slab_books, slab_contains, slab_entries, slab_get, slab_insert, slab_new, slab_next_key,
    slab_free, slab_ok, slab_remove, slab_slots, slab_vacant_key,
};
use crate::keyed_broker::{keeps, KeyedBroker};
use crate::decimal::{decimal, parse_usize, parse_usize_spec, usize_to_decimal, ParseIdError};

verus! {

/// A book of the store.
#[derive(Clone, Debug)]
pub struct Book {
    pub id: String,
    pub name: String,
    pub author: String,
}

impl Book {
    /// A copy of the book.
    pub fn copy(&self) -> (res: Book)
        ensures
            res == *self,
    {
        Book { id: self.id.clone(), name: self.name.clone(), author: self.author.clone() }
    }
}

/// What happened to a book.
#[derive(Debug, Clone, Copy, PartialEq, Eq, Structural)]
pub enum MutationType {
    Created,
    Deleted,
}

/// The event announced when a book is created or deleted.
#[derive(Debug)]
pub struct BookChanged {
    pub mutation_type: MutationType,
    pub id: String,
}

impl Clone for BookChanged {
    fn clone(&self) -> (res: Self)
        ensures
            res == *self,
    {
        BookChanged { mutation_type: self.mutation_type, id: self.id.clone() }
    }
}

/// The key under which book events are published: the empty one.
pub open spec fn book_events_key() -> Seq<char> {
    Seq::empty()
}

/// `after` is `before` with one event of kind `mutation_type` about book
/// `id` handed to every subscriber of book events, and nothing else changed.
pub open spec fn announced(
    before: KeyedBroker<BookChanged>,
    after: KeyedBroker<BookChanged>,
    mutation_type: MutationType,
    id: Seq<char>,
) -> bool {
    &&& forall|k: Seq<char>| #[trigger] after.subscribers(k) == before.subscribers(k)
    &&& forall|s: usize| #[trigger] before.subscribers(book_events_key()).contains(s) ==> {
        let h = after.handed(book_events_key(), s);
        &&& h.len() == before.handed(book_events_key(), s).len() + 1
        &&& h.drop_last() == before.handed(book_events_key(), s)
        &&& h.last().mutation_type == mutation_type
        &&& h.last().id@ == id
        &&& after.inbox(book_events_key(), s) == before.inbox(book_events_key(), s)
    }
    &&& forall|k: Seq<char>, s: usize| k != book_events_key() && #[trigger] before.subscribers(k).contains(s)
        ==> after.handed(k, s) == before.handed(k, s) && after.inbox(k, s) == before.inbox(k, s)
}

/// Hands `event` to every subscriber of book events.
fn announce(events: &mut KeyedBroker<BookChanged>, event: BookChanged)
    ensures
        announced(*old(events), *final(events), event.mutation_type, event.id@),
{
    let ghost before = *old(events);
    let ghost ev = event;
    let key = String::new();
    assert(key@ == book_events_key());
    let _ = events.publish(key, event);
    proof {
        assert forall|s: usize| #[trigger] before.subscribers(book_events_key()).contains(s) implies {
            let h = events.handed(book_events_key(), s);
            &&& h.len() == before.handed(book_events_key(), s).len() + 1
            &&& h.drop_last() == before.handed(book_events_key(), s)
            &&& h.last().mutation_type == ev.mutation_type
            &&& h.last().id@ == ev.id@
            &&& events.inbox(book_events_key(), s) == before.inbox(book_events_key(), s)
        } by {
            let h = events.handed(book_events_key(), s);
            assert(cloned(ev, h.last()));
        }
    }
}

/// Whether an event of kind `mutation_type` is told to a subscriber that
/// asked for `filter` (all events when `None`).
pub open spec fn wanted(mutation_type: MutationType, filter: Option<MutationType>) -> bool {
    match filter {
        Some(t) => mutation_type == t,
        None => true,
    }
}

/// An event as its kind and the characters of the book's id.
pub open spec fn event_view(e: BookChanged) -> (MutationType, Seq<char>) {
    (e.mutation_type, e.id@)
}

/// Of a run of operations on the book events, each an announcement
/// `Some((kind, id))` or `None` for any other, the announcements in order.
pub open spec fn announcements(ops: Seq<Option<(MutationType, Seq<char>)>>) -> Seq<(MutationType, Seq<char>)>
    decreases ops.len(),
{
    if ops.len() == 0 {
        Seq::empty()
    } else {
        let earlier = announcements(ops.drop_last());
        match ops.last() {
            Some(e) => earlier.push(e),
            None => earlier,
        }
    }
}

/// `brokers` are the states of the book events along the run `ops`: step
/// `i` is an announcement by `announced`, or another operation that keeps
/// subscriber `s` of book events.
pub open spec fn book_run_of(
    brokers: Seq<KeyedBroker<BookChanged>>,
    ops: Seq<Option<(MutationType, Seq<char>)>>,
    s: usize,
) -> bool {
    &&& brokers.len() == ops.len() + 1
    &&& forall|i: int| 0 <= i < ops.len() ==> match #[trigger] ops[i] {
        Some((t, id)) => announced(brokers[i], brokers[i + 1], t, id),
        None => keeps(brokers[i], brokers[i + 1], book_events_key(), s),
    }
}

impl BookChanged {
    /// Whether a subscriber that asked for `filter` (all events when `None`)
    /// is told of this event.
    pub fn matches(&self, filter: Option<MutationType>) -> (res: bool)
        ensures
            res == wanted(self.mutation_type, filter),
    {
        match filter {
            Some(t) => self.mutation_type == t,
            None => true,
        }
    }
}

/// The books of the service, kept in a slab.
pub struct BookStore {
    books: Slab<Book>,
}

/// Each book is stored under the key that its id writes in decimal.
pub open spec fn ids_match_keys(m: Map<usize, Book>) -> bool {
    forall|k: usize| m.dom().contains(k) ==> #[trigger] m[k].id@ == decimal(k as nat)
}

/// The book that `id` names, when `id` is the decimal text of a key.
pub open spec fn lookup_spec(m: Map<usize, Book>, id: Seq<char>) -> Result<Option<Book>, ParseIdError> {
    match parse_usize_spec(id) {
        Ok(k) => Ok(
            if m.dom().contains(k as usize) {
                Some(m[k as usize])
            } else {
                None
            },
        ),
        Err(e) => Err(e),
    }
}

impl View for BookStore {
    type V = Map<usize, Book>;

    closed spec fn view(&self) -> Map<usize, Book> {
        slab_books(self.books)
    }
}

impl BookStore {
    /// What holds of every store: the ids of the books agree with their
    /// keys, and the slab keeps its own invariant.
    #[verifier::type_invariant]
    spec fn inv(self) -> bool {
        &&& ids_match_keys(self@)
        &&& slab_ok(self.books)
    }

    /// The key under which the next created book is stored.
    pub closed spec fn next_key(&self) -> usize {
        if self.free_keys().len() > 0 {
            self.free_keys()[0]
        } else {
            self.slot_count() as usize
        }
    }

    /// The free keys, in the order in which new books take them: the key
    /// freed last comes first.
    pub closed spec fn free_keys(&self) -> Seq<usize> {
        slab_free(self.books)
    }

    /// The number of keys in use or free; a book made when no key is free
    /// takes this one.
    pub closed spec fn slot_count(&self) -> nat {
        slab_slots(self.books)
    }

    /// No key is free now: the books sit under `0 .. len` and the next book
    /// goes under `len`.
    pub closed spec fn dense(&self) -> bool {
        &&& slab_next_key(self.books) == slab_slots(self.books)
        &&& self@.len() == slab_slots(self.books)
    }

    /// An empty store.
    pub fn new() -> (res: BookStore)
        ensures
            res.dense(),
            res@ == Map::<usize, Book>::empty(),
            res.free_keys() == Seq::<usize>::empty(),
            res.slot_count() == 0,
    {
        let res = BookStore { books: slab_new() };
        assert(res@ =~= Map::<usize, Book>::empty());
        res
    }

    /// All books, in ascending order of their keys.
    pub fn books(&self) -> (res: Vec<Book>)
        ensures
            exists|keys: Seq<usize>|
                #![trigger keys.len()]
                {
                    &&& keys.len() == res@.len()
                    &&& forall|i: int, j: int| 0 <= i < j < keys.len() ==> keys[i] < keys[j]
                    &&& forall|i: int| 0 <= i < keys.len() ==> #[trigger] self@.dom().contains(keys[i])
                        && self@[keys[i]] == res@[i]
                    &&& forall|k: usize| #[trigger] self@.dom().contains(k) ==> keys.contains(k)
                },
    {
        let (keys, res) = slab_entries(&self.books);
        assert(keys@.len() == res@.len());
        res
    }

    /// Stores a new book under the next free key; its id is that key in
    /// decimal. The `Created` event is handed to the subscribers of book
    /// events. Returns the id.
    pub fn create_book(&mut self, events: &mut KeyedBroker<BookChanged>, name: String, author: String) -> (res: String)
        ensures
            !old(self)@.dom().contains(old(self).next_key()),
            res@ == decimal(old(self).next_key() as nat),
            final(self)@ == old(self)@.insert(
                old(self).next_key(),
                Book { id: res, name, author },
            ),
            announced(*old(events), *final(events), MutationType::Created, res@),
            old(self).dense() ==> old(self).next_key() == old(self)@.len() && final(self).dense(),
            old(self).next_key() == if old(self).free_keys().len() > 0 {
                old(self).free_keys()[0] as int
            } else {
                old(self).slot_count() as int
            },
            old(self).free_keys().len() > 0 ==> final(self).free_keys() == old(self).free_keys().drop_first()
                && final(self).slot_count() == old(self).slot_count(),
            old(self).free_keys().len() == 0 ==> final(self).free_keys() == Seq::<usize>::empty()
                && final(self).slot_count() == old(self).slot_count() + 1,
    {
        proof {
            use_type_invariant(&*self);
        }
        let key = slab_vacant_key(&self.books);
        let id = usize_to_decimal(key);
        let book = Book { id: id.clone(), name, author };
        let ghost before = *old(self);
        let mut books = slab_new();
        std::mem::swap(&mut books, &mut self.books);
        let k2 = slab_insert(&mut books, book);
        assert(k2 == key);
        assert(ids_match_keys(slab_books(books))) by {
            assert forall|k: usize| #[trigger] slab_books(books).dom().contains(k) implies slab_books(
                books,
            )[k].id@ == decimal(k as nat) by {
                if k != key {
                    assert(before@.dom().contains(k));
                }
            }
        }
        self.books = books;
        proof {
            if before.dense() {
                let d = before@.dom();
                assert(d.finite());
                assert(!d.contains(key));
                assert(self@.dom() =~= d.insert(key));
            }
        }
        let event = BookChanged { mutation_type: MutationType::Created, id: id.clone() };
        announce(events, event);
        id
    }

    /// Deletes the book that `id` names. `Err` when `id` is no decimal
    /// number; `Ok(false)` when no book has that key; else the book is gone,
    /// the `Deleted` event is handed to the subscribers of book events, and
    /// the answer is `Ok(true)`.
    pub fn delete_book(&mut self, events: &mut KeyedBroker<BookChanged>, id: &str) -> (res: Result<bool, ParseIdError>)
        ensures
            match parse_usize_spec(id@) {
                Err(e) => res == Err::<bool, ParseIdError>(e) && final(self)@
                    == old(self)@ && final(self).next_key() == old(self).next_key()
                    && final(self).free_keys() == old(self).free_keys()
                    && final(self).slot_count() == old(self).slot_count()
                    && *final(events) == *old(events),
                Ok(k) => if old(self)@.dom().contains(k as usize) {
                    res == Ok::<bool, ParseIdError>(true) && final(self)@ == old(self)@.remove(k as usize)
                        && final(self).next_key() == k as usize
                        && final(self).free_keys() == seq![k as usize] + old(self).free_keys()
                        && final(self).slot_count() == old(self).slot_count()
                        && announced(*old(events), *final(events), MutationType::Deleted, decimal(k))
                } else {
                    res == Ok::<bool, ParseIdError>(false) && final(self)@
                        == old(self)@ && final(self).next_key() == old(self).next_key()
                        && final(self).free_keys() == old(self).free_keys()
                        && final(self).slot_count() == old(self).slot_count()
                        && *final(events) == *old(events)
                },
            },
    {
        proof {
            use_type_invariant(&*self);
        }
        let ghost before = *old(self);
        let key = match parse_usize(id) {
            Ok(k) => k,
            Err(e) => {
                return Err(e);
            },
        };
        if slab_contains(&self.books, key) {
            let event = BookChanged {
                mutation_type: MutationType::Deleted,
                id: usize_to_decimal(key),
            };
            let mut books = slab_new();
            std::mem::swap(&mut books, &mut self.books);
            let _ = slab_remove(&mut books, key);
            assert(ids_match_keys(slab_books(books))) by {
                assert forall|k: usize| #[trigger] slab_books(books).dom().contains(k) implies slab_books(
                    books,
                )[k].id@ == decimal(k as nat) by {
                    assert(before@.dom().contains(k));
                }
            }
            self.books = books;
            announce(events, event);
            Ok(true)
        } else {
            Ok(false)
        }
    }

    /// The book that `id` names.
    pub fn book(&self, id: &str) -> (res: Result<Option<Book>, ParseIdError>)
        ensures
            res == lookup_spec(self@, id@),
    {
        match parse_usize(id) {
            Ok(k) => Ok(slab_get(&self.books, k)),
            Err(e) => Err(e),
        }
    }
}

/// The number an interval subscription yields after `ticks` ticks of step `n`.
pub open spec fn interval_value(ticks: nat, n: int) -> int {
    ticks * n
}

/// One tick of an interval subscription: the running value grows by `n`.
/// `None` where the sum leaves the range of `i32`.
pub fn interval_step(value: i32, n: i32) -> (res: Option<i32>)
    ensures
        i32::MIN <= value + n <= i32::MAX ==> res == Some((value + n) as i32),
        !(i32::MIN <= value + n <= i32::MAX) ==> res is None,
{
    value.checked_add(n)
}

/// Law: a book stored under a key is found again by its id (the key in
/// decimal).
pub proof fn law_created_book_is_found(before: Map<usize, Book>, key: usize, book: Book)
    requires
        book.id@ == decimal(key as nat),
    ensures
        lookup_spec(before.insert(key, book), book.id@) == Ok::<Option<Book>, ParseIdError>(Some(book)),
{
    crate::decimal::law_parse_reads_back_decimal(key);
}

/// Law: once the book under a key is deleted, its id finds nothing, and a
/// second deletion by the same id finds nothing to delete.
pub proof fn law_deleted_book_is_gone(before: Map<usize, Book>, key: usize)
    ensures
        lookup_spec(before.remove(key), decimal(key as nat)) == Ok::<Option<Book>, ParseIdError>(None),
{
    crate::decimal::law_parse_reads_back_decimal(key);
}

/// Law: books under different keys have different ids.
pub proof fn law_ids_are_distinct(k1: usize, k2: usize)
    requires
        k1 != k2,
    ensures
        decimal(k1 as nat) != decimal(k2 as nat),
{
    crate::decimal::law_parse_reads_back_decimal(k1);
    crate::decimal::law_parse_reads_back_decimal(k2);
}

/// Law: after `ticks` ticks of step `n` from zero, one more tick adds `n`.
pub proof fn law_interval_accumulates(ticks: nat, n: int)
    ensures
        interval_value(ticks + 1, n) == interval_value(ticks, n) + n,
{
    assert((ticks + 1) * n == ticks * n + n) by (nonlinear_arith);
}

/// Law: keys freed by deletions are taken by later creations in reverse
/// order, the key freed last first. `s0` to `s4` are the states of a store
/// along two deletions that removed books under `k1` and then `k2`, and two
/// creations after them, as `delete_book` and `create_book` state them;
/// the two created books go under `k2` and then `k1`, and the free keys are
/// those from before the deletions again.
pub proof fn law_freed_keys_reused_last_first(
    s0: BookStore,
    s1: BookStore,
    s2: BookStore,
    s3: BookStore,
    s4: BookStore,
    k1: usize,
    k2: usize,
)
    requires
        s1.free_keys() == seq![k1] + s0.free_keys(),
        s2.free_keys() == seq![k2] + s1.free_keys(),
        s2.free_keys().len() > 0 ==> s3.free_keys() == s2.free_keys().drop_first(),
        s3.free_keys().len() > 0 ==> s4.free_keys() == s3.free_keys().drop_first(),
    ensures
        s2.next_key() == k2,
        s3.next_key() == k1,
        s4.free_keys() == s0.free_keys(),
{
    assert(s3.free_keys() =~= seq![k1] + s0.free_keys());
    assert(s4.free_keys() =~= s0.free_keys());
}

/// Law: a subscriber of book events is handed exactly the events announced
/// after it subscribed, in order; so what passes its filter is exactly the
/// announced events of the kind it asked for, in order.
pub proof fn law_books_subscription_sees_announced_events(
    brokers: Seq<KeyedBroker<BookChanged>>,
    ops: Seq<Option<(MutationType, Seq<char>)>>,
    s: usize,
    filter: Option<MutationType>,
)
    requires
        book_run_of(brokers, ops, s),
        brokers[0].subscribers(book_events_key()).contains(s),
        brokers[0].handed(book_events_key(), s) == Seq::<BookChanged>::empty(),
    ensures
        brokers.last().subscribers(book_events_key()).contains(s),
        brokers.last().handed(book_events_key(), s).map_values(|e: BookChanged| event_view(e))
            == announcements(ops),
        brokers.last().handed(book_events_key(), s).map_values(|e: BookChanged| event_view(e)).filter(
            |e: (MutationType, Seq<char>)| wanted(e.0, filter),
        ) == announcements(ops).filter(|e: (MutationType, Seq<char>)| wanted(e.0, filter)),
    decreases ops.len(),
{
    let n = ops.len() as int;
    let key = book_events_key();
    if n > 0 {
        let bs = brokers.drop_last();
        let os = ops.drop_last();
        assert forall|i: int| 0 <= i < os.len() implies match #[trigger] os[i] {
            Some((t, id)) => announced(bs[i], bs[i + 1], t, id),
            None => keeps(bs[i], bs[i + 1], key, s),
        } by {
            assert(os[i] == ops[i]);
            assert(bs[i] == brokers[i] && bs[i + 1] == brokers[i + 1]);
        }
        law_books_subscription_sees_announced_events(bs, os, s, filter);
        let prev = bs.last();
        assert(prev == brokers[n - 1]);
        let last = brokers.last();
        assert(last == brokers[n]);
        let step = ops[n - 1];
        assert(step == ops.last());
        let hp = prev.handed(key, s);
        let h = last.handed(key, s);
        match step {
            Some((t, id)) => {
                assert(announced(prev, last, t, id));
                assert(prev.subscribers(key).contains(s));
                assert(h.drop_last() == hp);
                assert(h.map_values(|e: BookChanged| event_view(e)) =~= hp.map_values(
                    |e: BookChanged| event_view(e),
                ).push((t, id))) by {
                    assert forall|j: int| 0 <= j < hp.len() implies h[j] == hp[j] by {
                        assert(h[j] == h.drop_last()[j]);
                    }
                }
            },
            None => {
                assert(keeps(prev, last, key, s));
            },
        }
    } else {
        assert(brokers.last() == brokers[0]);
        assert(brokers[0].handed(key, s).map_values(|e: BookChanged| event_view(e)) =~= Seq::empty());
    }
}

} // verus!
