//! The `slab::Slab` that holds the books, behind trusted items: each one
//! calls one method of `slab` and states what that method does to the
//! contents of the slab, as the slab's source shows it.

use vstd::prelude::*;
use slab::Slab;
use crate::books::Book;

verus! {

#[verifier::external_type_specification]
#[verifier::external_body]
#[verifier::reject_recursive_types(T)]
pub struct ExSlab<T>(Slab<T>);

/// The books a slab holds, by key.
pub uninterp spec fn slab_books(s: Slab<Book>) -> Map<usize, Book>;

/// The key that the slab hands to the next inserted book.
pub uninterp spec fn slab_next_key(s: Slab<Book>) -> usize;

/// The number of slots of the slab's entry vector, taken or free.
pub uninterp spec fn slab_slots(s: Slab<Book>) -> nat;

/// The free slots of the slab, in the order in which insertions take them
/// (the slab's chain of vacant entries, starting at its next key).
pub uninterp spec fn slab_free(s: Slab<Book>) -> Seq<usize>;

/// What holds of every slab: finitely many books, every key below the
/// number of slots, the free slots exactly the slots below that number that
/// hold no book, each once, and the next key the first free slot or, when
/// none is free, the slot past the end.
pub open spec fn slab_ok(s: Slab<Book>) -> bool {
    &&& slab_books(s).dom().finite()
    &&& forall|k: usize| #[trigger] slab_books(s).dom().contains(k) ==> k < slab_slots(s)
    &&& slab_free(s).no_duplicates()
    &&& forall|i: int| 0 <= i < slab_free(s).len() ==> #[trigger] slab_free(s)[i] < slab_slots(s)
        && !slab_books(s).dom().contains(slab_free(s)[i])
    &&& forall|k: usize| k < slab_slots(s) && !#[trigger] slab_books(s).dom().contains(k) ==> slab_free(s).contains(k)
    &&& slab_next_key(s) == if slab_free(s).len() > 0 {
        slab_free(s)[0] as int
    } else {
        slab_slots(s) as int
    }
}

/// `Slab::new`: a slab with no slots, whose first key is 0.
#[verifier::external_body]
pub(crate) fn slab_new() -> (res: Slab<Book>)
    ensures
        slab_books(res).dom() == Set::<usize>::empty(),
        slab_ok(res),
        slab_slots(res) == 0,
        slab_next_key(res) == 0,
        slab_free(res) == Seq::<usize>::empty(),
{
    Slab::new()
}

/// `Slab::vacant_key`: the key of the next insertion, which is free.
#[verifier::external_body]
pub(crate) fn slab_vacant_key(s: &Slab<Book>) -> (k: usize)
    ensures
        k == slab_next_key(*s),
        !slab_books(*s).dom().contains(k),
{
    s.vacant_key()
}

/// `Slab::insert`: stores the book under the free key that `vacant_key`
/// names, and returns that key. When that key is the slot past the end, a
/// slot is added and the next key is the one past it; otherwise the slot
/// count stays and the key leaves the front of the free slots.
#[verifier::external_body]
pub(crate) fn slab_insert(s: &mut Slab<Book>, b: Book) -> (k: usize)
    ensures
        k == slab_next_key(*old(s)),
        !slab_books(*old(s)).dom().contains(k),
        slab_books(*final(s)) == slab_books(*old(s)).insert(k, b),
        slab_ok(*final(s)),
        k == slab_slots(*old(s)) ==> slab_slots(*final(s)) == slab_slots(*old(s)) + 1
            && slab_next_key(*final(s)) == slab_slots(*final(s)),
        k < slab_slots(*old(s)) ==> slab_slots(*final(s)) == slab_slots(*old(s)),
        slab_free(*old(s)).len() > 0 ==> slab_free(*final(s)) == slab_free(*old(s)).drop_first(),
        slab_free(*old(s)).len() == 0 ==> slab_free(*final(s)) == Seq::<usize>::empty(),
{
    s.insert(b)
}

/// `Slab::contains`: whether a book is stored under `k`.
#[verifier::external_body]
pub(crate) fn slab_contains(s: &Slab<Book>, k: usize) -> (res: bool)
    ensures
        res == slab_books(*s).dom().contains(k),
{
    s.contains(k)
}

/// `Slab::get`, the book cloned out.
#[verifier::external_body]
pub(crate) fn slab_get(s: &Slab<Book>, k: usize) -> (res: Option<Book>)
    ensures
        slab_books(*s).dom().contains(k) ==> res == Some(slab_books(*s)[k]),
        !slab_books(*s).dom().contains(k) ==> res is None,
{
    s.get(k).map(|b| b.copy())
}

/// `Slab::remove`: takes the book stored under `k` out of the slab; the
/// freed key goes to the front of the free slots (it is the next one handed
/// out), and the slot count stays.
#[verifier::external_body]
pub(crate) fn slab_remove(s: &mut Slab<Book>, k: usize) -> (res: Book)
    requires
        slab_books(*old(s)).dom().contains(k),
    ensures
        res == slab_books(*old(s))[k],
        slab_books(*final(s)) == slab_books(*old(s)).remove(k),
        slab_ok(*final(s)),
        slab_next_key(*final(s)) == k,
        slab_slots(*final(s)) == slab_slots(*old(s)),
        slab_free(*final(s)) == seq![k] + slab_free(*old(s)),
{
    s.remove(k)
}

/// `Slab::iter`, each book cloned out: the keys of the stored books in
/// ascending order, every one once, and beside them the books.
#[verifier::external_body]
pub(crate) fn slab_entries(s: &Slab<Book>) -> (res: (Vec<usize>, Vec<Book>))
    ensures
        res.0@.len() == res.1@.len(),
        forall|i: int, j: int| 0 <= i < j < res.0@.len() ==> res.0@[i] < res.0@[j],
        forall|i: int| 0 <= i < res.0@.len() ==> slab_books(*s).dom().contains(#[trigger] res.0@[i])
            && slab_books(*s)[res.0@[i]] == res.1@[i],
        forall|k: usize| slab_books(*s).dom().contains(k) ==> res.0@.contains(k),
{
    s.iter().map(|(k, b)| (k, b.copy())).unzip()
}

} // verus!
