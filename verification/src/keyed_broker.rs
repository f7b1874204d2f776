//! A keyed publish/subscribe registry: subscribers register under a key and
//! receive, through an unbounded `futures` channel, every message published
//! under that key. In ghost code each subscriber keeps the list of messages
//! handed to its channel, and the channel's receiving half.
//!
//! The registry is a value; the service keeps one per message type behind a
//! lock, and each subscription stream takes its subscriber out again when it
//! is dropped.

use vstd::prelude::*;
use futures::channel::mpsc::{UnboundedReceiver, UnboundedSender};
use crate::text::str_eq;

verus! {

#[verifier::external_type_specification]
#[verifier::external_body]
#[verifier::reject_recursive_types(T)]
pub struct ExUnboundedSender<T>(UnboundedSender<T>);

#[verifier::external_type_specification]
#[verifier::external_body]
#[verifier::reject_recursive_types(T)]
pub struct ExUnboundedReceiver<T>(UnboundedReceiver<T>);

/// A new subscriber with id `id` and its own channel, made by
/// `futures::channel::mpsc::unbounded`, which hands out the two halves of
/// one channel: the subscriber keeps the sending half, and the receiving
/// half is returned. In ghost code the subscriber's log of handed messages
/// starts empty, its `inbox` is the returned receiving half, and its
/// `outlet` is the sending half made with it, which is the one it keeps.
#[verifier::external_body]
fn new_subscriber<T>(id: usize) -> (res: (Subscriber<T>, UnboundedReceiver<T>))
    ensures
        res.0.id == id,
        res.0.handed@ == Seq::<T>::empty(),
        res.0.inbox@ == res.1,
        res.0.outlet@ == res.0.sender,
{
    let (sender, receiver) = futures::channel::mpsc::unbounded();
    (Subscriber { id, sender, handed: Ghost(Seq::empty()), inbox: Ghost(receiver), outlet: Ghost(sender) }, receiver)
}

/// `UnboundedSender::start_send` on the subscriber's channel: hands `msg` to
/// the channel, which is recorded at the end of the subscriber's `handed`
/// log. Sending leaves the sending half itself as it was (it only pushes
/// onto the channel's shared queue). The result (`true` when the channel
/// took the message, which depends on whether its receiving half is still
/// there) is not stated.
#[verifier::external_body]
fn start_send<T>(sub: &mut Subscriber<T>, msg: T) -> (res: bool)
    ensures
        final(sub).id == old(sub).id,
        final(sub).handed@ == old(sub).handed@.push(msg),
        final(sub).inbox == old(sub).inbox,
        final(sub).sender == old(sub).sender,
        final(sub).outlet == old(sub).outlet,
{
    sub.sender.start_send(msg).is_ok()
}

/// One registered subscriber: its id, the sending half of its channel, and
/// (in ghost code) the messages handed to the channel so far, the channel's
/// receiving half, and the sending half that was made with that receiving
/// half.
#[verifier::reject_recursive_types(T)]
struct Subscriber<T> {
    id: usize,
    sender: UnboundedSender<T>,
    handed: Ghost<Seq<T>>,
    inbox: Ghost<UnboundedReceiver<T>>,
    outlet: Ghost<UnboundedSender<T>>,
}

/// The subscribers of one key.
#[verifier::reject_recursive_types(T)]
struct Topic<T> {
    key: String,
    subscribers: Vec<Subscriber<T>>,
}

/// The entries of the registry: for each key, the subscribers registered
/// under it.
#[verifier::reject_recursive_types(T)]
struct Registry<T> {
    topics: Vec<Topic<T>>,
}

/// The registry: for each key, the subscribers registered under it.
#[verifier::reject_recursive_types(T)]
pub struct KeyedBroker<T> {
    reg: Registry<T>,
}

/// `after` is `before` with one more message at the end, a clone of `msg`.
pub open spec fn handed_once<T: Clone>(before: Seq<T>, after: Seq<T>, msg: T) -> bool {
    &&& after.len() == before.len() + 1
    &&& after.drop_last() == before
    &&& cloned(msg, after.last())
}

/// `after` is `before` after one publication of `msg` under `key`: the
/// subscribers are the same, each subscriber of `key` has been handed one
/// more message, a clone of `msg`, and the subscribers of other keys have
/// been handed nothing.
pub open spec fn published<T: Clone>(before: KeyedBroker<T>, after: KeyedBroker<T>, key: Seq<char>, msg: T) -> bool {
    &&& forall|k: Seq<char>| #[trigger] after.subscribers(k) == before.subscribers(k)
    &&& forall|id: usize| #[trigger] before.subscribers(key).contains(id) ==> handed_once(
        before.handed(key, id),
        after.handed(key, id),
        msg,
    )
    &&& forall|k: Seq<char>, id: usize| k != key && #[trigger] before.subscribers(k).contains(id)
        ==> after.handed(k, id) == before.handed(k, id)
}

/// Subscriber `id` of `key` is still registered in `after` and has been
/// handed nothing since `before` (what a subscription or an unsubscription
/// of another subscriber leaves it).
pub open spec fn keeps<T>(before: KeyedBroker<T>, after: KeyedBroker<T>, key: Seq<char>, id: usize) -> bool {
    &&& after.subscribers(key).contains(id)
    &&& after.handed(key, id) == before.handed(key, id)
}

/// Of a run of operations on a registry, each a publication `Some((k, m))`
/// of `m` under `k` or `None` for any other, the messages published under
/// `key`, in order.
pub open spec fn sent_under<T>(ops: Seq<Option<(Seq<char>, T)>>, key: Seq<char>) -> Seq<T>
    decreases ops.len(),
{
    if ops.len() == 0 {
        Seq::empty()
    } else {
        let earlier = sent_under(ops.drop_last(), key);
        match ops.last() {
            Some((k, m)) => if k == key {
                earlier.push(m)
            } else {
                earlier
            },
            None => earlier,
        }
    }
}

/// `brokers` are the states of a registry along the run `ops`: step `i`
/// leads from `brokers[i]` to `brokers[i + 1]`, a publication by
/// `published`, any other operation keeping subscriber `id` of `key`.
pub open spec fn run_of<T: Clone>(
    brokers: Seq<KeyedBroker<T>>,
    ops: Seq<Option<(Seq<char>, T)>>,
    key: Seq<char>,
    id: usize,
) -> bool {
    &&& brokers.len() == ops.len() + 1
    &&& forall|i: int| 0 <= i < ops.len() ==> match #[trigger] ops[i] {
        Some((k, m)) => published(brokers[i], brokers[i + 1], k, m),
        None => keeps(brokers[i], brokers[i + 1], key, id),
    }
}

/// The ids of a list of subscribers, in order.
spec fn ids_of<T>(subs: Seq<Subscriber<T>>) -> Seq<usize> {
    subs.map_values(|s: Subscriber<T>| s.id)
}

/// No id occurs twice among the subscribers of a topic, and each
/// subscriber keeps the sending half that was made with its inbox.
spec fn topic_ok<T>(t: Topic<T>) -> bool {
    &&& ids_of(t.subscribers@).no_duplicates()
    &&& forall|i: int| 0 <= i < t.subscribers@.len() ==> #[trigger] t.subscribers@[i].sender
        == t.subscribers@[i].outlet@
}

/// The number of distinct naturals up to `n` is `n + 1`.
proof fn lemma_range_len(n: nat)
    requires
        n <= usize::MAX,
    ensures
        Set::new(|x: usize| x <= n).finite(),
        Set::new(|x: usize| x <= n).len() == n + 1,
    decreases n,
{
    if n == 0 {
        assert(Set::new(|x: usize| x <= 0) =~= Set::<usize>::empty().insert(0));
    } else {
        lemma_range_len((n - 1) as nat);
        assert(Set::new(|x: usize| x <= n) =~= Set::new(|x: usize| x <= (n - 1) as nat).insert(
            n as usize,
        ));
    }
}

impl<T> Registry<T> {
    /// Well-formed: no key has two entries, and no id occurs twice under a key.
    spec fn wf(&self) -> bool {
        &&& forall|i: int, j: int|
            0 <= i < j < self.topics@.len() ==> #[trigger] self.topics@[i].key@
                != #[trigger] self.topics@[j].key@
        &&& forall|i: int| 0 <= i < self.topics@.len() ==> #[trigger] topic_ok(self.topics@[i])
    }

    /// The ids of the subscribers registered under `key`.
    spec fn subscribers(&self, key: Seq<char>) -> Set<usize> {
        if exists|i: int| 0 <= i < self.topics@.len() && #[trigger] self.topics@[i].key@ == key {
            let i = choose|i: int| 0 <= i < self.topics@.len() && #[trigger] self.topics@[i].key@ == key;
            ids_of(self.topics@[i].subscribers@).to_set()
        } else {
            Set::empty()
        }
    }

    /// The position of the entry of `key`.
    spec fn topic_of(&self, key: Seq<char>) -> int {
        choose|i: int| 0 <= i < self.topics@.len() && #[trigger] self.topics@[i].key@ == key
    }

    /// The subscriber `id` of `key`.
    spec fn sub(&self, key: Seq<char>, id: usize) -> Subscriber<T> {
        let subs = self.topics@[self.topic_of(key)].subscribers@;
        subs[choose|i: int| 0 <= i < subs.len() && #[trigger] subs[i].id == id]
    }

    /// The messages handed so far to the channel of subscriber `id` of `key`.
    spec fn handed(&self, key: Seq<char>, id: usize) -> Seq<T> {
        self.sub(key, id).handed@
    }

    /// The receiving half of the channel of subscriber `id` of `key`.
    spec fn inbox(&self, key: Seq<char>, id: usize) -> UnboundedReceiver<T> {
        self.sub(key, id).inbox@
    }

    /// The entry at `t` and its subscriber at `i` are what `sub` finds by
    /// key and id, and that id is one of the key's subscribers.
    proof fn lemma_sub_at(&self, t: int, i: int)
        requires
            self.wf(),
            0 <= t < self.topics@.len(),
            0 <= i < self.topics@[t].subscribers@.len(),
        ensures
            self.sub(self.topics@[t].key@, self.topics@[t].subscribers@[i].id) == self.topics@[t].subscribers@[i],
            self.subscribers(self.topics@[t].key@).contains(self.topics@[t].subscribers@[i].id),
    {
        let key = self.topics@[t].key@;
        let id = self.topics@[t].subscribers@[i].id;
        assert(self.topics@[t].key@ == key);
        let t2 = self.topic_of(key);
        if t2 != t {
            if t < t2 {
                assert(self.topics@[t].key@ != self.topics@[t2].key@);
            } else {
                assert(self.topics@[t2].key@ != self.topics@[t].key@);
            }
        }
        let subs = self.topics@[t].subscribers@;
        assert(subs[i].id == id);
        let i2 = choose|j: int| 0 <= j < subs.len() && #[trigger] subs[j].id == id;
        assert(topic_ok(self.topics@[t]));
        if i2 != i {
            assert(ids_of(subs)[i] == ids_of(subs)[i2]);
        }
        self.lemma_subscribers_at(t);
        assert(ids_of(subs)[i] == id);
    }

    /// Each subscriber of `key` sits in the entry of `key` at some place.
    proof fn lemma_sub_exists(&self, key: Seq<char>, id: usize)
        requires
            self.wf(),
            self.subscribers(key).contains(id),
        ensures
            exists|t: int, i: int| 0 <= t < self.topics@.len() && 0 <= i < self.topics@[t].subscribers@.len()
                && self.topics@[t].key@ == key && #[trigger] self.topics@[t].subscribers@[i].id == id,
    {
        let t = self.topic_of(key);
        assert(exists|j: int| 0 <= j < self.topics@.len() && #[trigger] self.topics@[j].key@ == key);
        let subs = self.topics@[t].subscribers@;
        assert(ids_of(subs).contains(id));
        let i = choose|i: int| 0 <= i < ids_of(subs).len() && ids_of(subs)[i] == id;
        assert(subs[i].id == id);
    }

    /// Every subscriber keeps the sending half made with its inbox.
    proof fn lemma_all_paired(&self)
        requires
            self.wf(),
        ensures
            forall|k: Seq<char>, id: usize| #[trigger] self.subscribers(k).contains(id) ==> self.sub(k, id).sender
                == self.sub(k, id).outlet@,
    {
        assert forall|k: Seq<char>, id: usize| #[trigger] self.subscribers(k).contains(id) implies self.sub(k, id).sender
            == self.sub(k, id).outlet@ by {
            self.lemma_sub_exists(k, id);
            let (t, i) = choose|t: int, i: int| 0 <= t < self.topics@.len() && 0 <= i < self.topics@[t].subscribers@.len()
                && self.topics@[t].key@ == k && #[trigger] self.topics@[t].subscribers@[i].id == id;
            self.lemma_sub_at(t, i);
            assert(topic_ok(self.topics@[t]));
        }
    }

    /// Every key's subscriber set is finite.
    proof fn lemma_subscribers_finite(&self, key: Seq<char>)
        ensures
            self.subscribers(key).finite(),
    {
        if exists|i: int| 0 <= i < self.topics@.len() && #[trigger] self.topics@[i].key@ == key {
            let i = choose|i: int| 0 <= i < self.topics@.len() && #[trigger] self.topics@[i].key@ == key;
            vstd::seq_lib::seq_to_set_is_finite(ids_of(self.topics@[i].subscribers@));
        }
    }

    /// A registry with no subscribers.
    fn new() -> (res: Registry<T>)
        ensures
            res.wf(),
            forall|key: Seq<char>| #[trigger] res.subscribers(key) == Set::<usize>::empty(),
    {
        Registry { topics: Vec::new() }
    }

    /// The position of the entry of `key`, if it has one.
    fn find_topic(&self, key: &str) -> (res: Option<usize>)
        ensures
            match res {
                Some(i) => i < self.topics@.len() && self.topics@[i as int].key@ == key@,
                None => forall|i: int| 0 <= i < self.topics@.len() ==> #[trigger] self.topics@[i].key@ != key@,
            },
    {
        let mut i: usize = 0;
        while i < self.topics.len()
            invariant
                i <= self.topics@.len(),
                forall|j: int| 0 <= j < i ==> #[trigger] self.topics@[j].key@ != key@,
            decreases self.topics@.len() - i,
        {
            if str_eq(self.topics[i].key.as_str(), key) {
                return Some(i);
            }
            i = i + 1;
        }
        None
    }

    proof fn lemma_subscribers_at(&self, i: int)
        requires
            self.wf(),
            0 <= i < self.topics@.len(),
        ensures
            self.subscribers(self.topics@[i].key@) == ids_of(self.topics@[i].subscribers@).to_set(),
    {
        let key = self.topics@[i].key@;
        assert(exists|j: int| 0 <= j < self.topics@.len() && #[trigger] self.topics@[j].key@ == key);
        let j = choose|j: int| 0 <= j < self.topics@.len() && #[trigger] self.topics@[j].key@ == key;
        if i != j {
            if i < j {
                assert(self.topics@[i].key@ != self.topics@[j].key@);
            } else {
                assert(self.topics@[j].key@ != self.topics@[i].key@);
            }
        }
    }

    /// Two well-formed registries whose entries agree in keys and ids have
    /// the same subscribers under every key.
    proof fn lemma_same_subscribers(&self, other: &Self)
        requires
            self.wf(),
            other.wf(),
            self.topics@.len() == other.topics@.len(),
            forall|j: int| 0 <= j < self.topics@.len() ==> #[trigger] self.topics@[j].key@
                == other.topics@[j].key@,
            forall|j: int| 0 <= j < self.topics@.len() ==> #[trigger] ids_of(self.topics@[j].subscribers@)
                == ids_of(other.topics@[j].subscribers@),
        ensures
            forall|k: Seq<char>| #[trigger] self.subscribers(k) == other.subscribers(k),
    {
        assert forall|k: Seq<char>| #[trigger] self.subscribers(k) == other.subscribers(k) by {
            if exists|i: int| 0 <= i < self.topics@.len() && #[trigger] self.topics@[i].key@ == k {
                let i = choose|i: int| 0 <= i < self.topics@.len() && #[trigger] self.topics@[i].key@ == k;
                self.lemma_subscribers_at(i);
                other.lemma_subscribers_at(i);
                assert(other.topics@[i].key@ == k);
            } else {
                assert forall|i: int| 0 <= i < other.topics@.len() implies #[trigger] other.topics@[i].key@ != k by {
                    assert(self.topics@[i].key@ != k);
                }
            }
        }
    }

    /// Sends a clone of `msg` to every subscriber of `key`; returns how many
    /// subscribers `key` has.
    fn publish(&mut self, key: String, msg: T) -> (res: usize)
        where T: Clone,
        requires
            old(self).wf(),
        ensures
            final(self).wf(),
            forall|k: Seq<char>| #[trigger] final(self).subscribers(k) == old(self).subscribers(k),
            res == old(self).subscribers(key@).len(),
            forall|id: usize| #[trigger] old(self).subscribers(key@).contains(id) ==> handed_once(
                old(self).handed(key@, id),
                final(self).handed(key@, id),
                msg,
            ) && final(self).inbox(key@, id) == old(self).inbox(key@, id),
            forall|k: Seq<char>, id: usize| k != key@ && #[trigger] old(self).subscribers(k).contains(id)
                ==> final(self).handed(k, id) == old(self).handed(k, id)
                && final(self).inbox(k, id) == old(self).inbox(k, id),
    {
        match self.find_topic(key.as_str()) {
            None => {
                assert(self.subscribers(key@) == Set::<usize>::empty());
                0
            },
            Some(t) => {
                proof {
                    self.lemma_subscribers_at(t as int);
                    assert(topic_ok(self.topics@[t as int]));
                    ids_of(self.topics@[t as int].subscribers@).unique_seq_to_set();
                }
                let ghost before = *self;
                let n = self.topics[t].subscribers.len();
                let mut i: usize = 0;
                while i < n
                    invariant
                        t < self.topics@.len() == before.topics@.len(),
                        n == self.topics@[t as int].subscribers@.len(),
                        n == before.topics@[t as int].subscribers@.len(),
                        i <= n,
                        forall|j: int| 0 <= j < self.topics@.len() ==> #[trigger] self.topics@[j].key@
                            == before.topics@[j].key@,
                        forall|j: int| 0 <= j < self.topics@.len() ==> #[trigger] ids_of(self.topics@[j].subscribers@)
                            == ids_of(before.topics@[j].subscribers@),
                        forall|j: int| 0 <= j < self.topics@.len() && j != t ==> #[trigger] self.topics@[j] == before.topics@[j],
                        forall|j: int| 0 <= j < i ==> #[trigger] handed_once(
                            before.topics@[t as int].subscribers@[j].handed@,
                            self.topics@[t as int].subscribers@[j].handed@,
                            msg,
                        ) && self.topics@[t as int].subscribers@[j].inbox == before.topics@[t as int].subscribers@[j].inbox
                            && self.topics@[t as int].subscribers@[j].sender == before.topics@[t as int].subscribers@[j].sender
                            && self.topics@[t as int].subscribers@[j].outlet == before.topics@[t as int].subscribers@[j].outlet,
                        forall|j: int| i <= j < n ==> #[trigger] self.topics@[t as int].subscribers@[j]
                            == before.topics@[t as int].subscribers@[j],
                    decreases n - i,
                {
                    let m = msg.clone();
                    let ghost mid = *self;
                    let _ = start_send(&mut self.topics[t].subscribers[i], m);
                    proof {
                        assert(ids_of(self.topics@[t as int].subscribers@) =~= ids_of(mid.topics@[t as int].subscribers@));
                        assert(self.topics@[t as int].subscribers@[i as int].handed@.drop_last()
                            =~= before.topics@[t as int].subscribers@[i as int].handed@);
                        assert(handed_once(
                            before.topics@[t as int].subscribers@[i as int].handed@,
                            self.topics@[t as int].subscribers@[i as int].handed@,
                            msg,
                        ));
                    }
                    i = i + 1;
                }
                proof {
                    assert forall|j: int| 0 <= j < self.topics@.len() implies #[trigger] topic_ok(self.topics@[j]) by {
                        assert(topic_ok(before.topics@[j]));
                        if j == t {
                            let subs = self.topics@[j].subscribers@;
                            assert forall|a: int| 0 <= a < subs.len() implies #[trigger] subs[a].sender
                                == subs[a].outlet@ by {
                                assert(before.topics@[j].subscribers@[a].sender == before.topics@[j].subscribers@[a].outlet@);
                                assert(handed_once(
                                    before.topics@[t as int].subscribers@[a].handed@,
                                    self.topics@[t as int].subscribers@[a].handed@,
                                    msg,
                                ));
                            }
                        }
                    }
                    self.lemma_same_subscribers(&before);
                    assert forall|id: usize| #[trigger] before.subscribers(key@).contains(id) implies handed_once(
                        before.handed(key@, id),
                        self.handed(key@, id),
                        msg,
                    ) && self.inbox(key@, id) == before.inbox(key@, id) by {
                        before.lemma_sub_exists(key@, id);
                        let (t2, i2) = choose|t2: int, i2: int| 0 <= t2 < before.topics@.len() && 0 <= i2 < before.topics@[t2].subscribers@.len()
                            && before.topics@[t2].key@ == key@ && #[trigger] before.topics@[t2].subscribers@[i2].id == id;
                        if t2 != t {
                            if t2 < t {
                                assert(before.topics@[t2].key@ != before.topics@[t as int].key@);
                            } else {
                                assert(before.topics@[t as int].key@ != before.topics@[t2].key@);
                            }
                        }
                        before.lemma_sub_at(t as int, i2);
                        assert(ids_of(self.topics@[t as int].subscribers@)[i2] == ids_of(before.topics@[t as int].subscribers@)[i2]);
                        self.lemma_sub_at(t as int, i2);
                        assert(handed_once(
                            before.topics@[t as int].subscribers@[i2].handed@,
                            self.topics@[t as int].subscribers@[i2].handed@,
                            msg,
                        ));
                    }
                    assert forall|k: Seq<char>, id: usize| k != key@ && #[trigger] before.subscribers(k).contains(id) implies self.handed(k, id)
                        == before.handed(k, id) && self.inbox(k, id) == before.inbox(k, id) by {
                        before.lemma_sub_exists(k, id);
                        let (t2, i2) = choose|t2: int, i2: int| 0 <= t2 < before.topics@.len() && 0 <= i2 < before.topics@[t2].subscribers@.len()
                            && before.topics@[t2].key@ == k && #[trigger] before.topics@[t2].subscribers@[i2].id == id;
                        assert(t2 != t);
                        assert(self.topics@[t2] == before.topics@[t2]);
                        before.lemma_sub_at(t2, i2);
                        self.lemma_sub_at(t2, i2);
                    }
                }
                n
            },
        }
    }

    /// The number of subscribers registered under `key`.
    fn subscriber_count(&self, key: String) -> (res: usize)
        requires
            self.wf(),
        ensures
            res == self.subscribers(key@).len(),
    {
        match self.find_topic(key.as_str()) {
            None => {
                assert(self.subscribers(key@) == Set::<usize>::empty());
                0
            },
            Some(t) => {
                proof {
                    self.lemma_subscribers_at(t as int);
                    assert(topic_ok(self.topics@[t as int]));
                    ids_of(self.topics@[t as int].subscribers@).unique_seq_to_set();
                }
                self.topics[t].subscribers.len()
            },
        }
    }

    /// A registry that differs from `other` only in the entry of `key` (or
    /// by a new entry of `key` at the end) has the same subscribers under
    /// every other key.
    proof fn lemma_other_keys_kept(&self, other: &Self, key: Seq<char>)
        requires
            self.wf(),
            other.wf(),
            other.topics@.len() <= self.topics@.len() <= other.topics@.len() + 1,
            forall|j: int| 0 <= j < other.topics@.len() ==> #[trigger] self.topics@[j].key@
                == other.topics@[j].key@,
            forall|j: int| 0 <= j < other.topics@.len() && other.topics@[j].key@ != key
                ==> #[trigger] ids_of(self.topics@[j].subscribers@) == ids_of(other.topics@[j].subscribers@),
            self.topics@.len() == other.topics@.len() + 1 ==> self.topics@.last().key@ == key,
        ensures
            forall|k: Seq<char>| k != key ==> #[trigger] self.subscribers(k) == other.subscribers(k),
    {
        assert forall|k: Seq<char>| k != key implies #[trigger] self.subscribers(k) == other.subscribers(k) by {
            if exists|i: int| 0 <= i < other.topics@.len() && #[trigger] other.topics@[i].key@ == k {
                let i = choose|i: int| 0 <= i < other.topics@.len() && #[trigger] other.topics@[i].key@ == k;
                self.lemma_subscribers_at(i);
                other.lemma_subscribers_at(i);
            } else {
                assert forall|i: int| 0 <= i < self.topics@.len() implies #[trigger] self.topics@[i].key@ != k by {
                    if i < other.topics@.len() {
                        assert(other.topics@[i].key@ != k);
                    }
                }
            }
        }
    }

    /// The smallest id that no subscriber in `subs` has.
    fn free_id(subs: &Vec<Subscriber<T>>) -> (res: usize)
        ensures
            !ids_of(subs@).contains(res),
    {
        let n = subs.len();
        let mut c: usize = 0;
        loop
            invariant
                n == subs@.len(),
                c <= n,
                forall|x: usize| x < c ==> #[trigger] ids_of(subs@).contains(x),
            decreases n - c,
        {
            let mut i: usize = 0;
            let mut used = false;
            while i < n
                invariant
                    n == subs@.len(),
                    i <= n,
                    used ==> ids_of(subs@).contains(c),
                    !used ==> forall|j: int| 0 <= j < i ==> subs@[j].id != c,
                decreases n - i,
            {
                if subs[i].id == c {
                    assert(ids_of(subs@)[i as int] == c);
                    used = true;
                }
                i = i + 1;
            }
            if !used {
                assert(!ids_of(subs@).contains(c)) by {
                    if ids_of(subs@).contains(c) {
                        let j = choose|j: int| 0 <= j < ids_of(subs@).len() && ids_of(subs@)[j] == c;
                        assert(subs@[j].id == c);
                    }
                }
                return c;
            }
            proof {
                let range = Set::new(|x: usize| x <= c);
                lemma_range_len(c as nat);
                assert(range.subset_of(ids_of(subs@).to_set()));
                vstd::seq_lib::seq_to_set_is_finite(ids_of(subs@));
                vstd::set_lib::lemma_len_subset(range, ids_of(subs@).to_set());
                ids_of(subs@).lemma_cardinality_of_set();
            }
            c = c + 1;
        }
    }

    /// Registers a new subscriber under `key`, with an id that no other
    /// subscriber of `key` has (the smallest such). Returns the id and the
    /// receiving half of the subscriber's channel.
    fn subscribe(&mut self, key: String) -> (res: (usize, UnboundedReceiver<T>))
        requires
            old(self).wf(),
        ensures
            final(self).wf(),
            !old(self).subscribers(key@).contains(res.0),
            final(self).subscribers(key@) == old(self).subscribers(key@).insert(res.0),
            forall|k: Seq<char>| k != key@ ==> #[trigger] final(self).subscribers(k) == old(self).subscribers(k),
            final(self).handed(key@, res.0) == Seq::<T>::empty(),
            final(self).inbox(key@, res.0) == res.1,
            forall|k: Seq<char>, id: usize| #[trigger] old(self).subscribers(k).contains(id)
                ==> final(self).handed(k, id) == old(self).handed(k, id)
                && final(self).inbox(k, id) == old(self).inbox(k, id),
    {
        let ghost before = *self;
        match self.find_topic(key.as_str()) {
            None => {
                let ghost k = key@;
                let (sub, receiver) = new_subscriber(0);
                let mut subs: Vec<Subscriber<T>> = Vec::new();
                subs.push(sub);
                self.topics.push(Topic { key, subscribers: subs });
                proof {
                    let last = self.topics@.len() - 1;
                    assert(ids_of(self.topics@[last].subscribers@) =~= seq![0usize]);
                    assert(forall|j: int| 0 <= j < before.topics@.len() ==> self.topics@[j] == before.topics@[j]);
                    assert forall|j: int| 0 <= j < self.topics@.len() implies #[trigger] topic_ok(self.topics@[j]) by {
                        if j < before.topics@.len() {
                            assert(topic_ok(before.topics@[j]));
                        }
                    }
                    assert forall|i: int, j: int| 0 <= i < j < self.topics@.len() implies #[trigger] self.topics@[i].key@
                        != #[trigger] self.topics@[j].key@ by {
                        if j < before.topics@.len() {
                            assert(before.topics@[i].key@ != before.topics@[j].key@);
                        }
                    }
                    self.lemma_subscribers_at(last);
                    assert(seq![0usize].to_set() =~= Set::<usize>::empty().insert(0)) by {
                        assert(seq![0usize][0] == 0);
                    }
                    assert(before.subscribers(k) == Set::<usize>::empty());
                    self.lemma_other_keys_kept(&before, k);
                    assert(self.topics@[last].key@ == k);
                    self.lemma_sub_at(last, 0);
                    assert forall|k2: Seq<char>, id2: usize| #[trigger] before.subscribers(k2).contains(id2)
                        implies self.handed(k2, id2) == before.handed(k2, id2) && self.inbox(k2, id2) == before.inbox(k2, id2) by {
                        before.lemma_sub_exists(k2, id2);
                        let (t2, i2) = choose|t2: int, i2: int| 0 <= t2 < before.topics@.len() && 0 <= i2 < before.topics@[t2].subscribers@.len()
                            && before.topics@[t2].key@ == k2 && #[trigger] before.topics@[t2].subscribers@[i2].id == id2;
                        before.lemma_sub_at(t2, i2);
                        self.lemma_sub_at(t2, i2);
                    }
                }
                (0, receiver)
            },
            Some(t) => {
                let id = Self::free_id(&self.topics[t].subscribers);
                let (sub, receiver) = new_subscriber(id);
                self.topics[t].subscribers.push(sub);
                proof {
                    before.lemma_subscribers_at(t as int);
                    assert(topic_ok(before.topics@[t as int]));
                    let old_ids = ids_of(before.topics@[t as int].subscribers@);
                    assert(ids_of(self.topics@[t as int].subscribers@) =~= old_ids.push(id));
                    old_ids.lemma_push_to_set_commute(id);
                    assert(forall|j: int| 0 <= j < before.topics@.len() && j != t ==> self.topics@[j] == before.topics@[j]);
                    assert forall|j: int| 0 <= j < self.topics@.len() implies #[trigger] topic_ok(self.topics@[j]) by {
                        if j != t {
                            assert(topic_ok(before.topics@[j]));
                        }
                    }
                    assert forall|i: int, j: int| 0 <= i < j < self.topics@.len() implies #[trigger] self.topics@[i].key@
                        != #[trigger] self.topics@[j].key@ by {
                        assert(before.topics@[i].key@ != before.topics@[j].key@);
                    }
                    self.lemma_subscribers_at(t as int);
                    self.lemma_other_keys_kept(&before, key@);
                    let last = before.topics@[t as int].subscribers@.len() as int;
                    assert(self.topics@[t as int].key@ == key@);
                    self.lemma_sub_at(t as int, last);
                    assert forall|k2: Seq<char>, id2: usize| #[trigger] before.subscribers(k2).contains(id2)
                        implies self.handed(k2, id2) == before.handed(k2, id2) && self.inbox(k2, id2) == before.inbox(k2, id2) by {
                        before.lemma_sub_exists(k2, id2);
                        let (t2, i2) = choose|t2: int, i2: int| 0 <= t2 < before.topics@.len() && 0 <= i2 < before.topics@[t2].subscribers@.len()
                            && before.topics@[t2].key@ == k2 && #[trigger] before.topics@[t2].subscribers@[i2].id == id2;
                        before.lemma_sub_at(t2, i2);
                        if t2 == t {
                            assert(self.topics@[t2].subscribers@[i2] == before.topics@[t2].subscribers@[i2]);
                        }
                        self.lemma_sub_at(t2, i2);
                    }
                }
                (id, receiver)
            },
        }
    }

    /// Takes the subscriber `id` of `key` out of the registry, as a
    /// subscription stream does when it is dropped. Nothing happens when
    /// `key` has no such subscriber.
    fn unsubscribe(&mut self, key: &str, id: usize)
        requires
            old(self).wf(),
        ensures
            final(self).wf(),
            final(self).subscribers(key@) == old(self).subscribers(key@).remove(id),
            forall|k: Seq<char>| k != key@ ==> #[trigger] final(self).subscribers(k) == old(self).subscribers(k),
            forall|k: Seq<char>, id2: usize| #[trigger] final(self).subscribers(k).contains(id2)
                ==> final(self).handed(k, id2) == old(self).handed(k, id2)
                && final(self).inbox(k, id2) == old(self).inbox(k, id2),
    {
        let ghost before = *self;
        match self.find_topic(key) {
            None => {
                proof {
                    assert(before.subscribers(key@) =~= before.subscribers(key@).remove(id));
                    self.lemma_same_subscribers(&before);
                }
            },
            Some(t) => {
                let n = self.topics[t].subscribers.len();
                let mut i: usize = 0;
                while i < n
                    invariant
                        *self == before,
                        before == *old(self),
                        before.wf(),
                        t < self.topics@.len(),
                        before.topics@[t as int].key@ == key@,
                        n == self.topics@[t as int].subscribers@.len(),
                        i <= n,
                        forall|j: int| 0 <= j < i ==> self.topics@[t as int].subscribers@[j].id != id,
                    decreases n - i,
                {
                    if self.topics[t].subscribers[i].id == id {
                        let _ = self.topics[t].subscribers.remove(i);
                        proof {
                            before.lemma_subscribers_at(t as int);
                            assert(topic_ok(before.topics@[t as int]));
                            let old_ids = ids_of(before.topics@[t as int].subscribers@);
                            let new_ids = ids_of(self.topics@[t as int].subscribers@);
                            assert(self.topics@[t as int].key == before.topics@[t as int].key);
                            assert(before.topics@[t as int].key@ == key@);
                            assert(new_ids =~= old_ids.remove(i as int));
                            assert(old_ids[i as int] == id);
                            assert(new_ids.no_duplicates());
                            assert(new_ids.to_set() =~= old_ids.to_set().remove(id)) by {
                                assert forall|x: usize| new_ids.to_set().contains(x) <==> old_ids.to_set().remove(id).contains(x) by {
                                    if new_ids.contains(x) {
                                        let j = choose|j: int| 0 <= j < new_ids.len() && new_ids[j] == x;
                                        if j < i {
                                            assert(old_ids[j] == x);
                                        } else {
                                            assert(old_ids[j + 1] == x);
                                        }
                                    }
                                    if old_ids.contains(x) && x != id {
                                        let j = choose|j: int| 0 <= j < old_ids.len() && old_ids[j] == x;
                                        if j < i {
                                            assert(new_ids[j] == x);
                                        } else {
                                            assert(new_ids[j - 1] == x);
                                        }
                                    }
                                }
                            }
                            assert(forall|j: int| 0 <= j < before.topics@.len() && j != t ==> self.topics@[j] == before.topics@[j]);
                            assert forall|j: int| 0 <= j < self.topics@.len() implies #[trigger] topic_ok(self.topics@[j]) by {
                                if j != t {
                                    assert(topic_ok(before.topics@[j]));
                                }
                            }
                            assert forall|a: int, b: int| 0 <= a < b < self.topics@.len() implies #[trigger] self.topics@[a].key@
                                != #[trigger] self.topics@[b].key@ by {
                                assert(before.topics@[a].key@ != before.topics@[b].key@);
                            }
                            self.lemma_subscribers_at(t as int);
                            self.lemma_other_keys_kept(&before, key@);
                            assert forall|k2: Seq<char>, id2: usize| #[trigger] self.subscribers(k2).contains(id2)
                                implies self.handed(k2, id2) == before.handed(k2, id2) && self.inbox(k2, id2) == before.inbox(k2, id2) by {
                                self.lemma_sub_exists(k2, id2);
                                let (t2, i2) = choose|t2: int, i2: int| 0 <= t2 < self.topics@.len() && 0 <= i2 < self.topics@[t2].subscribers@.len()
                                    && self.topics@[t2].key@ == k2 && #[trigger] self.topics@[t2].subscribers@[i2].id == id2;
                                self.lemma_sub_at(t2, i2);
                                if t2 == t {
                                    if i2 < i {
                                        assert(self.topics@[t2].subscribers@[i2] == before.topics@[t2].subscribers@[i2]);
                                        before.lemma_sub_at(t2, i2);
                                    } else {
                                        assert(self.topics@[t2].subscribers@[i2] == before.topics@[t2].subscribers@[i2 + 1]);
                                        before.lemma_sub_at(t2, i2 + 1);
                                    }
                                } else {
                                    before.lemma_sub_at(t2, i2);
                                }
                            }
                        }
                        return;
                    }
                    i = i + 1;
                }
                proof {
                    before.lemma_subscribers_at(t as int);
                    let old_ids = ids_of(before.topics@[t as int].subscribers@);
                    assert(!old_ids.contains(id)) by {
                        if old_ids.contains(id) {
                            let j = choose|j: int| 0 <= j < old_ids.len() && old_ids[j] == id;
                            assert(before.topics@[t as int].subscribers@[j].id == id);
                        }
                    }
                    assert(before.subscribers(key@) =~= before.subscribers(key@).remove(id));
                    self.lemma_same_subscribers(&before);
                }
            },
        }
    }
}

impl<T> KeyedBroker<T> {
    /// What holds of every registry: no key has two entries, and no id
    /// occurs twice under a key.
    #[verifier::type_invariant]
    spec fn inv(self) -> bool {
        self.reg.wf()
    }

    /// The ids of the subscribers registered under `key`.
    pub closed spec fn subscribers(&self, key: Seq<char>) -> Set<usize> {
        self.reg.subscribers(key)
    }

    /// The messages handed so far to the channel of subscriber `id` of `key`.
    pub closed spec fn handed(&self, key: Seq<char>, id: usize) -> Seq<T> {
        self.reg.handed(key, id)
    }

    /// The receiving half of the channel of subscriber `id` of `key`.
    pub closed spec fn inbox(&self, key: Seq<char>, id: usize) -> UnboundedReceiver<T> {
        self.reg.inbox(key, id)
    }

    /// The sending half that the registry keeps for subscriber `id` of
    /// `key`, on which publication sends, is the one made together with the
    /// subscriber's inbox: the two are the halves of one channel.
    pub closed spec fn paired(&self, key: Seq<char>, id: usize) -> bool {
        self.reg.sub(key, id).sender == self.reg.sub(key, id).outlet@
    }

    /// Every key's subscriber set is finite.
    pub proof fn lemma_subscribers_finite(&self, key: Seq<char>)
        ensures
            self.subscribers(key).finite(),
    {
        self.reg.lemma_subscribers_finite(key);
    }

    /// A registry with no subscribers.
    pub fn new() -> (res: KeyedBroker<T>)
        ensures
            forall|key: Seq<char>| #[trigger] res.subscribers(key) == Set::<usize>::empty(),
            forall|k: Seq<char>, id: usize| #[trigger] res.subscribers(k).contains(id) ==> res.paired(k, id),
    {
        KeyedBroker { reg: Registry::new() }
    }

    /// Sends a clone of `msg` to every subscriber of `key`; returns how many
    /// subscribers `key` has.
    pub fn publish(&mut self, key: String, msg: T) -> (res: usize)
        where T: Clone,
        ensures
            forall|k: Seq<char>| #[trigger] final(self).subscribers(k) == old(self).subscribers(k),
            res == old(self).subscribers(key@).len(),
            published(*old(self), *final(self), key@, msg),
            forall|id: usize| #[trigger] old(self).subscribers(key@).contains(id) ==> handed_once(
                old(self).handed(key@, id),
                final(self).handed(key@, id),
                msg,
            ) && final(self).inbox(key@, id) == old(self).inbox(key@, id),
            forall|k: Seq<char>, id: usize| k != key@ && #[trigger] old(self).subscribers(k).contains(id)
                ==> final(self).handed(k, id) == old(self).handed(k, id)
                && final(self).inbox(k, id) == old(self).inbox(k, id),
            forall|k: Seq<char>, id: usize| #[trigger] final(self).subscribers(k).contains(id) ==> final(self).paired(k, id),
    {
        proof {
            use_type_invariant(&*self);
        }
        let mut reg = Registry::new();
        std::mem::swap(&mut reg, &mut self.reg);
        let res = reg.publish(key, msg);
        self.reg = reg;
        proof {
            self.reg.lemma_all_paired();
        }
        res
    }

    /// The number of subscribers registered under `key`.
    pub fn subscriber_count(&self, key: String) -> (res: usize)
        ensures
            res == self.subscribers(key@).len(),
    {
        proof {
            use_type_invariant(self);
        }
        self.reg.subscriber_count(key)
    }

    /// Registers a new subscriber under `key`, with an id that no other
    /// subscriber of `key` has (the smallest such). Returns the id and the
    /// receiving half of the subscriber's channel.
    pub fn subscribe(&mut self, key: String) -> (res: (usize, UnboundedReceiver<T>))
        ensures
            !old(self).subscribers(key@).contains(res.0),
            final(self).subscribers(key@) == old(self).subscribers(key@).insert(res.0),
            forall|k: Seq<char>| k != key@ ==> #[trigger] final(self).subscribers(k) == old(self).subscribers(k),
            final(self).handed(key@, res.0) == Seq::<T>::empty(),
            final(self).inbox(key@, res.0) == res.1,
            forall|k: Seq<char>, id: usize| #[trigger] old(self).subscribers(k).contains(id)
                ==> final(self).handed(k, id) == old(self).handed(k, id)
                && final(self).inbox(k, id) == old(self).inbox(k, id),
            final(self).paired(key@, res.0),
            forall|k: Seq<char>, id: usize| #[trigger] final(self).subscribers(k).contains(id) ==> final(self).paired(k, id),
    {
        proof {
            use_type_invariant(&*self);
        }
        let ghost k = key@;
        let mut reg = Registry::new();
        std::mem::swap(&mut reg, &mut self.reg);
        let res = reg.subscribe(key);
        self.reg = reg;
        proof {
            self.reg.lemma_all_paired();
            assert(self.subscribers(k).contains(res.0));
        }
        res
    }

    /// Takes the subscriber `id` of `key` out of the registry, as a
    /// subscription stream does when it is dropped. Nothing happens when
    /// `key` has no such subscriber.
    pub fn unsubscribe(&mut self, key: &str, id: usize)
        ensures
            final(self).subscribers(key@) == old(self).subscribers(key@).remove(id),
            forall|k: Seq<char>| k != key@ ==> #[trigger] final(self).subscribers(k) == old(self).subscribers(k),
            forall|k: Seq<char>, id2: usize| #[trigger] final(self).subscribers(k).contains(id2)
                ==> final(self).handed(k, id2) == old(self).handed(k, id2)
                && final(self).inbox(k, id2) == old(self).inbox(k, id2),
            forall|k: Seq<char>, id: usize| #[trigger] final(self).subscribers(k).contains(id) ==> final(self).paired(k, id),
    {
        proof {
            use_type_invariant(&*self);
        }
        let mut reg = Registry::new();
        std::mem::swap(&mut reg, &mut self.reg);
        reg.unsubscribe(key, id);
        self.reg = reg;
        proof {
            self.reg.lemma_all_paired();
        }
    }
}

/// Law: a subscription raises the number of the key's subscribers by one.
pub proof fn law_subscribe_adds_one<T>(before: &KeyedBroker<T>, after: &KeyedBroker<T>, key: Seq<char>, id: usize)
    requires
        !before.subscribers(key).contains(id),
        after.subscribers(key) == before.subscribers(key).insert(id),
    ensures
        after.subscribers(key).len() == before.subscribers(key).len() + 1,
{
    before.lemma_subscribers_finite(key);
}

/// Law: dropping a subscription undoes it: the key's subscribers are those
/// it had before subscribing.
pub proof fn law_unsubscribe_undoes_subscribe<T>(
    before: &KeyedBroker<T>,
    middle: &KeyedBroker<T>,
    after: &KeyedBroker<T>,
    key: Seq<char>,
    id: usize,
)
    requires
        !before.subscribers(key).contains(id),
        middle.subscribers(key) == before.subscribers(key).insert(id),
        after.subscribers(key) == middle.subscribers(key).remove(id),
    ensures
        after.subscribers(key) == before.subscribers(key),
{
    assert(after.subscribers(key) =~= before.subscribers(key));
}

/// Law: dropping one of a key's subscriptions lowers its count by one.
pub proof fn law_unsubscribe_removes_one<T>(before: &KeyedBroker<T>, after: &KeyedBroker<T>, key: Seq<char>, id: usize)
    requires
        before.subscribers(key).contains(id),
        after.subscribers(key) == before.subscribers(key).remove(id),
    ensures
        after.subscribers(key).len() + 1 == before.subscribers(key).len(),
{
    before.lemma_subscribers_finite(key);
}

/// Law: a subscriber that has been handed nothing yet is handed, by the
/// next publication under its key, exactly one message: a clone of the
/// published one.
pub proof fn law_new_subscriber_gets_next_message<T: Clone>(
    before: &KeyedBroker<T>,
    after: &KeyedBroker<T>,
    key: Seq<char>,
    id: usize,
    msg: T,
)
    requires
        before.handed(key, id) == Seq::<T>::empty(),
        handed_once(before.handed(key, id), after.handed(key, id), msg),
    ensures
        after.handed(key, id).len() == 1,
        cloned(msg, after.handed(key, id)[0]),
{
}

/// Law: a subscriber is handed exactly the messages published under its key
/// after it subscribed, in the order of publication, each as a clone, and
/// none published under another key. The run may hold other operations
/// that keep the subscriber (subscriptions and unsubscriptions of others).
pub proof fn law_subscriber_handed_what_was_published<T: Clone>(
    brokers: Seq<KeyedBroker<T>>,
    ops: Seq<Option<(Seq<char>, T)>>,
    key: Seq<char>,
    id: usize,
)
    requires
        run_of(brokers, ops, key, id),
        brokers[0].subscribers(key).contains(id),
        brokers[0].handed(key, id) == Seq::<T>::empty(),
    ensures
        brokers.last().subscribers(key).contains(id),
        brokers.last().handed(key, id).len() == sent_under(ops, key).len(),
        forall|j: int| 0 <= j < sent_under(ops, key).len() ==> cloned(
            #[trigger] sent_under(ops, key)[j],
            brokers.last().handed(key, id)[j],
        ),
    decreases ops.len(),
{
    let n = ops.len() as int;
    if n > 0 {
        let bs = brokers.drop_last();
        let os = ops.drop_last();
        assert forall|i: int| 0 <= i < os.len() implies match #[trigger] os[i] {
            Some((k, m)) => published(bs[i], bs[i + 1], k, m),
            None => keeps(bs[i], bs[i + 1], key, id),
        } by {
            assert(os[i] == ops[i]);
            assert(bs[i] == brokers[i] && bs[i + 1] == brokers[i + 1]);
        }
        law_subscriber_handed_what_was_published(bs, os, key, id);
        let prev = bs.last();
        assert(prev == brokers[n - 1]);
        let last = brokers.last();
        assert(last == brokers[n]);
        let step = ops[n - 1];
        assert(step == ops.last());
        let earlier = sent_under(os, key);
        match step {
            Some((k, m)) => {
                assert(published(prev, last, k, m));
                assert(last.subscribers(key) == prev.subscribers(key));
                if k == key {
                    assert(handed_once(prev.handed(key, id), last.handed(key, id), m));
                    let h = last.handed(key, id);
                    assert forall|j: int| 0 <= j < sent_under(ops, key).len() implies cloned(
                        #[trigger] sent_under(ops, key)[j],
                        h[j],
                    ) by {
                        if j < earlier.len() {
                            assert(h[j] == h.drop_last()[j]);
                        }
                    }
                } else {
                    assert(last.handed(key, id) == prev.handed(key, id));
                }
            },
            None => {
                assert(keeps(prev, last, key, id));
            },
        }
    }
}

/// Law: the receiver that a subscription returns is the one that later
/// publications under its key feed. `before`, `subscribed` and `after` are
/// a registry before `subscribe(key)` answered `(id, rx)`, after it, and
/// after a `publish(key, msg)`, as those two state them: the subscriber is
/// still registered, its inbox is still `rx`, the sending half kept for it
/// is still the one made with `rx`, and that sending half has been handed
/// exactly one message, a clone of `msg`.
pub proof fn law_subscription_receiver_gets_publication<T: Clone>(
    before: KeyedBroker<T>,
    subscribed: KeyedBroker<T>,
    after: KeyedBroker<T>,
    key: Seq<char>,
    id: usize,
    rx: UnboundedReceiver<T>,
    msg: T,
)
    requires
        subscribed.subscribers(key) == before.subscribers(key).insert(id),
        subscribed.handed(key, id) == Seq::<T>::empty(),
        subscribed.inbox(key, id) == rx,
        subscribed.paired(key, id),
        published(subscribed, after, key, msg),
        forall|i: usize| #[trigger] subscribed.subscribers(key).contains(i) ==> after.inbox(key, i)
            == subscribed.inbox(key, i),
        forall|k: Seq<char>, i: usize| #[trigger] after.subscribers(k).contains(i) ==> after.paired(k, i),
    ensures
        after.subscribers(key).contains(id),
        after.inbox(key, id) == rx,
        after.paired(key, id),
        after.handed(key, id).len() == 1,
        cloned(msg, after.handed(key, id)[0]),
{
    assert(subscribed.subscribers(key).contains(id));
    assert(after.subscribers(key) == subscribed.subscribers(key));
    assert(handed_once(subscribed.handed(key, id), after.handed(key, id), msg));
}

} // verus!
