//! Signaling: who is signed in, who listens for signals, rooms, and the
//! signals users send each other.
//!
//! The GraphQL resolvers of the service call these functions with the
//! session of the request and the shared state, and do the channel and HTTP
//! work that the results call for.

pub mod models;
mod room_maps;

use vstd::prelude::*;
use rand::Rng;
use crate::auth::{session_cookie, session_cookie_spec, SessionId};
use crate::signals::models::{members_of, user_views, JoinOutcome, RoomsStorage, Signal};
use crate::text::push_char;

verus! {

/// The length of a freshly made user id.
pub const SESSION_ID_LEN: usize = 24;

/// Whether `c` is an ASCII letter or digit.
pub open spec fn is_alphanumeric(c: char) -> bool {
    ||| 48 <= (c as int) <= 57
    ||| 65 <= (c as int) <= 90
    ||| 97 <= (c as int) <= 122
}

/// One sample of `rand`'s `Alphanumeric` distribution from the thread's
/// generator. `rand` documents the samples as ASCII letters and digits;
/// which one comes is chance.
#[verifier::external_body]
fn sample_alphanumeric() -> (res: u8)
    ensures
        is_alphanumeric(res as char),
{
    rand::thread_rng().sample(rand::distributions::Alphanumeric)
}

/// The id whose characters are the drawn samples, read as ASCII.
pub fn user_id_from_samples(samples: &Vec<u8>) -> (res: String)
    ensures
        res@.len() == samples@.len(),
        forall|i: int| 0 <= i < samples@.len() ==> #[trigger] res@[i] == samples@[i] as char,
{
    let mut s = String::new();
    let mut i: usize = 0;
    while i < samples.len()
        invariant
            i <= samples@.len(),
            s@.len() == i,
            forall|j: int| 0 <= j < i ==> #[trigger] s@[j] == samples@[j] as char,
        decreases samples@.len() - i,
    {
        push_char(&mut s, samples[i] as char);
        i = i + 1;
    }
    s
}

/// A random id of `len` ASCII letters and digits: `len` samples of
/// `Alphanumeric`, read as characters.
pub fn random_user_id(len: usize) -> (res: String)
    ensures
        res@.len() == len,
        forall|i: int| 0 <= i < len ==> #[trigger] is_alphanumeric(res@[i]),
{
    let mut samples: Vec<u8> = Vec::new();
    let mut i: usize = 0;
    while i < len
        invariant
            i <= len,
            samples@.len() == i,
            forall|j: int| 0 <= j < i ==> #[trigger] is_alphanumeric(samples@[j] as char),
        decreases len - i,
    {
        let b = sample_alphanumeric();
        samples.push(b);
        i = i + 1;
    }
    let res = user_id_from_samples(&samples);
    assert forall|j: int| 0 <= j < len implies #[trigger] is_alphanumeric(res@[j]) by {
        assert(res@[j] == samples@[j] as char);
        assert(is_alphanumeric(samples@[j] as char));
    }
    res
}

/// Why a request was refused.
#[derive(Debug, Clone, Copy, PartialEq, Eq, Structural)]
pub enum SignalError {
    /// The request carries no session.
    Unauthorized,
    /// Rooms are open only to users that listen for signals.
    NotListening,
}

impl SignalError {
    /// The message the client is given.
    pub fn message(&self) -> (res: &'static str)
        ensures
            *self == SignalError::Unauthorized ==> res@ == "Unauthorized"@,
            *self == SignalError::NotListening ==> res@ == "You have to listen to signals first"@,
    {
        match self {
            SignalError::Unauthorized => "Unauthorized",
            SignalError::NotListening => "You have to listen to signals first",
        }
    }
}

/// The session of a request; `Unauthorized` when there is none.
pub fn get_user_id(session: Option<&SessionId>) -> (res: Result<&SessionId, SignalError>)
    ensures
        session matches Some(s) ==> res == Ok::<&SessionId, SignalError>(s),
        session is None ==> res == Err::<&SessionId, SignalError>(SignalError::Unauthorized),
{
    match session {
        Some(s) => Ok(s),
        None => Err(SignalError::Unauthorized),
    }
}

/// A user's session as the client gets it: the user id and, when the
/// session was just made, its token.
pub struct UserSession {
    pub user_id: String,
    pub token: Option<String>,
}

/// What `createSessionId` does next.
pub enum SessionStep {
    /// The request already has a session: it is answered as it is.
    Existing(UserSession),
    /// A new user id was made: a token is to be signed for it.
    Issue(String),
}

/// The queries of the signaling service.
pub struct SignalQueries;

impl SignalQueries {
    /// The ids of the users that listen for signals.
    pub fn users(rooms: &RoomsStorage) -> (res: Vec<String>)
        ensures
            user_views(res@).no_duplicates(),
            user_views(res@).to_set() == rooms.listeners(),
    {
        rooms.user_ids()
    }

    /// The ids of the rooms.
    pub fn rooms(rooms: &RoomsStorage) -> (res: Vec<String>)
        ensures
            user_views(res@).no_duplicates(),
            user_views(res@).to_set() == rooms.members().dom(),
    {
        rooms.room_ids()
    }
}

/// The mutations of the signaling service.
pub struct MutationRoot;

impl MutationRoot {
    /// `createSessionId`: a request with a session gets its user id back and
    /// no token; otherwise a new random user id of `SESSION_ID_LEN` letters
    /// and digits is made, to be signed.
    pub fn create_session_id(session: Option<&SessionId>) -> (res: SessionStep)
        ensures
            session matches Some(s) ==> (res matches SessionStep::Existing(u) && u.user_id@ == s.0@
                && u.token is None),
            session is None ==> (res matches SessionStep::Issue(id) && id@.len() == SESSION_ID_LEN
                && forall|i: int| 0 <= i < id@.len() ==> #[trigger] is_alphanumeric(id@[i])),
    {
        match session {
            Some(s) => SessionStep::Existing(UserSession { user_id: s.to_string(), token: None }),
            None => SessionStep::Issue(random_user_id(SESSION_ID_LEN)),
        }
    }

    /// The answer to `createSessionId` once the token for a new user id is
    /// signed, and the `Set-Cookie` value that hands the token over.
    pub fn issued_session(user_id: String, token: String) -> (res: (UserSession, String))
        ensures
            res.0.user_id@ == user_id@,
            res.0.token matches Some(t) && t@ == token@,
            res.1@ == session_cookie_spec(token@),
    {
        let cookie = session_cookie(token.as_str());
        (UserSession { user_id, token: Some(token) }, cookie)
    }

    /// `signal`: the signal `payload` from the requesting user to `peer_id`.
    /// `Ok(None)` when `peer_id` does not listen; otherwise the signal to put
    /// on the peer's channel, which names the sender.
    pub fn signal(
        rooms: &RoomsStorage,
        session: Option<&SessionId>,
        peer_id: &str,
        payload: String,
    ) -> (res: Result<Option<Signal>, SignalError>)
        ensures
            session is None ==> res == Err::<Option<Signal>, SignalError>(SignalError::Unauthorized),
            session matches Some(s) ==> (res matches Ok(out) && (out is Some
                == rooms.listeners().contains(peer_id@)) && (out matches Some(sig)
                ==> sig.payload@ == payload@ && sig.peer_id@ == s.0@)),
    {
        let user = match get_user_id(session) {
            Ok(u) => u,
            Err(e) => {
                return Err(e);
            },
        };
        if rooms.is_listening(peer_id) {
            Ok(Some(Signal { payload, peer_id: user.to_string() }))
        } else {
            Ok(None)
        }
    }
}

/// The subscriptions of the signaling service.
pub struct SignalSubscriptions;

impl SignalSubscriptions {
    /// `room`: the requesting user joins room `room_id`. Refused without a
    /// session, and for users that do not listen for signals.
    pub fn room(
        rooms: &mut RoomsStorage,
        session: Option<&SessionId>,
        room_id: String,
    ) -> (res: Result<JoinOutcome, SignalError>)
        ensures
            final(rooms).listeners() == old(rooms).listeners(),
            session is None ==> res == Err::<JoinOutcome, SignalError>(SignalError::Unauthorized)
                && final(rooms).members() == old(rooms).members(),
            session matches Some(s) ==> if old(rooms).listeners().contains(s.0@) {
                &&& res matches Ok(out)
                &&& out.created == !old(rooms).members().dom().contains(room_id@)
                &&& out.snapshot is Some == !members_of(old(rooms).members(), room_id@).contains(s.0@)
                &&& out.snapshot matches Some(r) ==> r.wf() && r.members() == final(rooms).members()[room_id@]
                &&& final(rooms).members() == old(rooms).members().insert(
                    room_id@,
                    members_of(old(rooms).members(), room_id@).insert(s.0@),
                )
            } else {
                res == Err::<JoinOutcome, SignalError>(SignalError::NotListening) && final(rooms).members()
                    == old(rooms).members()
            },
    {
        let user = match get_user_id(session) {
            Ok(u) => u,
            Err(e) => {
                return Err(e);
            },
        };
        if !rooms.is_listening(user.value()) {
            return Err(SignalError::NotListening);
        }
        Ok(rooms.join_room(room_id, user.to_string()))
    }

    /// `signals`: the requesting user opens a signal stream. `Ok(true)` when
    /// the user did not listen before (its signal channel is to be made).
    pub fn signals(rooms: &mut RoomsStorage, session: Option<&SessionId>) -> (res: Result<bool, SignalError>)
        ensures
            final(rooms).members() == old(rooms).members(),
            session is None ==> res == Err::<bool, SignalError>(SignalError::Unauthorized) && final(rooms).listeners()
                == old(rooms).listeners(),
            session matches Some(s) ==> res == Ok::<bool, SignalError>(!old(rooms).listeners().contains(s.0@))
                && final(rooms).listeners() == old(rooms).listeners().insert(s.0@),
    {
        let user = match get_user_id(session) {
            Ok(u) => u,
            Err(e) => {
                return Err(e);
            },
        };
        Ok(rooms.listen(user.to_string()))
    }
}

} // verus!
