//! Sessions: the id a client is known by, the claims its token carries and
//! the cookie that hands the token to the browser.
//!
//! Signing and checking the token itself is done with `jsonwebtoken` around
//! this module; what goes into the token and how the cookie reads is decided
//! here.

use vstd::prelude::*;
use crate::decimal::{decimal, usize_to_decimal};
use crate::text::push_str;

verus! {

/// How long a session token is valid: two days, in seconds. The session
/// cookie writes its `Max-Age` as this number times 1000 (the two days in
/// milliseconds); browsers read `Max-Age` in seconds, so the cookie
/// outlives the token it carries.
pub const SESSION_MAX_AGE_SECS: u64 = 172800;

/// The id of a signed-in client.
pub struct SessionId(pub String);

/// The name of the session cookie.
pub open spec fn cookie_name_spec() -> Seq<char> {
    "signaling-session-id"@
}

impl SessionId {
    /// The name of the cookie that carries the session token.
    pub fn cookie_name() -> (res: &'static str)
        ensures
            res@ == cookie_name_spec(),
    {
        "signaling-session-id"
    }

    /// The id itself.
    pub fn value(&self) -> (res: &str)
        ensures
            res@ == self.0@,
    {
        self.0.as_str()
    }

    /// The id as an owned string.
    pub fn to_string(&self) -> (res: String)
        ensures
            res@ == self.0@,
    {
        self.0.clone()
    }

    /// The session named by the claims of a checked token.
    pub fn from_claims(claims: Claims) -> (res: SessionId)
        ensures
            res.0@ == claims.user_id@,
    {
        SessionId(claims.user_id)
    }
}

impl AsRef<str> for SessionId {
    fn as_ref(&self) -> (res: &str)
        ensures
            res@ == self.0@,
    {
        self.0.as_str()
    }
}

/// What a session token says: whose session it is and until when (seconds
/// since the Unix epoch) it is good.
pub struct Claims {
    pub exp: u64,
    pub user_id: String,
}

impl Claims {
    /// The claims of a session for `user_id` opened at `now_secs`: it expires
    /// two days later. `None` where that moment does not fit in a `u64`.
    pub fn for_session(user_id: String, now_secs: u64) -> (res: Option<Claims>)
        ensures
            now_secs + SESSION_MAX_AGE_SECS <= u64::MAX ==> (res matches Some(c) && c.exp
                == now_secs + SESSION_MAX_AGE_SECS && c.user_id@ == user_id@),
            now_secs + SESSION_MAX_AGE_SECS > u64::MAX ==> res is None,
    {
        match now_secs.checked_add(SESSION_MAX_AGE_SECS) {
            Some(exp) => Some(Claims { exp, user_id }),
            None => None,
        }
    }
}

/// The `Set-Cookie` value that hands `token` to the browser: the session
/// cookie, its `Max-Age` (`SESSION_MAX_AGE_SECS` times 1000), `SameSite=Lax` and
/// `HttpOnly`.
pub open spec fn session_cookie_spec(token: Seq<char>) -> Seq<char> {
    cookie_name_spec() + "="@ + token + "; Max-Age="@ + decimal((SESSION_MAX_AGE_SECS * 1000) as nat)
        + "; SameSite=Lax; HttpOnly"@
}

/// Writes the `Set-Cookie` value for a session token.
pub fn session_cookie(token: &str) -> (res: String)
    ensures
        res@ == session_cookie_spec(token@),
{
    let mut s = String::new();
    push_str(&mut s, SessionId::cookie_name());
    push_str(&mut s, "=");
    push_str(&mut s, token);
    push_str(&mut s, "; Max-Age=");
    let age = usize_to_decimal((SESSION_MAX_AGE_SECS * 1000) as usize);
    push_str(&mut s, age.as_str());
    push_str(&mut s, "; SameSite=Lax; HttpOnly");
    s
}

/// Law: the session cookie carries the token whole and unchanged: it is
/// `signaling-session-id=`, then the token, whatever its length, then
/// `; Max-Age=172800000; SameSite=Lax; HttpOnly`; so the value between the
/// cookie's first `=` and the end of the token is the token.
pub proof fn law_session_cookie_carries_whole_token(token: Seq<char>)
    ensures
        session_cookie_spec(token).len() == 21 + token.len() as int + 43,
        session_cookie_spec(token).subrange(0, 21) == "signaling-session-id="@,
        session_cookie_spec(token).subrange(21, 21 + token.len() as int) == token,
        session_cookie_spec(token).subrange(21 + token.len() as int, 21 + token.len() as int + 43)
            == "; Max-Age=172800000; SameSite=Lax; HttpOnly"@,
{
    reveal_strlit("signaling-session-id");
    reveal_strlit("=");
    reveal_strlit("; Max-Age=");
    reveal_strlit("; SameSite=Lax; HttpOnly");
    reveal_strlit("signaling-session-id=");
    reveal_strlit("; Max-Age=172800000; SameSite=Lax; HttpOnly");
    let age = decimal((SESSION_MAX_AGE_SECS * 1000) as nat);
    assert(age == seq!['1', '7', '2', '8', '0', '0', '0', '0', '0']) by {
        reveal_with_fuel(decimal, 10);
        assert(decimal(1) =~= seq!['1']);
        assert(decimal(17) =~= seq!['1', '7']);
        assert(decimal(172) =~= seq!['1', '7', '2']);
        assert(decimal(1728) =~= seq!['1', '7', '2', '8']);
        assert(decimal(17280) =~= seq!['1', '7', '2', '8', '0']);
        assert(decimal(172800) =~= seq!['1', '7', '2', '8', '0', '0']);
        assert(decimal(1728000) =~= seq!['1', '7', '2', '8', '0', '0', '0']);
        assert(decimal(17280000) =~= seq!['1', '7', '2', '8', '0', '0', '0', '0']);
        assert(decimal(172800000) =~= seq!['1', '7', '2', '8', '0', '0', '0', '0', '0']);
    }
    let c = session_cookie_spec(token);
    let head = "signaling-session-id="@;
    let tail = "; Max-Age=172800000; SameSite=Lax; HttpOnly"@;
    assert(cookie_name_spec() + "="@ =~= head);
    assert("; Max-Age="@ + age + "; SameSite=Lax; HttpOnly"@ =~= tail);
    assert(head.len() == 21);
    assert(tail.len() == 43);
    assert(c =~= head + token + tail);
    assert(c.len() == 21 + token.len() + 43);
    assert(c.subrange(0, 21) =~= head);
    assert(c.subrange(21, 21 + token.len() as int) =~= token);
    assert(c.subrange(21 + token.len() as int, 21 + token.len() as int + 43) =~= tail);
}

/// The session of a request: the one its session cookie names, else the
/// one its `token` parameter names (a WebSocket request cannot always send
/// cookies).
pub fn request_session(from_cookie: Option<SessionId>, from_param: Option<SessionId>) -> (res: Option<SessionId>)
    ensures
        from_cookie is Some ==> res == from_cookie,
        from_cookie is None ==> res == from_param,
{
    match from_cookie {
        Some(s) => Some(s),
        None => from_param,
    }
}

} // verus!
