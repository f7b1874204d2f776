//! Settings of the service: the port it listens on and the database it uses.

use vstd::prelude::*;
use crate::decimal::{decimal, usize_to_decimal};
use crate::text::push_str;

verus! {

/// The settings of the service.
pub struct Config {
    pub application_port: u16,
    pub database: DatabaseConfig,
}

/// Where the PostgreSQL database is and how to log in to it.
pub struct DatabaseConfig {
    pub username: String,
    pub password: String,
    pub host: String,
    pub port: u16,
    pub database_name: String,
}

/// `postgres://<username>:<password>@<host>:<port>/<database_name>`, the port in decimal.
pub open spec fn database_url(
    username: Seq<char>,
    password: Seq<char>,
    host: Seq<char>,
    port: u16,
    database_name: Seq<char>,
) -> Seq<char> {
    "postgres://"@ + username + ":"@ + password + "@"@ + host + ":"@ + decimal(port as nat) + "/"@
        + database_name
}

impl DatabaseConfig {
    /// The connection URL of the database.
    pub fn url(&self) -> (res: String)
        ensures
            res@ == database_url(
                self.username@,
                self.password@,
                self.host@,
                self.port,
                self.database_name@,
            ),
    {
        let mut s = String::new();
        push_str(&mut s, "postgres://");
        push_str(&mut s, self.username.as_str());
        push_str(&mut s, ":");
        push_str(&mut s, self.password.as_str());
        push_str(&mut s, "@");
        push_str(&mut s, self.host.as_str());
        push_str(&mut s, ":");
        let port = usize_to_decimal(self.port as usize);
        push_str(&mut s, port.as_str());
        push_str(&mut s, "/");
        push_str(&mut s, self.database_name.as_str());
        s
    }
}

/// Law: the connection URL carries every setting whole and unchanged, at
/// its place: `postgres://`, the username, `:`, the password, `@`, the host,
/// `:`, the port in decimal, `/`, the database name. So the password is
/// the text right after the username and its `:`, whatever its length.
pub proof fn law_url_carries_each_setting(
    username: Seq<char>,
    password: Seq<char>,
    host: Seq<char>,
    port: u16,
    database_name: Seq<char>,
)
    ensures
        ({
            let url = database_url(username, password, host, port, database_name);
            let dp = decimal(port as nat);
            let a = 11 + username.len() as int;
            let b = a + 1 + password.len() as int;
            let c = b + 1 + host.len() as int;
            let e = c + 1 + dp.len() as int;
            &&& url.len() == e + 1 + database_name.len() as int
            &&& url.subrange(0, 11) == "postgres://"@
            &&& url.subrange(11, a) == username
            &&& url[a] == ':'
            &&& url.subrange(a + 1, b) == password
            &&& url[b] == '@'
            &&& url.subrange(b + 1, c) == host
            &&& url[c] == ':'
            &&& url.subrange(c + 1, e) == dp
            &&& url[e] == '/'
            &&& url.subrange(e + 1, url.len() as int) == database_name
        }),
{
    reveal_strlit("postgres://");
    reveal_strlit(":");
    reveal_strlit("@");
    reveal_strlit("/");
    let url = database_url(username, password, host, port, database_name);
    let dp = decimal(port as nat);
    let a = 11 + username.len() as int;
    let b = a + 1 + password.len() as int;
    let c = b + 1 + host.len() as int;
    let e = c + 1 + dp.len() as int;
    let p0 = "postgres://"@;
    assert(p0.len() == 11);
    let s1 = p0 + username;
    let s2 = s1 + seq![':'];
    let s3 = s2 + password;
    let s4 = s3 + seq!['@'];
    let s5 = s4 + host;
    let s6 = s5 + seq![':'];
    let s7 = s6 + dp;
    let s8 = s7 + seq!['/'];
    assert(":"@ =~= seq![':']);
    assert("@"@ =~= seq!['@']);
    assert("/"@ =~= seq!['/']);
    assert(url =~= s8 + database_name);
    assert(url.subrange(0, 11) =~= p0);
    assert(url.subrange(11, a) =~= username);
    assert(url[a] == s2[a]);
    assert(url.subrange(a + 1, b) =~= password);
    assert(url[b] == s4[b]);
    assert(url.subrange(b + 1, c) =~= host);
    assert(url[c] == s6[c]);
    assert(url.subrange(c + 1, e) =~= dp);
    assert(url[e] == s8[e]);
    assert(url.subrange(e + 1, url.len() as int) =~= database_name);
}

/// The settings the service runs with.
pub fn get_config() -> (res: Config)
    ensures
        res.application_port == 8080,
        res.database.username@ == "postgres"@,
        res.database.password@ == "postgres"@,
        res.database.host@ == "localhost"@,
        res.database.port == 5432,
        res.database.database_name@ == "webrtc_graphql"@,
{
    Config {
        application_port: 8080,
        database: DatabaseConfig {
            database_name: "webrtc_graphql".to_owned(),
            host: "localhost".to_owned(),
            password: "postgres".to_owned(),
            username: "postgres".to_owned(),
            port: 5432,
        },
    }
}

/// `http://localhost:<port>`, the port in decimal.
pub open spec fn local_base_url_spec(port: u16) -> Seq<char> {
    "http://localhost:"@ + decimal(port as nat)
}

/// The base URL of a service that listens on `port` of this machine.
pub fn local_base_url(port: u16) -> (res: String)
    ensures
        res@ == local_base_url_spec(port),
{
    let mut s = String::new();
    push_str(&mut s, "http://localhost:");
    let p = usize_to_decimal(port as usize);
    push_str(&mut s, p.as_str());
    s
}

} // verus!
