//! Password authentication of existing users through the cloud console: the
//! decisions taken on the console's answers, the query sent to it, and the
//! client-facing error messages. The HTTP exchange itself is the caller's.
use vstd::prelude::*;
use vstd::string::StrSliceExecFns;
use crate::text::{hex_lower, encode_hex, join2};

verus! {

/// Where the caller connects once the console has authenticated the client.
pub struct DatabaseInfo {
    pub host: String,
    pub port: u16,
    pub dbname: String,
    pub user: String,
    pub password: Option<String>,
}

/// The console's answer to an authentication request.
pub enum ProxyAuthResponse {
    Ready { conn_info: DatabaseInfo },
    Error { error: String },
    NotReady { ready: bool },
}

/// Errors of the legacy console flow.
pub enum LegacyAuthError {
    /// Authentication error reported by the console.
    AuthFailed(String),
    /// HTTP status, other than success, returned by the console, as displayed.
    HttpStatus(String),
    /// The console's answer was not well-formed; the parser's message.
    BadResponse(String),
    /// The request could not be made.
    Transport(String),
    /// The waiter for the console's answer could not be registered.
    WaiterRegister(String),
    /// Waiting for the console's answer failed.
    WaiterWait(String),
}

/// The client's credentials.
pub struct ClientCredentials {
    pub user: String,
    pub dbname: String,
}

/// What the flow does after the console's first answer.
pub enum AuthStep {
    /// Connect with this.
    Done(DatabaseInfo),
    /// Wait for the console to report the outcome through the waiter.
    WaitForConsole,
}

/// The suffix that marks a user of the legacy flow.
pub open spec fn existing_user_suffix() -> Seq<char> {
    seq!['@', 'z', 'e', 'n', 'i', 't', 'h']
}

/// `s` ends with `suffix`.
pub open spec fn ends_with(s: Seq<char>, suffix: Seq<char>) -> bool {
    s.len() >= suffix.len() && s.subrange(s.len() - suffix.len(), s.len() as int) == suffix
}

/// The text of `bytes` decoded as UTF-8; `None` where they are not valid UTF-8.
pub uninterp spec fn utf8_text(bytes: Seq<u8>) -> Option<Seq<char>>;

/// Relies on std::str::from_utf8: the bytes as a string where they are valid
/// UTF-8, an error otherwise.
#[verifier::external_body]
fn decode_utf8(bytes: &[u8]) -> (r: Option<&str>)
    ensures
        match utf8_text(bytes@) {
            Some(t) => r is Some && r.unwrap()@ == t,
            None => r is None,
        },
{
    std::str::from_utf8(bytes).ok()
}

/// The password from a password message: its bytes as UTF-8 text, which must
/// end in a NUL character, without that NUL.
pub fn parse_password(bytes: &[u8]) -> (r: Option<&str>)
    ensures
        match utf8_text(bytes@) {
            Some(t) => if t.len() > 0 && t.last() == '\0' {
                r is Some && r.unwrap()@ == t.drop_last()
            } else {
                r is None
            },
            None => r is None,
        },
{
    let s = decode_utf8(bytes)?;
    let n = s.unicode_len();
    if n > 0 && s.get_char(n - 1) == '\0' {
        let p = s.substring_char(0, n - 1);
        assert(p@ =~= s@.drop_last());
        Some(p)
    } else {
        None
    }
}

/// `"login"` and the other names of the console's query parameters.
pub open spec fn query_names() -> Seq<Seq<char>> {
    seq![
        seq!['l', 'o', 'g', 'i', 'n'],
        seq!['d', 'a', 't', 'a', 'b', 'a', 's', 'e'],
        seq!['m', 'd', '5', 'r', 'e', 's', 'p', 'o', 'n', 's', 'e'],
        seq!['s', 'a', 'l', 't'],
        seq!['p', 's', 'q', 'l', '_', 's', 'e', 's', 's', 'i', 'o', 'n', '_', 'i', 'd']
    ]
}

impl ClientCredentials {
    /// Users of the legacy flow are those whose name ends in `@zenith`.
    pub fn is_existing_user(&self) -> (r: bool)
        ensures
            r == ends_with(self.user@, existing_user_suffix()),
    {
        let suffix: Vec<char> = vec!['@', 'z', 'e', 'n', 'i', 't', 'h'];
        let u = self.user.as_str();
        let n = u.unicode_len();
        let m = suffix.len();
        if n < m {
            return false;
        }
        let mut i: usize = 0;
        while i < m
            invariant
                m == 7,
                n >= m,
                n == u@.len(),
                u@ == self.user@,
                suffix@ == existing_user_suffix(),
                i <= m,
                forall|k: int| 0 <= k < i ==> u@[n - m + k] == suffix@[k],
            decreases m - i,
        {
            if u.get_char(n - m + i) != suffix[i] {
                assert(u@.subrange(n - m, n as int)[i as int] != existing_user_suffix()[i as int]);
                return false;
            }
            i = i + 1;
        }
        assert(u@.subrange(n - m, n as int) =~= existing_user_suffix());
        true
    }
}

/// The query pairs of the console request, in order: login, database, MD5
/// response, salt in lower-case hex, and session id.
pub fn auth_query_pairs(creds: &ClientCredentials, md5_response: &str, salt: &[u8; 4], psql_session_id: &str) -> (r: Vec<(String, String)>)
    ensures
        r@.len() == 5,
        forall|i: int| 0 <= i < 5 ==> (#[trigger] r@[i]).0@ == query_names()[i],
        r@[0].1@ == creds.user@,
        r@[1].1@ == creds.dbname@,
        r@[2].1@ == md5_response@,
        r@[3].1@ == hex_lower(salt@),
        r@[4].1@ == psql_session_id@,
{
    proof {
        reveal_strlit("login");
        reveal_strlit("database");
        reveal_strlit("md5response");
        reveal_strlit("salt");
        reveal_strlit("psql_session_id");
    }
    let mut r: Vec<(String, String)> = Vec::new();
    r.push(("login".to_owned(), creds.user.clone()));
    r.push(("database".to_owned(), creds.dbname.clone()));
    r.push(("md5response".to_owned(), md5_response.to_owned()));
    r.push(("salt".to_owned(), encode_hex(salt.as_slice())));
    r.push(("psql_session_id".to_owned(), psql_session_id.to_owned()));
    assert(r@[0].0@ =~= query_names()[0]);
    assert(r@[1].0@ =~= query_names()[1]);
    assert(r@[2].0@ =~= query_names()[2]);
    assert(r@[3].0@ =~= query_names()[3]);
    assert(r@[4].0@ =~= query_names()[4]);
    r
}

/// The step after the console's first answer: a failed HTTP status is
/// `HttpStatus`, an answer that did not parse is `BadResponse`, a reported
/// error is `AuthFailed`, connection info is the result, and "not ready"
/// means waiting for the console.
pub fn handle_auth_response(status_success: bool, status: String, body: Result<ProxyAuthResponse, String>) -> (r: Result<AuthStep, LegacyAuthError>)
    ensures
        !status_success ==> (r matches Err(LegacyAuthError::HttpStatus(s)) && s@ == status@),
        status_success ==> match body {
            Err(e) => r matches Err(LegacyAuthError::BadResponse(m)) && m@ == e@,
            Ok(ProxyAuthResponse::Ready { conn_info }) => r matches Ok(AuthStep::Done(d)) && d == conn_info,
            Ok(ProxyAuthResponse::Error { error }) => r matches Err(LegacyAuthError::AuthFailed(m)) && m@ == error@,
            Ok(ProxyAuthResponse::NotReady { .. }) => r matches Ok(AuthStep::WaitForConsole),
        },
{
    if !status_success {
        return Err(LegacyAuthError::HttpStatus(status));
    }
    match body {
        Err(e) => Err(LegacyAuthError::BadResponse(e)),
        Ok(ProxyAuthResponse::Ready { conn_info }) => Ok(AuthStep::Done(conn_info)),
        Ok(ProxyAuthResponse::Error { error }) => Err(LegacyAuthError::AuthFailed(error)),
        Ok(ProxyAuthResponse::NotReady { .. }) => Ok(AuthStep::WaitForConsole),
    }
}

/// The outcome that the console reported through the waiter: an error
/// message there is `AuthFailed`.
pub fn handle_waiter_outcome(outcome: Result<DatabaseInfo, String>) -> (r: Result<DatabaseInfo, LegacyAuthError>)
    ensures
        match outcome {
            Ok(d) => r matches Ok(x) && x == d,
            Err(e) => r matches Err(LegacyAuthError::AuthFailed(m)) && m@ == e@,
        },
{
    match outcome {
        Ok(d) => Ok(d),
        Err(e) => Err(LegacyAuthError::AuthFailed(e)),
    }
}

impl LegacyAuthError {
    /// The message shown to the client: the full message for an authentication
    /// failure or an HTTP status, "Internal error" for anything else.
    pub fn to_string_client(&self) -> (r: String)
        ensures
            match self {
                LegacyAuthError::AuthFailed(m) => r@ == "Authentication failed: "@ + m@,
                LegacyAuthError::HttpStatus(s) => r@ == "Console responded with an HTTP status: "@ + s@,
                _ => r@ == "Internal error"@,
            },
    {
        match self {
            LegacyAuthError::AuthFailed(m) => join2("Authentication failed: ", m.as_str()),
            LegacyAuthError::HttpStatus(s) => join2("Console responded with an HTTP status: ", s.as_str()),
            _ => "Internal error".to_owned(),
        }
    }
}

} // verus!
