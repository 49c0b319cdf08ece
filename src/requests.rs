use vstd::prelude::*;

use crate::error::Error;
use crate::keys::{precision_code, Precision};
use crate::serialization::{conversion, escaped, trimmed, Escape};
use crate::text::{chars_of, int_text, push_int};

verus! {

/// Query parameters, as names and values.
pub type Params = Vec<(String, String)>;

/// The text of query parameters.
pub open spec fn params_view(p: Seq<(String, String)>) -> Seq<(Seq<char>, Seq<char>)> {
    p.map_values(|e: (String, String)| (e.0@, e.1@))
}

fn param(name: &str, value: &str) -> (r: (String, String))
    ensures
        r.0@ == name@,
        r.1@ == value@,
{
    (String::from_str(name), String::from_str(value))
}

/// Parameters that carry the credentials, user `u` then password `p`, if any.
pub fn credential_params(authentication: &Option<(String, String)>) -> (r: Params)
    ensures
        params_view(r@) == match authentication {
            Some(a) => seq![("u"@, a.0@), ("p"@, a.1@)],
            None => Seq::empty(),
        },
{
    let mut r: Params = Vec::new();
    if let Some(a) = authentication {
        r.push(param("u", a.0.as_str()));
        r.push(param("p", a.1.as_str()));
    }
    proof {
        assert(params_view(r@) =~= match authentication {
            Some(a) => seq![("u"@, a.0@), ("p"@, a.1@)],
            None => Seq::empty(),
        });
    }
    r
}

/// Parameters of a write request: the database, the precision (seconds when
/// none is given) and, if given, the retention policy.
pub fn write_params(db: &str, precision: Option<Precision>, rp: Option<&str>) -> (r: Params)
    ensures
        params_view(r@) == seq![
            ("db"@, db@),
            ("precision"@, match precision {
                Some(p) => precision_code(p),
                None => "s"@,
            }),
        ] + match rp {
            Some(t) => seq![("rp"@, t@)],
            None => Seq::empty(),
        },
{
    let mut r: Params = Vec::new();
    r.push(param("db", db));
    match precision {
        Some(p) => r.push(param("precision", p.to_str())),
        None => r.push(param("precision", "s")),
    }
    if let Some(t) = rp {
        r.push(param("rp", t));
    }
    proof {
        assert(params_view(r@) =~= seq![
            ("db"@, db@),
            ("precision"@, match precision {
                Some(p) => precision_code(p),
                None => "s"@,
            }),
        ] + match rp {
            Some(t) => seq![("rp"@, t@)],
            None => Seq::empty(),
        });
    }
    r
}

/// Parameters of a query request: the database, the statement, the epoch if
/// given, and `chunked=true` when asked for.
pub fn query_params(db: &str, q: &str, epoch: Option<Precision>, chunked: bool) -> (r: Params)
    ensures
        params_view(r@) == seq![("db"@, db@), ("q"@, q@)] + match epoch {
            Some(p) => seq![("epoch"@, precision_code(p))],
            None => Seq::empty(),
        } + if chunked {
            seq![("chunked"@, "true"@)]
        } else {
            Seq::empty()
        },
{
    let mut r: Params = Vec::new();
    r.push(param("db", db));
    r.push(param("q", q));
    if let Some(p) = epoch {
        r.push(param("epoch", p.to_str()));
    }
    if chunked {
        r.push(param("chunked", "true"));
    }
    proof {
        assert(params_view(r@) =~= seq![("db"@, db@), ("q"@, q@)] + match epoch {
            Some(p) => seq![("epoch"@, precision_code(p))],
            None => Seq::empty(),
        } + if chunked {
            seq![("chunked"@, "true"@)]
        } else {
            Seq::empty()
        });
    }
    r
}

/// The message of a refused login.
pub open spec fn credentials_message() -> Seq<char> {
    "Invalid authentication credentials."@
}

/// The result of a write request, by the status and the body of the answer.
pub open spec fn write_result(status: u16, body: Seq<char>, r: Result<(), Error>) -> bool {
    if status == 204 {
        r is Ok
    } else if status == 400 {
        r matches Err(Error::SyntaxError(t)) && t@ == trimmed(escaped(Escape::Strip, body))
    } else if status == 401 || status == 403 {
        r matches Err(Error::InvalidCredentials(t)) && t@ == credentials_message()
    } else if status == 404 {
        r matches Err(Error::DataBaseDoesNotExist(t)) && t@ == trimmed(escaped(Escape::Strip, body))
    } else if status == 500 {
        r matches Err(Error::RetentionPolicyDoesNotExist(t)) && t@ == body
    } else {
        r matches Err(Error::Unknow(t)) && t@ == "Received status code "@ + int_text(status as int)
    }
}

/// What a write request came to, by the status and the body of the answer.
pub fn write_outcome(status: u16, body: &str) -> (r: Result<(), Error>)
    ensures
        write_result(status, body@, r),
{
    if status == 204 {
        Ok(())
    } else if status == 400 {
        Err(Error::SyntaxError(conversion(body)))
    } else if status == 401 || status == 403 {
        Err(Error::InvalidCredentials(String::from_str("Invalid authentication credentials.")))
    } else if status == 404 {
        Err(Error::DataBaseDoesNotExist(conversion(body)))
    } else if status == 500 {
        Err(Error::RetentionPolicyDoesNotExist(String::from_str(body)))
    } else {
        let mut t = String::from_str("Received status code ");
        push_int(&mut t, status as i64);
        Err(Error::Unknow(t))
    }
}

/// How a query request goes on, by the status of the answer.
#[derive(Debug, PartialEq, Eq)]
pub enum QueryStep {
    /// the answer holds the results
    Accept,
    /// the answer holds the server's error message, a syntax error
    ReadError,
    /// the request failed with this error
    Reject(Error),
}

/// How a query request goes on, by the status of the answer.
pub fn query_step(status: u16) -> (r: QueryStep)
    ensures
        status == 200 ==> r is Accept,
        status == 400 ==> r is ReadError,
        (status == 401 || status == 403) ==> (r matches QueryStep::Reject(
            Error::InvalidCredentials(t),
        ) && t@ == credentials_message()),
        !(status == 200 || status == 400 || status == 401 || status == 403) ==> (r matches QueryStep::Reject(
            Error::Unknow(t),
        ) && t@ == "There is something wrong"@),
{
    if status == 200 {
        QueryStep::Accept
    } else if status == 400 {
        QueryStep::ReadError
    } else if status == 401 || status == 403 {
        QueryStep::Reject(
            Error::InvalidCredentials(String::from_str("Invalid authentication credentials.")),
        )
    } else {
        QueryStep::Reject(Error::Unknow(String::from_str("There is something wrong")))
    }
}

/// The syntax error for the message that the server gave.
pub fn query_syntax_error(message: &str) -> (r: Error)
    ensures
        r matches Error::SyntaxError(t) && t@ == trimmed(escaped(Escape::Strip, message@)),
{
    Error::SyntaxError(conversion(message))
}

/// Whether a ping answer tells that the server is up.
pub fn ping_succeeded(status: u16) -> (r: bool)
    ensures
        r == (status == 204),
{
    status == 204
}

/// The version that a ping answer reports: its version header when the
/// status is 204 (`None` when the header is not text, "Don't know" when it is
/// absent), else none.
pub fn version_reply(status: u16, header: Option<Option<String>>) -> (r: Option<String>)
    ensures
        status != 204 ==> r.is_none(),
        status == 204 ==> match header {
            None => (r matches Some(v) && v@ == "Don't know"@),
            Some(h) => r == h,
        },
{
    if status == 204 {
        match header {
            None => Some(String::from_str("Don't know")),
            Some(h) => h,
        }
    } else {
        None
    }
}

/// What `str::to_lowercase` makes of a text.
pub uninterp spec fn lower_of(s: Seq<char>) -> Seq<char>;

/// Relies on `str::to_lowercase`: the result depends on the characters alone.
#[verifier::external_body]
fn lowercase(s: &str) -> (r: String)
    ensures
        r@ == lower_of(s@),
{
    s.to_lowercase()
}

/// `s` holds `p` from position `i` on.
pub open spec fn occurs_at(s: Seq<char>, p: Seq<char>, i: int) -> bool {
    0 <= i && i + p.len() <= s.len() && s.subrange(i, i + p.len()) == p
}

/// `s` holds `p` somewhere.
pub open spec fn occurs_in(s: Seq<char>, p: Seq<char>) -> bool {
    exists|i: int| occurs_at(s, p, i)
}

/// A lower-case statement that only reads: it starts with `select` and holds no
/// `into`, or it starts with `show`.
pub open spec fn is_read_statement(l: Seq<char>) -> bool {
    (occurs_at(l, seq!['s', 'e', 'l', 'e', 'c', 't'], 0) && !occurs_in(l, seq!['i', 'n', 't', 'o']))
        || occurs_at(l, seq!['s', 'h', 'o', 'w'], 0)
}

fn matches_at(s: &Vec<char>, p: &[char], i: usize) -> (r: bool)
    ensures
        r == occurs_at(s@, p@, i as int),
{
    if i > s.len() || p.len() > s.len() - i {
        return false;
    }
    let mut k: usize = 0;
    while k < p.len()
        invariant
            i + p@.len() <= s@.len(),
            i + p.len() <= s.len(),
            k <= p@.len(),
            s@.subrange(i as int, i + k) == p@.take(k as int),
        decreases p@.len() - k,
    {
        if s[i + k] != p[k] {
            assert(s@.subrange(i as int, i + p@.len())[k as int] != p@[k as int]);
            return false;
        }
        assert(s@.subrange(i as int, i + k + 1) == p@.take(k + 1));
        k = k + 1;
    }
    assert(p@.take(p@.len() as int) == p@);
    true
}

fn occurs(s: &Vec<char>, p: &[char]) -> (r: bool)
    ensures
        r == occurs_in(s@, p@),
{
    let mut i: usize = 0;
    while i < s.len()
        invariant
            i <= s@.len(),
            forall|j: int| 0 <= j < i ==> !occurs_at(s@, p@, j),
        decreases s@.len() - i,
    {
        if matches_at(s, p, i) {
            return true;
        }
        i = i + 1;
    }
    if matches_at(s, p, i) {
        return true;
    }
    assert forall|j: int| !occurs_at(s@, p@, j) by {
        if j > i {
            assert(j + p@.len() > s@.len());
        }
    }
    false
}

/// Whether a lower-case statement only reads.
pub fn is_read_query(lowered: &str) -> (r: bool)
    ensures
        r == is_read_statement(lowered@),
{
    let l = chars_of(lowered);
    let select = ['s', 'e', 'l', 'e', 'c', 't'];
    let into = ['i', 'n', 't', 'o'];
    let show = ['s', 'h', 'o', 'w'];
    assert(select@ == seq!['s', 'e', 'l', 'e', 'c', 't']);
    assert(into@ == seq!['i', 'n', 't', 'o']);
    assert(show@ == seq!['s', 'h', 'o', 'w']);
    (matches_at(&l, select.as_slice(), 0) && !occurs(&l, into.as_slice())) || matches_at(
        &l,
        show.as_slice(),
        0,
    )
}

/// Whether a statement is sent with GET, as statements that only read are;
/// others are sent with POST. Case does not matter.
pub fn uses_get(q: &str) -> (r: bool)
    ensures
        r == is_read_statement(lower_of(q@)),
{
    let lowered = lowercase(q);
    is_read_query(lowered.as_str())
}

} // verus!
