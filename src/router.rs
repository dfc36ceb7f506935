//! The decisions of the HTTP API: one route, `api/crypto-sanctions/{address}`,
//! read with `GET`, answered with a flat JSON object.
use crate::address::views;
use crate::path::{path_segments, resolve, split_slash};
use crate::store::DatabaseProvider;
use vstd::prelude::*;

verus! {

/// The protocol version of a request.
#[derive(Debug, Clone, Copy, PartialEq, Eq, Structural)]
pub enum HttpVersion {
    Http09,
    Http10,
    Http11,
    Http2,
    Http3,
}

/// The method of a request.
#[derive(Debug, Clone, Copy, PartialEq, Eq, Structural)]
pub enum Method {
    Get,
    Head,
    Post,
    Put,
    Delete,
    Patch,
    Options,
    Connect,
    Trace,
    Other,
}

/// A response: its status code, the methods that an `allow` header lists,
/// and a JSON body.
pub struct Response {
    pub status: u16,
    pub allow: Option<String>,
    pub body: String,
}

/// The content type of every response body.
pub const CONTENT_TYPE: &'static str = "application/json";

/// What a request asks for, once its version, path, method and address have
/// been checked.
pub enum Outcome {
    VersionNotSupported,
    NotFound,
    MethodNotAllowed,
    BadRequest,
    Lookup(String),
}

/// Versions up to HTTP/1.1 are served.
pub open spec fn version_supported(v: HttpVersion) -> bool {
    v is Http09 || v is Http10 || v is Http11
}

/// The address named by a path whose normal form is
/// `api/crypto-sanctions/{address}`: the segments that normalisation keeps
/// are those of the normal form (`lemma_normal_form_segments`).
pub open spec fn route_address(path: Seq<char>) -> Option<Seq<char>> {
    let segs = resolve(split_slash(path));
    if segs.len() == 3 && segs[0] == "api"@ && segs[1] == "crypto-sanctions"@ {
        Some(segs[2])
    } else {
        None
    }
}

/// Whether a character is alphabetic or numeric in the Unicode sense.
pub uninterp spec fn alphanumeric(c: char) -> bool;

/// Relies on `char::is_alphanumeric`.
#[verifier::external_body]
fn is_alphanumeric(c: char) -> (r: bool)
    ensures
        r == alphanumeric(c),
{
    c.is_alphanumeric()
}

/// Every character of `s` is alphanumeric.
pub open spec fn all_alphanumeric(s: Seq<char>) -> bool {
    forall|i: int| 0 <= i < s.len() ==> alphanumeric(#[trigger] s[i])
}

/// `{"error": "<message>"}`
pub open spec fn error_body(message: Seq<char>) -> Seq<char> {
    "{\"error\": \""@ + message + "\"}"@
}

/// `{"address": "<address>", "sanctioned": <true|false>}`
pub open spec fn lookup_body(address: Seq<char>, sanctioned: bool) -> Seq<char> {
    "{\"address\": \""@ + address + "\", \"sanctioned\": "@ + (if sanctioned {
        "true"@
    } else {
        "false"@
    }) + "}"@
}

fn error_response(status: u16, message: &str) -> (r: Response)
    ensures
        r.status == status,
        r.allow is None,
        r.body@ == error_body(message@),
{
    let mut body = String::from_str("{\"error\": \"");
    body.append(message);
    body.append("\"}");
    Response { status, allow: None, body }
}

/// `400 Bad Request`.
pub fn bad_request() -> (r: Response)
    ensures
        r.status == 400,
        r.allow is None,
        r.body@ == error_body("bad request"@),
{
    error_response(400, "bad request")
}

/// `404 Not Found`.
pub fn not_found() -> (r: Response)
    ensures
        r.status == 404,
        r.allow is None,
        r.body@ == error_body("not found"@),
{
    error_response(404, "not found")
}

/// `405 Method Not Allowed`, listing the methods that are allowed.
pub fn method_not_allowed(allowed: &str) -> (r: Response)
    ensures
        r.status == 405,
        r.allow is Some && r.allow->Some_0@ == allowed@,
        r.body@ == error_body("method not allowed"@),
{
    let mut r = error_response(405, "method not allowed");
    r.allow = Some(String::from_str(allowed));
    r
}

/// `505 HTTP Version Not Supported`.
pub fn http_version_not_supported() -> (r: Response)
    ensures
        r.status == 505,
        r.allow is None,
        r.body@ == error_body("http version not supported"@),
{
    error_response(505, "http version not supported")
}

/// `500 Internal Server Error`.
pub fn internal_server_error() -> (r: Response)
    ensures
        r.status == 500,
        r.allow is None,
        r.body@ == error_body("internal server error"@),
{
    error_response(500, "internal server error")
}

/// Whether every character of `s` is alphanumeric.
pub fn is_alphanumeric_text(s: &str) -> (r: bool)
    ensures
        r == all_alphanumeric(s@),
{
    broadcast use vstd::string::axiom_spec_iter, vstd::string::next_postcondition;

    let n = s.unicode_len();
    let mut chars = s.chars();
    let mut i: usize = 0;
    loop
        invariant
            n == s@.len(),
            i <= n,
            vstd::std_specs::iter::IteratorSpec::obeys_prophetic_iter_laws(&chars),
            vstd::std_specs::iter::IteratorSpec::remaining(&chars) == s@.subrange(
                i as int,
                n as int,
            ),
            forall|j: int| 0 <= j < i ==> alphanumeric(#[trigger] s@[j]),
        ensures
            i == n,
        decreases n - i,
    {
        let c = match chars.next() {
            Some(c) => c,
            None => {
                assert(s@.subrange(i as int, n as int).len() == 0);
                break;
            },
        };
        assert(c == s@[i as int]);
        if !is_alphanumeric(c) {
            return false;
        }
        i = i + 1;
        assert(vstd::std_specs::iter::IteratorSpec::remaining(&chars) =~= s@.subrange(
            i as int,
            n as int,
        ));
    }
    true
}

/// Checks a request in order: version, route, method, then the address.
pub fn classify(version: HttpVersion, method: Method, path: &str) -> (r: Outcome)
    ensures
        !version_supported(version) ==> r is VersionNotSupported,
        version_supported(version) && route_address(path@) is None ==> r is NotFound,
        version_supported(version) && route_address(path@) is Some && !(method is Get)
            ==> r is MethodNotAllowed,
        version_supported(version) && route_address(path@) is Some && method is Get
            && !all_alphanumeric(route_address(path@)->Some_0) ==> r is BadRequest,
        version_supported(version) && route_address(path@) is Some && method is Get
            && all_alphanumeric(route_address(path@)->Some_0) ==> (r matches Outcome::Lookup(a)
            && a@ == route_address(path@)->Some_0),
{
    match version {
        HttpVersion::Http09 | HttpVersion::Http10 | HttpVersion::Http11 => {},
        _ => return Outcome::VersionNotSupported,
    }
    let segs = path_segments(path);
    let api = String::from_str("api");
    let route = String::from_str("crypto-sanctions");
    proof {
        reveal_strlit("api");
        reveal_strlit("crypto-sanctions");
    }
    if segs.len() != 3 || segs[0] != api || segs[1] != route {
        assert(route_address(path@) is None);
        return Outcome::NotFound;
    }
    assert(views(segs@)[0] == segs@[0]@);
    match method {
        Method::Get => {},
        _ => return Outcome::MethodNotAllowed,
    }
    let address = segs[2].clone();
    if !is_alphanumeric_text(address.as_str()) {
        return Outcome::BadRequest;
    }
    Outcome::Lookup(address)
}

/// The response owed to an outcome; a lookup asks the store.
pub fn respond<D: DatabaseProvider>(db: &D, outcome: Outcome) -> (r: Response)
    ensures
        outcome is VersionNotSupported ==> r.status == 505 && r.body@ == error_body(
            "http version not supported"@,
        ),
        outcome is NotFound ==> r.status == 404 && r.body@ == error_body("not found"@),
        outcome is MethodNotAllowed ==> r.status == 405 && r.allow is Some && r.allow->Some_0@
            == "GET"@ && r.body@ == error_body("method not allowed"@),
        outcome is BadRequest ==> r.status == 400 && r.body@ == error_body("bad request"@),
        outcome is Lookup ==> (r.status == 200 && r.body@ == lookup_body(
            outcome->Lookup_0@,
            db.dataset().contains(outcome->Lookup_0@),
        )) || (!db.infallible() && r.status == 500 && r.body@ == error_body(
            "internal server error"@,
        )),
        !(outcome is MethodNotAllowed) ==> r.allow is None,
{
    match outcome {
        Outcome::VersionNotSupported => http_version_not_supported(),
        Outcome::NotFound => not_found(),
        Outcome::MethodNotAllowed => method_not_allowed("GET"),
        Outcome::BadRequest => bad_request(),
        Outcome::Lookup(address) => {
            let mut body = String::from_str("{\"address\": \"");
            body.append(address.as_str());
            match db.search(address) {
                Ok(sanctioned) => {
                    body.append("\", \"sanctioned\": ");
                    if sanctioned {
                        body.append("true");
                    } else {
                        body.append("false");
                    }
                    body.append("}");
                    Response { status: 200, allow: None, body }
                },
                Err(_) => internal_server_error(),
            }
        },
    }
}

/// Answers one request against the store.
pub fn service_fn<D: DatabaseProvider>(
    db: &D,
    version: HttpVersion,
    method: Method,
    path: &str,
) -> (r: Response)
    ensures
        !version_supported(version) ==> r.status == 505 && r.body@ == error_body(
            "http version not supported"@,
        ),
        version_supported(version) && route_address(path@) is None ==> r.status == 404
            && r.body@ == error_body("not found"@),
        version_supported(version) && route_address(path@) is Some && !(method is Get) ==> r.status
            == 405 && r.allow is Some && r.allow->Some_0@ == "GET"@ && r.body@ == error_body(
            "method not allowed"@,
        ),
        version_supported(version) && route_address(path@) is Some && method is Get
            && !all_alphanumeric(route_address(path@)->Some_0) ==> r.status == 400 && r.body@
            == error_body("bad request"@),
        version_supported(version) && route_address(path@) is Some && method is Get
            && all_alphanumeric(route_address(path@)->Some_0) ==> (r.status == 200 && r.body@
            == lookup_body(
            route_address(path@)->Some_0,
            db.dataset().contains(route_address(path@)->Some_0),
        )) || (!db.infallible() && r.status == 500 && r.body@ == error_body(
            "internal server error"@,
        )),
        r.status != 405 ==> r.allow is None,
{
    respond(db, classify(version, method, path))
}

} // verus!
