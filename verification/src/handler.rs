//! Request routing, response construction and the two business operations.
//!
//! [`handle`] is the full request path: it dispatches on method and path,
//! decodes and persists on save, reads the store verbatim on get, answers
//! preflight with headers only, and leaves unknown routes to the hosting
//! layer. Every response built here carries the fixed cross-origin headers.

use vstd::prelude::*;
use crate::keywords::str_eq;
use crate::grammar::{spec_decode, spec_encode};
use crate::codec::{decode, encode};
use crate::store::{KvStore, store_key};
use crate::{cors_headers, spec_cors_headers, headers_view};

verus! {

/// One HTTP response: status code, headers in order, body text.
pub struct HttpResponse {
    /// The HTTP status code.
    pub status: u16,
    /// Header names with their values, in order.
    pub headers: Vec<(String, String)>,
    /// The response body.
    pub body: String,
}

/// The behavior a request is dispatched to.
pub enum Route {
    /// `OPTIONS /save`: the CORS preflight no-op.
    Preflight,
    /// `POST /save`: decode and persist.
    Save,
    /// `GET /get`: return the stored record verbatim.
    Get,
    /// Anything else: the hosting layer's default response.
    NoMatch,
}

/// The routing table.
pub open spec fn spec_route(method: Seq<char>, path: Seq<char>) -> Route {
    if method == "OPTIONS"@ && path == "/save"@ {
        Route::Preflight
    } else if method == "POST"@ && path == "/save"@ {
        Route::Save
    } else if method == "GET"@ && path == "/get"@ {
        Route::Get
    } else {
        Route::NoMatch
    }
}

/// Selects the behavior for a method and path.
pub fn route(method: &str, path: &str) -> (r: Route)
    ensures
        r == spec_route(method@, path@),
{
    if str_eq(method, "OPTIONS") && str_eq(path, "/save") {
        Route::Preflight
    } else if str_eq(method, "POST") && str_eq(path, "/save") {
        Route::Save
    } else if str_eq(method, "GET") && str_eq(path, "/get") {
        Route::Get
    } else {
        Route::NoMatch
    }
}

/// The cross-origin headers with the JSON content type appended.
pub open spec fn spec_json_headers() -> Seq<(Seq<char>, Seq<char>)> {
    spec_cors_headers().push(("Content-Type"@, "application/json"@))
}

/// Builds the headers of a successful JSON response.
pub fn json_headers() -> (h: Vec<(String, String)>)
    ensures
        headers_view(h@) == spec_json_headers(),
{
    let mut h = cors_headers();
    h.push((String::from_str("Content-Type"), String::from_str("application/json")));
    proof {
        assert(headers_view(h@) =~= spec_json_headers());
    }
    h
}

/// The fixed body of a successful save response.
pub open spec fn spec_save_success_body() -> Seq<char> {
    "{\"success\": true, \"message\": \"Data saved to KV successfully.\"}"@
}

/// Builds the fixed body of a successful save response.
pub fn save_success_body() -> (r: String)
    ensures
        r@ == spec_save_success_body(),
{
    String::from_str("{\"success\": true, \"message\": \"Data saved to KV successfully.\"}")
}

/// The record after a save with the given body: the canonical encoding of
/// the decoded set, or unchanged when the body is rejected.
pub open spec fn save_store_after(rec: Option<Seq<char>>, body: Seq<char>) -> Option<Seq<char>> {
    match spec_decode(body) {
        Some(m) => Some(spec_encode(m)),
        None => rec,
    }
}

/// What the preflight response is: empty 200 with the cross-origin headers.
pub open spec fn preflight_resp(r: HttpResponse) -> bool {
    &&& r.status == 200
    &&& headers_view(r.headers@) == spec_cors_headers()
    &&& r.body@ == Seq::<char>::empty()
}

/// What the save response is: 200 with the fixed JSON body when the body
/// decodes, 400 with a "Bad Request: " detail when it does not.
pub open spec fn save_resp(body: Seq<char>, r: HttpResponse) -> bool {
    if spec_decode(body) is Some {
        &&& r.status == 200
        &&& headers_view(r.headers@) == spec_json_headers()
        &&& r.body@ == spec_save_success_body()
    } else {
        &&& r.status == 400
        &&& headers_view(r.headers@) == spec_cors_headers()
        &&& r.body@.len() >= "Bad Request: "@.len()
        &&& r.body@.subrange(0, "Bad Request: "@.len() as int) == "Bad Request: "@
    }
}

/// What the get response is: the stored record verbatim with status 200,
/// or 404 "No data found" when nothing was ever stored.
pub open spec fn get_resp(rec: Option<Seq<char>>, r: HttpResponse) -> bool {
    match rec {
        Some(v) => {
            &&& r.status == 200
            &&& headers_view(r.headers@) == spec_json_headers()
            &&& r.body@ == v
        },
        None => {
            &&& r.status == 404
            &&& headers_view(r.headers@) == spec_cors_headers()
            &&& r.body@ == "No data found"@
        },
    }
}

/// Handles `OPTIONS /save`.
pub fn handle_preflight() -> (r: HttpResponse)
    ensures
        preflight_resp(r),
{
    HttpResponse { status: 200, headers: cors_headers(), body: String::new() }
}

/// Handles `POST /save`: decodes the body, persists the canonical encoding
/// under the fixed key, and answers 200, or 400 without touching the store.
pub fn handle_save(store: &mut KvStore, body: &str) -> (r: HttpResponse)
    ensures
        final(store)@ == save_store_after(old(store)@, body@),
        save_resp(body@, r),
{
    match decode(body) {
        Err(e) => {
            let mut b = String::from_str("Bad Request: ");
            b.append(e.message.as_str());
            proof {
                reveal_strlit("Bad Request: ");
                assert(b@.subrange(0, "Bad Request: "@.len() as int) =~= "Bad Request: "@);
            }
            HttpResponse { status: 400, headers: cors_headers(), body: b }
        },
        Ok(ks) => {
            let value = encode(&ks);
            let k = store_key();
            store.put(k.as_str(), value);
            HttpResponse { status: 200, headers: json_headers(), body: save_success_body() }
        },
    }
}

/// Handles `GET /get`: returns the stored record verbatim, or 404.
pub fn handle_get(store: &KvStore) -> (r: HttpResponse)
    ensures
        get_resp(store@, r),
{
    let k = store_key();
    match store.get(k.as_str()) {
        Some(v) => HttpResponse { status: 200, headers: json_headers(), body: v.clone() },
        None => HttpResponse {
            status: 404,
            headers: cors_headers(),
            body: String::from_str("No data found"),
        },
    }
}

/// Dispatches one request through the full path. `None` stands for an
/// unknown route, answered by the hosting layer's default response; the
/// store changes only on a save whose body decodes.
pub fn handle(store: &mut KvStore, method: &str, path: &str, body: &str) -> (r: Option<
    HttpResponse,
>)
    ensures
        match spec_route(method@, path@) {
            Route::Preflight => {
                &&& final(store)@ == old(store)@
                &&& r matches Some(resp) && preflight_resp(resp)
            },
            Route::Save => {
                &&& final(store)@ == save_store_after(old(store)@, body@)
                &&& r matches Some(resp) && save_resp(body@, resp)
            },
            Route::Get => {
                &&& final(store)@ == old(store)@
                &&& r matches Some(resp) && get_resp(old(store)@, resp)
            },
            Route::NoMatch => {
                &&& final(store)@ == old(store)@
                &&& r is None
            },
        },
{
    let rt = route(method, path);
    match rt {
        Route::Preflight => Some(handle_preflight()),
        Route::Save => Some(handle_save(store, body)),
        Route::Get => Some(handle_get(store)),
        Route::NoMatch => None,
    }
}

/// A record the service may hold: the canonical encoding of some
/// well-formed keyword set, which decodes back to exactly that set.
pub open spec fn valid_record(rec: Option<Seq<char>>) -> bool {
    match rec {
        Some(v) => exists|m: crate::keywords::KwModel|
            crate::keywords::distinct_keys(m) && v == spec_encode(m) && spec_decode(v) == Some(m),
        None => true,
    }
}

/// The store invariant: the store never holds more than the one record,
/// and after any save that record is the valid serialized form of a
/// well-formed keyword set.
pub proof fn lemma_save_preserves_validity(rec: Option<Seq<char>>, body: Seq<char>)
    requires
        valid_record(rec),
    ensures
        valid_record(save_store_after(rec, body)),
{
    if spec_decode(body) is Some {
        let m = spec_decode(body)->Some_0;
        let ps = crate::grammar::parse_text(body)->Some_0;
        assert(m == crate::grammar::fold_upserts(Seq::empty(), ps));
        crate::grammar::lemma_fold_upserts_distinct_keys(Seq::empty(), ps);
        crate::roundtrip::lemma_decode_encode(m);
        assert(crate::keywords::distinct_keys(m) && spec_encode(m) == spec_encode(m)
            && spec_decode(spec_encode(m)) == Some(m));
    }
}

/// Repeated gets with no intervening save return byte-identical bodies:
/// the get path never changes the store, and its response is a function of
/// the stored record alone.
pub proof fn lemma_get_idempotent(rec: Option<Seq<char>>, r1: HttpResponse, r2: HttpResponse)
    requires
        get_resp(rec, r1),
        get_resp(rec, r2),
    ensures
        r1.body@ == r2.body@,
        r1.status == r2.status,
{
}

/// Overwrite: after a save with one body and then a save with a second,
/// decodable body, a get returns exactly the canonical encoding of the
/// second keyword set — never the first, never a merge.
pub proof fn lemma_overwrite(
    rec0: Option<Seq<char>>,
    b1: Seq<char>,
    b2: Seq<char>,
    k2: crate::keywords::KwModel,
    r: HttpResponse,
)
    requires
        spec_decode(b2) == Some(k2),
        get_resp(save_store_after(save_store_after(rec0, b1), b2), r),
    ensures
        r.status == 200,
        r.body@ == spec_encode(k2),
{
}

/// First access on a fresh store: a get answers 404 "No data found".
pub proof fn lemma_fresh_get(r: HttpResponse)
    requires
        get_resp(None, r),
    ensures
        r.status == 404,
        r.body@ == "No data found"@,
{
}

} // verus!
