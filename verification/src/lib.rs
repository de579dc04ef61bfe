//! A verified keyword-preference store service.
//!
//! The library implements the full request-handling path of a small
//! persistence endpoint: routing of HTTP method and path, decoding and
//! validation of a JSON document mapping category names to lists of keyword
//! strings, canonical re-encoding for storage, interaction with a single-key
//! value store, and response construction with fixed cross-origin headers.

pub mod codec;
pub mod grammar;
pub mod handler;
pub mod keywords;
pub mod roundtrip;
pub mod store;

use vstd::prelude::*;

verus! {

/// The three cross-origin headers that every response carries.
pub open spec fn spec_cors_headers() -> Seq<(Seq<char>, Seq<char>)> {
    seq![
        ("Access-Control-Allow-Origin"@, "*"@),
        ("Access-Control-Allow-Methods"@, "POST, OPTIONS, GET"@),
        ("Access-Control-Allow-Headers"@, "Content-Type"@),
    ]
}

/// View of a header list as pairs of character sequences.
pub open spec fn headers_view(h: Seq<(String, String)>) -> Seq<(Seq<char>, Seq<char>)> {
    h.map_values(|p: (String, String)| (p.0@, p.1@))
}

/// Builds the fixed cross-origin header set attached to every response.
pub fn cors_headers() -> (h: Vec<(String, String)>)
    ensures
        headers_view(h@) == spec_cors_headers(),
{
    let mut h: Vec<(String, String)> = Vec::new();
    h.push((
        String::from_str("Access-Control-Allow-Origin"),
        String::from_str("*"),
    ));
    h.push((
        String::from_str("Access-Control-Allow-Methods"),
        String::from_str("POST, OPTIONS, GET"),
    ));
    h.push((
        String::from_str("Access-Control-Allow-Headers"),
        String::from_str("Content-Type"),
    ));
    proof {
        assert(headers_view(h@) =~= spec_cors_headers());
    }
    h
}

} // verus!
