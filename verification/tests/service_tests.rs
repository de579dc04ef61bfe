use keyword_store::cors_headers;
use keyword_store::handler::{
    handle, handle_get, handle_preflight, handle_save, route, HttpResponse, Route,
};
use keyword_store::store::{store_key, KvStore};

fn header_value<'a>(r: &'a HttpResponse, name: &str) -> Option<&'a str> {
    for (k, v) in &r.headers {
        if k == name {
            return Some(v);
        }
    }
    None
}

#[test]
fn routing_table() {
    assert!(matches!(route("OPTIONS", "/save"), Route::Preflight));
    assert!(matches!(route("POST", "/save"), Route::Save));
    assert!(matches!(route("GET", "/get"), Route::Get));
    assert!(matches!(route("GET", "/save"), Route::NoMatch));
    assert!(matches!(route("POST", "/get"), Route::NoMatch));
    assert!(matches!(route("PUT", "/save"), Route::NoMatch));
    assert!(matches!(route("GET", "/"), Route::NoMatch));
    assert!(matches!(route("get", "/get"), Route::NoMatch));
}

#[test]
fn unknown_route_is_left_to_the_host() {
    let mut store = KvStore::new();
    assert!(handle(&mut store, "DELETE", "/save", "").is_none());
    assert!(handle(&mut store, "GET", "/missing", "").is_none());
    assert!(handle(&mut store, "OPTIONS", "/get", "").is_none());
}

#[test]
fn cors_headers_are_fixed() {
    let h = cors_headers();
    assert_eq!(h.len(), 3);
    assert_eq!(h[0].0, "Access-Control-Allow-Origin");
    assert_eq!(h[0].1, "*");
    assert_eq!(h[1].0, "Access-Control-Allow-Methods");
    assert_eq!(h[1].1, "POST, OPTIONS, GET");
    assert_eq!(h[2].0, "Access-Control-Allow-Headers");
    assert_eq!(h[2].1, "Content-Type");
}

#[test]
fn preflight_response() {
    let r = handle_preflight();
    assert_eq!(r.status, 200);
    assert_eq!(r.body, "");
    assert_eq!(
        header_value(&r, "Access-Control-Allow-Methods"),
        Some("POST, OPTIONS, GET")
    );
    let mut store = KvStore::new();
    let r2 = handle(&mut store, "OPTIONS", "/save", "").unwrap();
    assert_eq!(r2.status, 200);
    assert_eq!(r2.body, "");
}

#[test]
fn fresh_store_get_is_not_found() {
    let store = KvStore::new();
    let r = handle_get(&store);
    assert_eq!(r.status, 404);
    assert_eq!(r.body, "No data found");
}

#[test]
fn save_then_get_concrete_scenario() {
    let mut store = KvStore::new();
    let r = handle(&mut store, "POST", "/save", "{\"sports\": [\"soccer\",\"chess\"]}").unwrap();
    assert_eq!(r.status, 200);
    assert_eq!(
        r.body,
        "{\"success\": true, \"message\": \"Data saved to KV successfully.\"}"
    );
    assert_eq!(header_value(&r, "Content-Type"), Some("application/json"));
    let g = handle(&mut store, "GET", "/get", "").unwrap();
    assert_eq!(g.status, 200);
    assert_eq!(g.body, "{\"sports\":[\"soccer\",\"chess\"]}");
    assert_eq!(header_value(&g, "Content-Type"), Some("application/json"));
}

#[test]
fn get_is_idempotent() {
    let mut store = KvStore::new();
    handle(&mut store, "POST", "/save", "{\"a\": [\"x\"]}").unwrap();
    let g1 = handle(&mut store, "GET", "/get", "").unwrap();
    let g2 = handle(&mut store, "GET", "/get", "").unwrap();
    assert_eq!(g1.status, g2.status);
    assert_eq!(g1.body, g2.body);
}

#[test]
fn second_save_overwrites_the_first() {
    let mut store = KvStore::new();
    handle(&mut store, "POST", "/save", "{\"a\": [\"old\"]}").unwrap();
    handle(&mut store, "POST", "/save", "{\"b\": [\"new\",\"values\"]}").unwrap();
    let g = handle(&mut store, "GET", "/get", "").unwrap();
    assert_eq!(g.status, 200);
    assert_eq!(g.body, "{\"b\":[\"new\",\"values\"]}");
}

#[test]
fn malformed_save_is_rejected() {
    let mut store = KvStore::new();
    let r = handle(&mut store, "POST", "/save", "not json").unwrap();
    assert_eq!(r.status, 400);
    assert!(r.body.starts_with("Bad Request:"));
    let r2 = handle(&mut store, "POST", "/save", "{\"a\": \"not-an-array\"}").unwrap();
    assert_eq!(r2.status, 400);
    assert!(r2.body.starts_with("Bad Request:"));
    let g = handle(&mut store, "GET", "/get", "").unwrap();
    assert_eq!(g.status, 404);
}

#[test]
fn rejected_save_keeps_the_old_record() {
    let mut store = KvStore::new();
    handle(&mut store, "POST", "/save", "{\"keep\": [\"me\"]}").unwrap();
    let r = handle(&mut store, "POST", "/save", "broken").unwrap();
    assert_eq!(r.status, 400);
    let g = handle(&mut store, "GET", "/get", "").unwrap();
    assert_eq!(g.body, "{\"keep\":[\"me\"]}");
}

#[test]
fn save_response_carries_cors_headers() {
    let mut store = KvStore::new();
    let ok = handle_save(&mut store, "{\"a\": []}");
    assert_eq!(header_value(&ok, "Access-Control-Allow-Origin"), Some("*"));
    let bad = handle_save(&mut store, "nope");
    assert_eq!(header_value(&bad, "Access-Control-Allow-Origin"), Some("*"));
}

#[test]
fn store_holds_only_the_fixed_key() {
    let mut store = KvStore::new();
    let key = store_key();
    assert_eq!(key, "latest_keywords");
    store.put("some_other_key", "value".to_string());
    assert!(store.get(key.as_str()).is_none());
    store.put(key.as_str(), "kept".to_string());
    assert_eq!(store.get(key.as_str()).unwrap(), "kept");
    assert!(store.get("some_other_key").is_none());
}
