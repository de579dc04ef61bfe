use keyword_store::codec::{decode, encode};
use keyword_store::keywords::KeywordSet;
use std::collections::HashMap;

fn set_of(pairs: &[(&str, &[&str])]) -> KeywordSet {
    let mut k = KeywordSet::new();
    for (key, vals) in pairs {
        let vs: Vec<String> = vals.iter().map(|v| v.to_string()).collect();
        k.upsert(key.to_string(), vs);
    }
    k
}

#[test]
fn decode_concrete_object() {
    let k = decode("{\"sports\": [\"soccer\",\"chess\"]}").unwrap();
    assert_eq!(k.len(), 1);
    let vs = k.get("sports").unwrap();
    assert_eq!(vs.len(), 2);
    assert_eq!(vs[0], "soccer");
    assert_eq!(vs[1], "chess");
}

#[test]
fn encode_concrete_object() {
    let k = set_of(&[("sports", &["soccer", "chess"])]);
    assert_eq!(encode(&k), "{\"sports\":[\"soccer\",\"chess\"]}");
}

#[test]
fn encode_empty_set() {
    let k = KeywordSet::new();
    assert_eq!(encode(&k), "{}");
}

#[test]
fn round_trip_preserves_everything() {
    let k = set_of(&[
        ("sports", &["soccer", "chess"]),
        ("food", &[]),
        ("letters", &["a", "b", "a"]),
    ]);
    let back = decode(&encode(&k)).unwrap();
    assert_eq!(back.len(), 3);
    assert_eq!(back.get("sports").unwrap().as_slice(), ["soccer", "chess"]);
    assert_eq!(back.get("food").unwrap().len(), 0);
    assert_eq!(back.get("letters").unwrap().as_slice(), ["a", "b", "a"]);
    assert_eq!(encode(&back), encode(&k));
}

#[test]
fn round_trip_escapes() {
    let k = set_of(&[("a\"b", &["c\\d", "e\nf", "tab\there"])]);
    let s = encode(&k);
    assert_eq!(s, "{\"a\\\"b\":[\"c\\\\d\",\"e\\u000af\",\"tab\\u0009here\"]}");
    let back = decode(&s).unwrap();
    assert_eq!(back.get("a\"b").unwrap().as_slice(), ["c\\d", "e\nf", "tab\there"]);
}

#[test]
fn decode_accepts_whitespace_and_empty() {
    let k = decode("  { }  ").unwrap();
    assert_eq!(k.len(), 0);
    let k2 = decode("{ \"a\" : [ ] }").unwrap();
    assert_eq!(k2.len(), 1);
    assert_eq!(k2.get("a").unwrap().len(), 0);
    let k3 = decode("{\n\t\"a\": [\"x\" ,\t\"y\"]\r\n}").unwrap();
    assert_eq!(k3.get("a").unwrap().as_slice(), ["x", "y"]);
}

#[test]
fn decode_escape_forms() {
    let k = decode("{\"k\": [\"\\u0041\\n\\t\\\"\\\\\\/\\b\\f\\r\"]}").unwrap();
    assert_eq!(k.get("k").unwrap()[0], "A\n\t\"\\/\u{0008}\u{000C}\r");
}

#[test]
fn round_trip_unicode() {
    let k = set_of(&[("caf\u{00e9}", &["\u{1F600}", "na\u{00ef}ve"])]);
    let s = encode(&k);
    let back = decode(&s).unwrap();
    assert_eq!(
        back.get("caf\u{00e9}").unwrap().as_slice(),
        ["\u{1F600}", "na\u{00ef}ve"]
    );
}

#[test]
fn decode_duplicate_key_last_wins() {
    let k = decode("{\"a\": [\"1\"], \"b\": [\"2\"], \"a\": [\"3\"]}").unwrap();
    assert_eq!(k.len(), 2);
    assert_eq!(k.get("a").unwrap().as_slice(), ["3"]);
    assert_eq!(k.get("b").unwrap().as_slice(), ["2"]);
}

#[test]
fn decode_rejects_non_json() {
    assert!(decode("not json").is_err());
    assert!(!decode("not json").err().unwrap().message.is_empty());
}

#[test]
fn decode_rejects_wrong_shapes() {
    assert!(decode("{\"a\": \"not-an-array\"}").is_err());
    assert!(decode("[\"a\"]").is_err());
    assert!(decode("\"just a string\"").is_err());
    assert!(decode("{\"a\": [1]}").is_err());
    assert!(decode("{\"a\": [[\"x\"]]}").is_err());
    assert!(decode("{\"a\": {\"b\": []}}").is_err());
    assert!(decode("{\"a\": null}").is_err());
    assert!(decode("").is_err());
    assert!(decode("{").is_err());
    assert!(decode("{}{}").is_err());
    assert!(decode("{\"a\": []} trailing").is_err());
    assert!(decode("{\"a\": [\"x\"],}").is_err());
    assert!(decode("{\"a\" [\"x\"]}").is_err());
}

#[test]
fn decode_rejects_bad_strings() {
    assert!(decode("{\"a\": [\"unterminated]}").is_err());
    assert!(decode("{\"a\": [\"bad\\q\"]}").is_err());
    assert!(decode("{\"a\": [\"\\uD800\"]}").is_err());
    assert!(decode("{\"a\": [\"\\u12g4\"]}").is_err());
    assert!(decode("{\"a\": [\"raw\u{0001}control\"]}").is_err());
}

#[test]
fn decode_agrees_with_serde_json() {
    let bodies = [
        "{\"sports\": [\"soccer\",\"chess\"]}",
        "{ \"a\" : [ \"x\" ], \"b\" : [] }",
        "{}",
        "{\"u\": [\"\\u0041\\u00e9\"]}",
    ];
    for body in bodies {
        let ours = decode(body).unwrap();
        let theirs: HashMap<String, Vec<String>> = serde_json::from_str(body).unwrap();
        assert_eq!(ours.len(), theirs.len());
        for (key, vals) in &theirs {
            assert_eq!(ours.get(key).unwrap(), vals);
        }
    }
}

#[test]
fn decode_rejects_like_serde_json() {
    let bodies = [
        "not json",
        "{\"a\": \"not-an-array\"}",
        "{\"a\": [1]}",
        "[\"a\"]",
        "{}{}",
    ];
    for body in bodies {
        assert!(decode(body).is_err());
        assert!(serde_json::from_str::<HashMap<String, Vec<String>>>(body).is_err());
    }
}

#[test]
fn encode_parses_back_with_serde_json() {
    let k = set_of(&[("a\"b", &["c\\d", "e\nf"]), ("plain", &["v1", "v2"])]);
    let s = encode(&k);
    let theirs: HashMap<String, Vec<String>> = serde_json::from_str(&s).unwrap();
    assert_eq!(theirs.len(), 2);
    assert_eq!(theirs["a\"b"], ["c\\d", "e\nf"]);
    assert_eq!(theirs["plain"], ["v1", "v2"]);
}

#[test]
fn upsert_replaces_in_place() {
    let mut k = set_of(&[("a", &["1"]), ("b", &["2"])]);
    k.upsert("a".to_string(), vec!["9".to_string()]);
    assert_eq!(k.len(), 2);
    assert_eq!(k.get("a").unwrap().as_slice(), ["9"]);
    assert_eq!(encode(&k), "{\"a\":[\"9\"],\"b\":[\"2\"]}");
}
