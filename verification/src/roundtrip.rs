//! Round-trip fidelity of the codec.
//!
//! The law proved here: decoding the canonical encoding of any well-formed
//! keyword set gives that set back — keys, per-key contents and counts, and
//! the order within each list are all preserved.

use vstd::prelude::*;
use crate::keywords::{KwModel, distinct_keys, has_key, upsert_model};
use crate::grammar::{
    skip_ws, hex_char, lemma_hex_char_val, parse_string_body, parse_string,
    parse_array_items, parse_array, parse_members, parse_text, fold_upserts, spec_decode,
    encode_char, encode_string_body, encode_string, encode_strings, encode_array, encode_pair,
    encode_pairs, spec_encode,
};

verus! {

/// A character taken from a sequence is a Unicode scalar value.
proof fn lemma_char_bounds(t: Seq<char>, k: int)
    requires
        0 <= k < t.len(),
    ensures
        0 <= t[k] as int <= 0x10FFFF,
        ((t[k] as int) as char) == t[k],
{
    let c = t[k];
    vstd::utf8::char_is_scalar(c);
    vstd::utf8::char_u32_cast(c, c as u32);
    assert(vstd::utf8::is_scalar(c as u32));
    assert(c as u32 as int == c as int);
    assert((c as u32) as char == c);
}

/// `s` holds the pattern `p` starting at index `i`.
pub open spec fn matches_at(s: Seq<char>, i: int, p: Seq<char>) -> bool {
    forall|j: int| 0 <= j < p.len() ==> s[i + j] == #[trigger] p[j]
}

proof fn lemma_matches_at_split(s: Seq<char>, i: int, p: Seq<char>, q: Seq<char>)
    requires
        matches_at(s, i, p.add(q)),
    ensures
        matches_at(s, i, p),
        matches_at(s, i + p.len(), q),
{
    assert forall|j: int| 0 <= j < p.len() implies s[i + j] == #[trigger] p[j] by {
        assert(p.add(q)[j] == p[j]);
        assert(s[i + j] == p.add(q)[j]);
    }
    assert forall|j: int| 0 <= j < q.len() implies s[i + p.len() + j] == #[trigger] q[j] by {
        assert(p.add(q)[p.len() + j] == q[j]);
        assert(s[i + (p.len() + j)] == p.add(q)[p.len() + j]);
    }
}

proof fn lemma_matches_at_one(s: Seq<char>, i: int, p: Seq<char>, j: int)
    requires
        matches_at(s, i, p),
        0 <= j < p.len(),
    ensures
        s[i + j] == p[j],
{
    assert(s[i + j] == p[j]);
}

/// Parsing an encoded string body, followed by its closing quote, yields
/// exactly the original characters.
proof fn lemma_parse_encoded_body(s: Seq<char>, i: int, t: Seq<char>, acc: Seq<char>)
    requires
        0 <= i,
        i + encode_string_body(t).len() + 1 <= s.len(),
        matches_at(s, i, encode_string_body(t)),
        s[i + encode_string_body(t).len()] == '"',
    ensures
        parse_string_body(s, i, acc) == Some((acc.add(t), i + encode_string_body(t).len() + 1)),
    decreases t.len(),
{
    if t.len() == 0 {
        assert(encode_string_body(t).len() == 0);
        assert(s[i] == '"');
        assert(acc.add(t) =~= acc);
    } else {
        let c = t[0];
        let e = encode_char(c);
        let t1 = t.drop_first();
        let rest = encode_string_body(t1);
        assert(encode_string_body(t) == e.add(rest));
        lemma_matches_at_split(s, i, e, rest);
        assert(s[i + e.len() + rest.len()] == '"');
        if c == '"' {
            lemma_matches_at_one(s, i, e, 0);
            lemma_matches_at_one(s, i, e, 1);
            assert(s[i] == '\\' && s[i + 1] == '"');
            lemma_parse_encoded_body(s, i + 2, t1, acc.push('"'));
            assert(acc.push('"').add(t1) =~= acc.add(t));
        } else if c == '\\' {
            lemma_matches_at_one(s, i, e, 0);
            lemma_matches_at_one(s, i, e, 1);
            assert(s[i] == '\\' && s[i + 1] == '\\');
            lemma_parse_encoded_body(s, i + 2, t1, acc.push('\\'));
            assert(acc.push('\\').add(t1) =~= acc.add(t));
        } else if (c as int) < 0x20 {
            lemma_matches_at_one(s, i, e, 0);
            lemma_matches_at_one(s, i, e, 1);
            lemma_matches_at_one(s, i, e, 2);
            lemma_matches_at_one(s, i, e, 3);
            lemma_matches_at_one(s, i, e, 4);
            lemma_matches_at_one(s, i, e, 5);
            assert(s[i] == '\\' && s[i + 1] == 'u' && s[i + 2] == '0' && s[i + 3] == '0');
            let u = c as int;
            lemma_char_bounds(t, 0);
            if u < 0x10 {
                assert(s[i + 4] == '0' && s[i + 5] == hex_char(u));
                lemma_hex_char_val(u);
            } else {
                assert(s[i + 4] == '1' && s[i + 5] == hex_char(u - 0x10));
                lemma_hex_char_val(u - 0x10);
            }
            assert((u as char) == c);
            lemma_parse_encoded_body(s, i + 6, t1, acc.push(c));
            assert(acc.push(c).add(t1) =~= acc.add(t));
        } else {
            lemma_matches_at_one(s, i, e, 0);
            assert(s[i] == c);
            lemma_parse_encoded_body(s, i + 1, t1, acc.push(c));
            assert(acc.push(c).add(t1) =~= acc.add(t));
        }
    }
}

/// Parsing an encoded string literal yields exactly the original characters.
proof fn lemma_parse_encoded_string(s: Seq<char>, i: int, t: Seq<char>)
    requires
        0 <= i,
        i + encode_string(t).len() <= s.len(),
        matches_at(s, i, encode_string(t)),
    ensures
        parse_string(s, i) == Some((t, i + encode_string(t).len())),
{
    let body = encode_string_body(t);
    let p1 = seq!['"'].add(body);
    lemma_matches_at_split(s, i, p1, seq!['"']);
    lemma_matches_at_split(s, i, seq!['"'], body);
    lemma_matches_at_one(s, i, seq!['"'], 0);
    assert(s[i] == '"');
    lemma_matches_at_one(s, i + p1.len(), seq!['"'], 0);
    assert(s[i + 1 + body.len()] == '"');
    lemma_parse_encoded_body(s, i + 1, t, Seq::empty());
    assert(Seq::empty().add(t) =~= t);
    assert(encode_string(t).len() == body.len() + 2);
}

/// Parsing encoded array items, followed by the closing bracket, yields
/// exactly the original strings.
proof fn lemma_parse_encoded_items(s: Seq<char>, i: int, vs: Seq<Seq<char>>)
    requires
        vs.len() >= 1,
        0 <= i,
        i + encode_strings(vs).len() + 1 <= s.len(),
        matches_at(s, i, encode_strings(vs)),
        s[i + encode_strings(vs).len()] == ']',
    ensures
        parse_array_items(s, i) == Some((vs, i + encode_strings(vs).len() + 1)),
    decreases vs.len(),
{
    let es = encode_strings(vs);
    let es0 = encode_string(vs[0]);
    assert(es0[0] == '"');
    if vs.len() == 1 {
        assert(es == es0);
        lemma_matches_at_one(s, i, es, 0);
        assert(s[i] == '"');
        assert(skip_ws(s, i) == i);
        lemma_parse_encoded_string(s, i, vs[0]);
        let k = i + es0.len();
        assert(s[k] == ']');
        assert(skip_ws(s, k) == k);
        assert(parse_array_items(s, i) == Some((seq![vs[0]], k + 1)));
        assert(seq![vs[0]] =~= vs);
    } else {
        let rest = encode_strings(vs.drop_first());
        assert(es == es0.add(seq![',']).add(rest));
        lemma_matches_at_split(s, i, es0.add(seq![',']), rest);
        lemma_matches_at_split(s, i, es0, seq![',']);
        lemma_matches_at_one(s, i, es0, 0);
        assert(s[i] == '"');
        assert(skip_ws(s, i) == i);
        lemma_parse_encoded_string(s, i, vs[0]);
        let k = i + es0.len();
        lemma_matches_at_one(s, k, seq![','], 0);
        assert(s[k] == ',');
        assert(skip_ws(s, k) == k);
        lemma_parse_encoded_items(s, k + 1, vs.drop_first());
        assert(seq![vs[0]].add(vs.drop_first()) =~= vs);
        assert(k + 1 + rest.len() + 1 == i + es.len() + 1);
    }
}

/// Parsing an encoded string array yields exactly the original strings.
proof fn lemma_parse_encoded_array(s: Seq<char>, i: int, vs: Seq<Seq<char>>)
    requires
        0 <= i,
        i + encode_array(vs).len() <= s.len(),
        matches_at(s, i, encode_array(vs)),
    ensures
        parse_array(s, i) == Some((vs, i + encode_array(vs).len())),
{
    let es = encode_strings(vs);
    let ea = encode_array(vs);
    let p1 = seq!['['].add(es);
    lemma_matches_at_split(s, i, p1, seq![']']);
    lemma_matches_at_split(s, i, seq!['['], es);
    lemma_matches_at_one(s, i, seq!['['], 0);
    assert(s[i] == '[');
    lemma_matches_at_one(s, i + p1.len(), seq![']'], 0);
    assert(s[i + 1 + es.len()] == ']');
    if vs.len() == 0 {
        assert(es.len() == 0);
        assert(s[i + 1] == ']');
        assert(skip_ws(s, i + 1) == i + 1);
        assert(parse_array(s, i) == Some((Seq::<Seq<char>>::empty(), i + 2)));
        assert(Seq::<Seq<char>>::empty() =~= vs);
    } else {
        let es0 = encode_string(vs[0]);
        assert(es0[0] == '"');
        if vs.len() == 1 {
            assert(es == es0);
        } else {
            assert(es == es0.add(seq![',']).add(encode_strings(vs.drop_first())));
            assert(es[0] == es0[0]);
        }
        lemma_matches_at_one(s, i + 1, es, 0);
        assert(s[i + 1] == '"');
        assert(skip_ws(s, i + 1) == i + 1);
        lemma_parse_encoded_items(s, i + 1, vs);
        assert(i + 1 + es.len() + 1 == i + ea.len());
    }
}

/// Parsing encoded object members, followed by the closing brace, yields
/// exactly the original pairs.
proof fn lemma_parse_encoded_members(s: Seq<char>, i: int, m: KwModel)
    requires
        m.len() >= 1,
        0 <= i,
        i + encode_pairs(m).len() + 1 <= s.len(),
        matches_at(s, i, encode_pairs(m)),
        s[i + encode_pairs(m).len()] == '}',
    ensures
        parse_members(s, i) == Some((m, i + encode_pairs(m).len() + 1)),
    decreases m.len(),
{
    let ep = encode_pairs(m);
    let p0 = encode_pair(m[0]);
    let ks = encode_string(m[0].0);
    let ar = encode_array(m[0].1);
    assert(p0 == ks.add(seq![':']).add(ar));
    if m.len() == 1 {
        assert(ep == p0);
    } else {
        assert(ep == p0.add(seq![',']).add(encode_pairs(m.drop_first())));
        lemma_matches_at_split(s, i, p0.add(seq![',']), encode_pairs(m.drop_first()));
        lemma_matches_at_split(s, i, p0, seq![',']);
    }
    // the member's key string
    lemma_matches_at_split(s, i, ks.add(seq![':']), ar);
    lemma_matches_at_split(s, i, ks, seq![':']);
    lemma_matches_at_one(s, i, ks, 0);
    assert(s[i] == '"');
    assert(skip_ws(s, i) == i);
    lemma_parse_encoded_string(s, i, m[0].0);
    let a = i + ks.len();
    // the colon
    lemma_matches_at_one(s, a, seq![':'], 0);
    assert(s[a] == ':');
    assert(skip_ws(s, a) == a);
    // the member's array
    lemma_matches_at_one(s, a + 1, ar, 0);
    assert(s[a + 1] == ar[0]);
    assert(ar[0] == '[');
    assert(skip_ws(s, a + 1) == a + 1);
    lemma_parse_encoded_array(s, a + 1, m[0].1);
    let d = a + 1 + ar.len();
    assert(d == i + p0.len());
    if m.len() == 1 {
        assert(s[d] == '}');
        assert(skip_ws(s, d) == d);
        assert(parse_members(s, i) == Some((seq![m[0]], d + 1)));
        assert(seq![m[0]] =~= m);
    } else {
        lemma_matches_at_one(s, i + p0.len(), seq![','], 0);
        assert(s[d] == ',');
        assert(skip_ws(s, d) == d);
        let rest = encode_pairs(m.drop_first());
        lemma_parse_encoded_members(s, d + 1, m.drop_first());
        assert(seq![m[0]].add(m.drop_first()) =~= m);
        assert(d + 1 + rest.len() + 1 == i + ep.len() + 1);
    }
}

/// Parsing the canonical encoding of a keyword set yields exactly its
/// member pairs.
proof fn lemma_parse_text_encoded(m: KwModel)
    ensures
        parse_text(spec_encode(m)) == Some(m),
{
    let s = spec_encode(m);
    let ep = encode_pairs(m);
    let p1 = seq!['{'].add(ep);
    lemma_matches_at_split(s, 0, p1, seq!['}']);
    lemma_matches_at_split(s, 0, seq!['{'], ep);
    lemma_matches_at_one(s, 0, seq!['{'], 0);
    assert(s[0] == '{');
    assert(skip_ws(s, 0) == 0);
    lemma_matches_at_one(s, p1.len() as int, seq!['}'], 0);
    assert(s[1 + ep.len() as int] == '}');
    if m.len() == 0 {
        assert(ep.len() == 0);
        assert(s[1] == '}');
        assert(skip_ws(s, 1) == 1);
        assert(skip_ws(s, 2) == 2 == s.len());
        assert(parse_text(s) == Some(Seq::<(Seq<char>, Seq<Seq<char>>)>::empty()));
        assert(Seq::<(Seq<char>, Seq<Seq<char>>)>::empty() =~= m);
    } else {
        let p0 = encode_pair(m[0]);
        let ks = encode_string(m[0].0);
        if m.len() == 1 {
            assert(ep == p0);
        } else {
            assert(ep == p0.add(seq![',']).add(encode_pairs(m.drop_first())));
            assert(ep[0] == p0[0]);
        }
        assert(p0 == ks.add(seq![':']).add(encode_array(m[0].1)));
        assert(p0[0] == ks[0]);
        assert(ks[0] == '"');
        lemma_matches_at_one(s, 1, ep, 0);
        assert(s[1] == '"');
        assert(skip_ws(s, 1) == 1);
        lemma_parse_encoded_members(s, 1, m);
        assert(parse_members(s, 1) == Some((m, s.len() as int)));
        assert(skip_ws(s, s.len() as int) == s.len());
    }
}

/// Folding members with pairwise-distinct keys appends them unchanged.
proof fn lemma_fold_upserts_distinct(acc: KwModel, ps: KwModel)
    requires
        distinct_keys(acc.add(ps)),
    ensures
        fold_upserts(acc, ps) == acc.add(ps),
    decreases ps.len(),
{
    if ps.len() == 0 {
        assert(acc.add(ps) =~= acc);
    } else {
        let p = ps[0];
        assert(!has_key(acc, p.0)) by {
            if has_key(acc, p.0) {
                let w = choose|w: int| 0 <= w < acc.len() && acc[w].0 == p.0;
                assert(acc.add(ps)[w] == acc[w]);
                assert(acc.add(ps)[acc.len() as int] == p);
                assert(false);
            }
        }
        assert(upsert_model(acc, p.0, p.1) == acc.push(p));
        assert(acc.push(p).add(ps.drop_first()) =~= acc.add(ps));
        lemma_fold_upserts_distinct(acc.push(p), ps.drop_first());
    }
}

/// Round trip: decoding the canonical encoding of any well-formed keyword
/// set gives exactly that set back — every key with its full list, in order.
pub proof fn lemma_decode_encode(m: KwModel)
    requires
        distinct_keys(m),
    ensures
        spec_decode(spec_encode(m)) == Some(m),
{
    lemma_parse_text_encoded(m);
    assert(Seq::empty().add(m) =~= m);
    lemma_fold_upserts_distinct(Seq::empty(), m);
}

} // verus!
